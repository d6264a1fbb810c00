//! Text helpers with exact contracts: numbers in and out, trimming,
//! splitting, searching and comparing. A string is modelled by its sequence
//! of characters, and by the UTF-8 encoding of that sequence where bytes
//! matter.

use vstd::prelude::*;
use vstd::slice::*;
use vstd::string::*;
use vstd::utf8::*;

verus! {

/// `String::push` appends one character.
pub assume_specification[ String::push ](s: &mut String, c: char)
    ensures
        final(s)@ == old(s)@.push(c),
;

/// Wraps `String::from_utf8`: the text that the bytes encode, or `None` when
/// they are not well-formed UTF-8.
#[verifier::external_body]
pub(crate) fn utf8_text(bytes: Vec<u8>) -> (text: Option<String>)
    ensures
        text is Some <==> valid_utf8(bytes@),
        text matches Some(t) ==> t@ == decode_utf8(bytes@),
{
    String::from_utf8(bytes).ok()
}

/// The characters of a string, in order.
pub fn chars_of(s: &str) -> (v: Vec<char>)
    ensures
        v@ == s@,
{
    let mut v: Vec<char> = Vec::new();
    for c in it: s.chars()
        invariant
            v@ == it.seq().take(it.index()),
            it.seq() == s@,
    {
        assert(it.seq().take(it.index() + 1) =~= it.seq().take(it.index()).push(c));
        v.push(c);
    }
    assert(v@ =~= s@);
    v
}

/// The string made of `v[from..to]`.
pub fn string_range(v: &[char], from: usize, to: usize) -> (s: String)
    requires
        from <= to <= v@.len(),
    ensures
        s@ == v@.subrange(from as int, to as int),
{
    let mut s = String::new();
    let mut i: usize = from;
    while i < to
        invariant
            from <= i <= to <= v@.len(),
            s@ == v@.subrange(from as int, i as int),
        decreases to - i,
    {
        s.push(v[i]);
        i += 1;
        assert(s@ =~= v@.subrange(from as int, i as int));
    }
    s
}

/// The string made of all of `v`.
pub fn string_of(v: &[char]) -> (s: String)
    ensures
        s@ == v@,
{
    let s = string_range(v, 0, v.len());
    assert(s@ =~= v@);
    s
}

// ---------------------------------------------------------------------------
// Numbers
// ---------------------------------------------------------------------------

/// The character for a decimal digit.
pub open spec fn digit_char(d: nat) -> char {
    (48 + d) as char
}

/// `n` written in decimal, without leading zeros.
pub open spec fn decimal(n: nat) -> Seq<char>
    decreases n,
{
    if n < 10 {
        seq![digit_char(n)]
    } else {
        decimal(n / 10).push(digit_char(n % 10))
    }
}

/// `n` written in decimal, with a minus sign when negative.
pub open spec fn decimal_int(n: int) -> Seq<char> {
    if n < 0 {
        seq!['-'] + decimal((-n) as nat)
    } else {
        decimal(n as nat)
    }
}

/// Appends `n` in decimal.
pub fn push_decimal(out: &mut String, n: u64)
    ensures
        final(out)@ == old(out)@ + decimal(n as nat),
    decreases n,
{
    if n >= 10 {
        push_decimal(out, n / 10);
    }
    let c = (48u8 + (n % 10) as u8) as char;
    assert(c == digit_char(n as nat % 10));
    out.push(c);
    assert(out@ =~= old(out)@ + decimal(n as nat));
}

/// Appends `n` in decimal, signed.
pub fn push_decimal_int(out: &mut String, n: i64)
    ensures
        final(out)@ == old(out)@ + decimal_int(n as int),
{
    if n < 0 {
        out.push('-');
        let magnitude: u64 = (-(n as i128)) as u64;
        push_decimal(out, magnitude);
        assert(out@ =~= old(out)@ + decimal_int(n as int));
    } else {
        push_decimal(out, n as u64);
    }
}

/// The value of a digit in bases up to sixteen.
pub open spec fn digit_value(c: char, radix: nat) -> Option<nat> {
    let v = if '0' <= c <= '9' {
        (c as int - '0' as int) as nat
    } else if 'a' <= c <= 'f' {
        (c as int - 'a' as int + 10) as nat
    } else if 'A' <= c <= 'F' {
        (c as int - 'A' as int + 10) as nat
    } else {
        radix
    };
    if v < radix {
        Some(v)
    } else {
        None
    }
}

/// Every character is a digit, and there is one.
pub open spec fn is_number(s: Seq<char>, radix: nat) -> bool {
    s.len() > 0 && forall|i: int| 0 <= i < s.len() ==> digit_value(#[trigger] s[i], radix) is Some
}

/// The number that a run of digits stands for.
pub open spec fn number_value(s: Seq<char>, radix: nat) -> nat
    decreases s.len(),
{
    if s.len() == 0 {
        0
    } else {
        number_value(s.drop_last(), radix) * radix + digit_value(s.last(), radix).unwrap_or(0)
    }
}

/// Reads an unsigned number of at most `max`: digits, after an optional plus
/// sign.
pub open spec fn parse_unsigned(s: Seq<char>, radix: nat, max: nat) -> Option<nat> {
    let t = if s.len() > 0 && s[0] == '+' {
        s.skip(1)
    } else {
        s
    };
    if is_number(t, radix) && number_value(t, radix) <= max {
        Some(number_value(t, radix))
    } else {
        None
    }
}

/// Reads a signed decimal number between `min` and `max`: digits, after an
/// optional sign.
pub open spec fn parse_signed(s: Seq<char>, min: int, max: nat) -> Option<int> {
    if s.len() > 0 && s[0] == '-' {
        let t = s.skip(1);
        if is_number(t, 10) && -(number_value(t, 10) as int) >= min {
            Some(-(number_value(t, 10) as int))
        } else {
            None
        }
    } else {
        match parse_unsigned(s, 10, max) {
            Some(v) => Some(v as int),
            None => None,
        }
    }
}

proof fn lemma_number_grows(s: Seq<char>, radix: nat, i: int)
    requires
        0 <= i <= s.len(),
        radix >= 1,
    ensures
        number_value(s.take(i), radix) <= number_value(s, radix),
    decreases s.len() - i,
{
    if i < s.len() {
        lemma_number_grows(s, radix, i + 1);
        assert(s.take(i + 1).drop_last() =~= s.take(i));
        let v = number_value(s.take(i), radix);
        assert(v * radix >= v) by (nonlinear_arith)
            requires
                radix >= 1,
        ;
    } else {
        assert(s.take(i) =~= s);
    }
}

fn read_digit(c: char, radix: u8) -> (v: Option<u8>)
    requires
        radix <= 16,
    ensures
        match v {
            Some(d) => digit_value(c, radix as nat) == Some(d as nat),
            None => digit_value(c, radix as nat) is None,
        },
{
    let code = c as u32;
    let d: u32 = if 48 <= code && code <= 57 {
        code - 48
    } else if 97 <= code && code <= 102 {
        code - 97 + 10
    } else if 65 <= code && code <= 70 {
        code - 65 + 10
    } else {
        return None;
    };
    if d < radix as u32 {
        Some(d as u8)
    } else {
        None
    }
}

/// Reads `v[from..]` as digits of a number of at most `max`.
fn read_digits(v: &Vec<char>, from: usize, radix: u8, max: u64) -> (r: Option<u64>)
    requires
        from <= v@.len(),
        1 <= radix <= 16,
    ensures
        ({
            let t = v@.skip(from as int);
            match r {
                Some(n) => is_number(t, radix as nat) && number_value(t, radix as nat) == n && n <= max,
                None => !(is_number(t, radix as nat) && number_value(t, radix as nat) <= max),
            }
        }),
{
    let ghost t = v@.skip(from as int);
    if from == v.len() {
        return None;
    }
    let mut acc: u64 = 0;
    let mut i: usize = from;
    while i < v.len()
        invariant
            from <= i <= v@.len(),
            1 <= radix <= 16,
            t == v@.skip(from as int),
            acc <= max,
            acc == number_value(t.take(i - from), radix as nat),
            forall|j: int| 0 <= j < i - from ==> digit_value(#[trigger] t[j], radix as nat) is Some,
        decreases v@.len() - i,
    {
        assert(t[i - from] == v@[i as int]);
        match read_digit(v[i], radix) {
            None => {
                return None;
            },
            Some(d) => {
                assert(acc * radix <= 0xffff_ffff_ffff_ffff * 16) by (nonlinear_arith)
                    requires
                        acc <= 0xffff_ffff_ffff_ffff,
                        radix <= 16,
                ;
                let next: u128 = acc as u128 * radix as u128 + d as u128;
                proof {
                    assert(t.take(i - from + 1).drop_last() =~= t.take(i - from));
                    lemma_number_grows(t, radix as nat, i - from + 1);
                    assert(next == number_value(t.take(i - from + 1), radix as nat));
                }
                if next > max as u128 {
                    return None;
                }
                acc = next as u64;
            },
        }
        i += 1;
    }
    assert(t.take(i - from) =~= t);
    Some(acc)
}

/// Reads an unsigned number as the standard library does.
pub fn read_unsigned(v: &Vec<char>, radix: u8, max: u64) -> (r: Option<u64>)
    requires
        1 <= radix <= 16,
    ensures
        match r {
            Some(n) => parse_unsigned(v@, radix as nat, max as nat) == Some(n as nat),
            None => parse_unsigned(v@, radix as nat, max as nat) is None,
        },
{
    assert(v@.skip(0) =~= v@);
    if v.len() > 0 && v[0] == '+' {
        read_digits(v, 1, radix, max)
    } else {
        read_digits(v, 0, radix, max)
    }
}

/// Reads a signed decimal number as the standard library does.
pub fn read_signed(v: &Vec<char>, min: i64, max: i64) -> (r: Option<i64>)
    requires
        min <= 0 <= max,
    ensures
        match r {
            Some(n) => parse_signed(v@, min as int, max as nat) == Some(n as int),
            None => parse_signed(v@, min as int, max as nat) is None,
        },
{
    if v.len() > 0 && v[0] == '-' {
        let bound: u64 = (-(min as i128)) as u64;
        match read_digits(v, 1, 10, bound) {
            Some(n) => Some((-(n as i128)) as i64),
            None => None,
        }
    } else {
        match read_unsigned(v, 10, max as u64) {
            Some(n) => Some(n as i64),
            None => None,
        }
    }
}

/// A number that was written in decimal is read back, by everything that
/// reads numbers of its size. It is written in digits alone.
pub proof fn law_decimal_reads_back(n: nat)
    ensures
        decimal(n).len() > 0,
        forall|i: int| 0 <= i < decimal(n).len() ==> '0' <= #[trigger] decimal(n)[i] <= '9',
        number_value(decimal(n), 10) == n,
        forall|max: nat| n <= max ==> #[trigger] parse_unsigned(decimal(n), 10, max) == Some(n),
    decreases n,
{
    let s = decimal(n);
    if n >= 10 {
        law_decimal_reads_back(n / 10);
        assert(s.drop_last() =~= decimal(n / 10));
        assert(s.last() == digit_char(n % 10));
        assert forall|i: int| 0 <= i < s.len() implies '0' <= #[trigger] s[i] <= '9' by {
            if i < s.len() - 1 {
                assert(s[i] == decimal(n / 10)[i]);
            }
        }
    } else {
        assert(s =~= seq![digit_char(n)]);
        assert(s.drop_last() =~= Seq::<char>::empty());
        assert(number_value(s.drop_last(), 10) == 0);
    }
    assert forall|i: int| 0 <= i < s.len() implies digit_value(#[trigger] s[i], 10) is Some by {
        assert('0' <= s[i] <= '9');
    }
}

// ---------------------------------------------------------------------------
// White space
// ---------------------------------------------------------------------------

/// Unicode's White_Space characters.
pub open spec fn is_white(c: char) -> bool {
    let u = c as u32;
    ||| 0x9 <= u <= 0xd
    ||| u == 0x20
    ||| u == 0x85
    ||| u == 0xa0
    ||| u == 0x1680
    ||| 0x2000 <= u <= 0x200a
    ||| u == 0x2028
    ||| u == 0x2029
    ||| u == 0x202f
    ||| u == 0x205f
    ||| u == 0x3000
}

/// Whether `c` is white space.
pub fn white(c: char) -> (b: bool)
    ensures
        b == is_white(c),
{
    let u = c as u32;
    (0x9 <= u && u <= 0xd) || u == 0x20 || u == 0x85 || u == 0xa0 || u == 0x1680 || (0x2000 <= u && u
        <= 0x200a) || u == 0x2028 || u == 0x2029 || u == 0x202f || u == 0x205f || u == 0x3000
}

/// `s` without its leading white space.
pub open spec fn trim_start(s: Seq<char>) -> Seq<char>
    decreases s.len(),
{
    if s.len() > 0 && is_white(s[0]) {
        trim_start(s.skip(1))
    } else {
        s
    }
}

/// `s` without its trailing white space.
pub open spec fn trim_end(s: Seq<char>) -> Seq<char>
    decreases s.len(),
{
    if s.len() > 0 && is_white(s.last()) {
        trim_end(s.drop_last())
    } else {
        s
    }
}

/// `s` without white space at either end.
pub open spec fn trim(s: Seq<char>) -> Seq<char> {
    trim_end(trim_start(s))
}

proof fn lemma_trim_start(s: Seq<char>, i: int)
    requires
        0 <= i <= s.len(),
        forall|j: int| 0 <= j < i ==> is_white(#[trigger] s[j]),
    ensures
        trim_start(s) == trim_start(s.skip(i)),
    decreases i,
{
    if i == 0 {
        assert(s.skip(0) =~= s);
    } else {
        assert(s.skip(1).skip(i - 1) =~= s.skip(i));
        assert forall|j: int| 0 <= j < i - 1 implies is_white(#[trigger] s.skip(1)[j]) by {
            assert(s.skip(1)[j] == s[j + 1]);
        }
        lemma_trim_start(s.skip(1), i - 1);
    }
}

/// `s` without white space at either end, as characters.
pub fn trimmed(s: &str) -> (v: Vec<char>)
    ensures
        v@ == trim(s@),
{
    let all = chars_of(s);
    trim_chars(&all)
}

/// `all` without white space at either end.
pub fn trim_chars(all: &[char]) -> (v: Vec<char>)
    ensures
        v@ == trim(all@),
{
    let mut from: usize = 0;
    while from < all.len() && white(all[from])
        invariant
            from <= all@.len(),
            forall|j: int| 0 <= j < from ==> is_white(#[trigger] all@[j]),
        decreases all@.len() - from,
    {
        from += 1;
    }
    proof {
        lemma_trim_start(all@, from as int);
    }
    let ghost rest = all@.skip(from as int);
    assert(trim_start(all@) == rest);
    let mut to: usize = all.len();
    assert(rest.take(to - from) =~= rest);
    while to > from && white(all[to - 1])
        invariant
            from <= to <= all@.len(),
            rest == all@.skip(from as int),
            trim_end(rest) == trim_end(rest.take(to - from)),
        decreases to,
    {
        assert(rest.take(to - from).drop_last() =~= rest.take(to - from - 1));
        to -= 1;
    }
    let ghost kept = rest.take(to - from);
    assert(trim_end(kept) == kept);
    let mut v: Vec<char> = Vec::new();
    let mut i: usize = from;
    while i < to
        invariant
            from <= i <= to <= all@.len(),
            v@ == all@.subrange(from as int, i as int),
        decreases to - i,
    {
        v.push(all[i]);
        i += 1;
        assert(v@ =~= all@.subrange(from as int, i as int));
    }
    assert(v@ =~= kept);
    v
}

// ---------------------------------------------------------------------------
// Searching and splitting
// ---------------------------------------------------------------------------

/// Where `c` first stands in `s`, or the length of `s`.
pub open spec fn first_at(s: Seq<char>, c: char) -> int
    decreases s.len(),
{
    if s.len() == 0 || s[0] == c {
        0
    } else {
        1 + first_at(s.skip(1), c)
    }
}

/// Where `c` last stands in `s`, or -1.
pub open spec fn last_at(s: Seq<char>, c: char) -> int
    decreases s.len(),
{
    if s.len() == 0 {
        -1
    } else if s.last() == c {
        s.len() - 1
    } else {
        last_at(s.drop_last(), c)
    }
}

/// `first_at` is the first position, if there is one.
pub proof fn lemma_first_at(s: Seq<char>, c: char)
    ensures
        0 <= first_at(s, c) <= s.len(),
        first_at(s, c) < s.len() ==> s[first_at(s, c)] == c,
        forall|j: int| 0 <= j < first_at(s, c) ==> #[trigger] s[j] != c,
    decreases s.len(),
{
    if s.len() != 0 && s[0] != c {
        lemma_first_at(s.skip(1), c);
        assert forall|j: int| 0 <= j < first_at(s, c) implies #[trigger] s[j] != c by {
            if j > 0 {
                assert(s.skip(1)[j - 1] == s[j]);
            }
        }
    }
}

/// `last_at` is the last position, if there is one.
pub proof fn lemma_last_at(s: Seq<char>, c: char)
    ensures
        -1 <= last_at(s, c) < s.len(),
        last_at(s, c) >= 0 ==> s[last_at(s, c)] == c,
        forall|j: int| last_at(s, c) < j < s.len() ==> #[trigger] s[j] != c,
    decreases s.len(),
{
    if s.len() != 0 && s.last() != c {
        lemma_last_at(s.drop_last(), c);
        assert forall|j: int| last_at(s, c) < j < s.len() implies #[trigger] s[j] != c by {
            if j < s.len() - 1 {
                assert(s.drop_last()[j] == s[j]);
            }
        }
    }
}

/// Where `c` first stands in `v`, or the length of `v`.
pub fn find_first(v: &[char], c: char) -> (i: usize)
    ensures
        i == first_at(v@, c),
{
    let mut i: usize = 0;
    while i < v.len() && v[i] != c
        invariant
            i <= v@.len(),
            forall|j: int| 0 <= j < i ==> #[trigger] v@[j] != c,
        decreases v@.len() - i,
    {
        i += 1;
    }
    proof {
        lemma_first_at(v@, c);
        let k = first_at(v@, c);
        if k < i {
            assert(v@[k] != c);
        } else if i < k {
            assert(v@[i as int] != c);
        }
    }
    i
}

/// Where `c` last stands in `v`.
pub fn find_last(v: &[char], c: char) -> (r: Option<usize>)
    ensures
        match r {
            Some(i) => i == last_at(v@, c) && i < v@.len(),
            None => last_at(v@, c) == -1,
        },
{
    let mut i: usize = v.len();
    while i > 0 && v[i - 1] != c
        invariant
            i <= v@.len(),
            forall|j: int| i <= j < v@.len() ==> #[trigger] v@[j] != c,
        decreases i,
    {
        i -= 1;
    }
    proof {
        lemma_last_at(v@, c);
        let k = last_at(v@, c);
        if k >= i {
            assert(v@[k] != c);
        } else if 0 < i && k < i - 1 {
            assert(v@[i - 1] != c);
        }
    }
    if i > 0 {
        Some(i - 1)
    } else {
        None
    }
}

/// The pieces of `s` between occurrences of `sep`.
pub open spec fn split_on(s: Seq<char>, sep: char) -> Seq<Seq<char>>
    decreases s.len(),
{
    if s.len() == 0 {
        seq![Seq::<char>::empty()]
    } else {
        let before = split_on(s.drop_last(), sep);
        if s.last() == sep {
            before.push(Seq::<char>::empty())
        } else {
            before.drop_last().push(before.last().push(s.last()))
        }
    }
}

/// The contents of a list of strings.
pub open spec fn texts(v: Seq<String>) -> Seq<Seq<char>> {
    v.map_values(|s: String| s@)
}

/// What stands before the first `sep`, or all of it.
pub proof fn lemma_first_piece(s: Seq<char>, sep: char)
    ensures
        split_on(s, sep).len() >= 1,
        split_on(s, sep)[0] == s.take(first_at(s, sep)),
    decreases s.len(),
{
    lemma_first_at(s, sep);
    if s.len() == 0 {
        assert(s.take(0) =~= Seq::<char>::empty());
    } else {
        let head = s.drop_last();
        lemma_first_piece(head, sep);
        lemma_first_at(head, sep);
        let before = split_on(head, sep);
        let i = first_at(s, sep);
        let j = first_at(head, sep);
        assert(i <= head.len() ==> i == j) by {
            if j < head.len() {
                assert(head[j] == s[j]);
                if i < j {
                    assert(head[i] == s[i]);
                }
            } else if i < head.len() {
                assert(head[i] == s[i]);
            }
        }
        if s.last() == sep {
            assert(i <= head.len()) by {
                if i > head.len() {
                    assert(s[s.len() - 1] != sep);
                }
            }
            assert(split_on(s, sep)[0] == before[0]);
            assert(head.take(j) =~= s.take(i));
        } else {
            if before.len() > 1 {
                assert(split_on(s, sep)[0] == before[0]);
                lemma_one_piece(head, sep);
                assert(head.take(j) =~= s.take(i));
            } else {
                lemma_one_piece(head, sep);
                assert(j == head.len());
                assert(head.take(j) =~= head);
                assert(i == s.len());
                assert(split_on(s, sep)[0] =~= s.take(i));
            }
        }
    }
}

/// There is one piece exactly where there is no separator.
proof fn lemma_one_piece(s: Seq<char>, sep: char)
    ensures
        split_on(s, sep).len() >= 1,
        split_on(s, sep).len() == 1 <==> first_at(s, sep) == s.len(),
    decreases s.len(),
{
    lemma_first_at(s, sep);
    if s.len() > 0 {
        let head = s.drop_last();
        lemma_one_piece(head, sep);
        lemma_first_at(head, sep);
        let i = first_at(s, sep);
        let j = first_at(head, sep);
        if s.last() == sep {
            if i == s.len() {
                assert(s[s.len() - 1] != sep);
            }
        } else if j == head.len() {
            if i < s.len() {
                assert(i < head.len());
                assert(head[i] == s[i]);
            }
        } else {
            assert(head[j] == s[j]);
            if i == s.len() {
                assert(s[j] != sep);
            }
        }
    }
}

pub proof fn lemma_split_nonempty(s: Seq<char>, sep: char)
    ensures
        split_on(s, sep).len() >= 1,
    decreases s.len(),
{
    if s.len() > 0 {
        lemma_split_nonempty(s.drop_last(), sep);
    }
}

/// The pieces of `v` between occurrences of `sep`.
pub fn split_chars(v: &[char], sep: char) -> (parts: Vec<String>)
    ensures
        texts(parts@) == split_on(v@, sep),
{
    let mut parts: Vec<String> = Vec::new();
    let mut cur = String::new();
    let mut i: usize = 0;
    assert(v@.take(0) =~= Seq::<char>::empty());
    assert(texts(parts@).push(cur@) =~= split_on(v@.take(0), sep));
    while i < v.len()
        invariant
            i <= v@.len(),
            texts(parts@).push(cur@) == split_on(v@.take(i as int), sep),
        decreases v@.len() - i,
    {
        let c = v[i];
        let ghost before = texts(parts@).push(cur@);
        assert(v@.take(i + 1).drop_last() =~= v@.take(i as int));
        assert(v@.take(i + 1).last() == c);
        if c == sep {
            let ghost p0 = parts@;
            let piece = cur.clone();
            parts.push(piece);
            cur = String::new();
            assert(texts(parts@) =~= texts(p0).push(piece@));
            assert(texts(parts@).push(cur@) =~= split_on(v@.take(i + 1), sep));
        } else {
            cur.push(c);
            assert(before.drop_last() =~= texts(parts@));
            assert(texts(parts@).push(cur@) =~= split_on(v@.take(i + 1), sep));
        }
        i += 1;
    }
    assert(v@.take(v@.len() as int) =~= v@);
    let ghost p0 = parts@;
    parts.push(cur);
    assert(texts(parts@) =~= texts(p0).push(cur@));
    parts
}

/// `s` begins with `prefix`.
pub open spec fn has_prefix(s: Seq<char>, prefix: Seq<char>) -> bool {
    prefix.len() <= s.len() && s.take(prefix.len() as int) == prefix
}

/// `needle` stands in `s` at `i`.
pub open spec fn stands_at(s: Seq<char>, needle: Seq<char>, i: int) -> bool {
    0 <= i && i + needle.len() <= s.len() && s.subrange(i, i + needle.len()) == needle
}

/// `needle` stands somewhere in `s`.
pub open spec fn has_text(s: Seq<char>, needle: Seq<char>) -> bool {
    exists|i: int| stands_at(s, needle, i)
}

/// Whether `v[from..]` begins with `needle`.
pub fn begins_at(v: &[char], from: usize, needle: &[char]) -> (b: bool)
    requires
        from <= v@.len(),
    ensures
        b == stands_at(v@, needle@, from as int),
        b == has_prefix(v@.skip(from as int), needle@),
{
    let ghost rest = v@.skip(from as int);
    let total: usize = v.len();
    if total - from < needle.len() {
        return false;
    }
    let mut k: usize = 0;
    while k < needle.len()
        invariant
            k <= needle@.len(),
            from + needle@.len() <= total == v@.len(),
            rest == v@.skip(from as int),
            forall|j: int| 0 <= j < k ==> v@[from + j] == #[trigger] needle@[j],
        decreases needle@.len() - k,
    {
        if v[from + k] != needle[k] {
            assert(v@.subrange(from as int, from + needle@.len())[k as int] != needle@[k as int]);
            assert(rest.take(needle@.len() as int)[k as int] != needle@[k as int]);
            return false;
        }
        k += 1;
    }
    assert(v@.subrange(from as int, from + needle@.len()) =~= needle@);
    assert(rest.take(needle@.len() as int) =~= needle@);
    true
}

/// Whether `s` begins with `prefix`.
pub fn starts_with(s: &str, prefix: &str) -> (b: bool)
    ensures
        b == has_prefix(s@, prefix@),
{
    let v = chars_of(s);
    let p = chars_of(prefix);
    assert(v@.skip(0) =~= v@);
    begins_at(&v, 0, &p)
}

/// Whether `needle` stands somewhere in `s`.
pub fn contains_text(s: &str, needle: &str) -> (b: bool)
    ensures
        b == has_text(s@, needle@),
{
    let v = chars_of(s);
    let n = chars_of(needle);
    let mut i: usize = 0;
    while i < v.len()
        invariant
            v@ == s@,
            n@ == needle@,
            i <= v@.len(),
            forall|j: int| 0 <= j < i ==> !#[trigger] stands_at(s@, needle@, j),
        decreases v@.len() - i,
    {
        if begins_at(&v, i, &n) {
            return true;
        }
        i += 1;
    }
    let last = begins_at(&v, i, &n);
    assert(last ==> stands_at(s@, needle@, i as int));
    assert(!last ==> !has_text(s@, needle@));
    last
}

/// Whether two strings hold the same text.
pub fn same_text(a: &str, b: &str) -> (r: bool)
    ensures
        r == (a@ == b@),
{
    let v = chars_of(a);
    let w = chars_of(b);
    if v.len() != w.len() {
        return false;
    }
    let mut i: usize = 0;
    while i < v.len()
        invariant
            v@ == a@,
            w@ == b@,
            i <= v@.len() == w@.len(),
            forall|j: int| 0 <= j < i ==> v@[j] == #[trigger] w@[j],
        decreases v@.len() - i,
    {
        if v[i] != w[i] {
            return false;
        }
        i += 1;
    }
    assert(v@ =~= w@);
    true
}

/// How often `c` stands in `s`.
pub open spec fn count_of(s: Seq<char>, c: char) -> nat
    decreases s.len(),
{
    if s.len() == 0 {
        0
    } else {
        count_of(s.drop_last(), c) + if s.last() == c {
            1nat
        } else {
            0nat
        }
    }
}

/// How often `c` stands in `v`.
pub fn count_char(v: &[char], c: char) -> (n: usize)
    ensures
        n == count_of(v@, c),
        n <= v@.len(),
{
    let mut n: usize = 0;
    let mut i: usize = 0;
    while i < v.len()
        invariant
            n <= i <= v@.len(),
            n == count_of(v@.take(i as int), c),
        decreases v@.len() - i,
    {
        assert(v@.take(i + 1).drop_last() =~= v@.take(i as int));
        if v[i] == c {
            n += 1;
        }
        i += 1;
    }
    assert(v@.take(i as int) =~= v@);
    n
}

// ---------------------------------------------------------------------------
// Comparing
// ---------------------------------------------------------------------------

/// An ASCII letter in lower case; any other character as it is.
pub open spec fn lower_char(c: char) -> char {
    if 'A' <= c <= 'Z' {
        (c as int + 32) as char
    } else {
        c
    }
}

/// `s` with its ASCII letters in lower case.
pub open spec fn lower(s: Seq<char>) -> Seq<char> {
    s.map_values(|c: char| lower_char(c))
}

/// `c` in lower case, if it is an ASCII letter.
pub fn to_lower(c: char) -> (r: char)
    ensures
        r == lower_char(c),
{
    if 'A' <= c && c <= 'Z' {
        (c as u8 + 32) as char
    } else {
        c
    }
}

/// `s` with its ASCII letters in lower case.
pub fn lower_chars(s: &str) -> (v: Vec<char>)
    ensures
        v@ == lower(s@),
{
    let all = chars_of(s);
    let mut v: Vec<char> = Vec::new();
    let mut i: usize = 0;
    while i < all.len()
        invariant
            all@ == s@,
            i <= all@.len(),
            v@.len() == i,
            forall|j: int| 0 <= j < i ==> #[trigger] v@[j] == lower_char(all@[j]),
        decreases all@.len() - i,
    {
        v.push(to_lower(all[i]));
        i += 1;
    }
    assert(v@ =~= lower(s@));
    v
}

/// Whether two strings agree but for the case of ASCII letters.
pub fn same_ignoring_case(a: &str, b: &str) -> (r: bool)
    ensures
        r == (lower(a@) == lower(b@)),
{
    let v = lower_chars(a);
    let w = lower_chars(b);
    if v.len() != w.len() {
        return false;
    }
    assert(v@.skip(0) =~= v@);
    assert(v@.take(w@.len() as int) =~= v@);
    begins_at(&v, 0, &w)
}

/// `a` comes before `b` in lexicographic order of bytes.
pub open spec fn bytes_before(a: Seq<u8>, b: Seq<u8>) -> bool
    decreases a.len(),
{
    if b.len() == 0 {
        false
    } else if a.len() == 0 {
        true
    } else {
        a[0] < b[0] || (a[0] == b[0] && bytes_before(a.skip(1), b.skip(1)))
    }
}

/// Whether `a` comes before `b`.
pub fn precedes(a: &[u8], b: &[u8]) -> (r: bool)
    ensures
        r == bytes_before(a@, b@),
{
    let mut i: usize = 0;
    assert(a@.skip(0) =~= a@);
    assert(b@.skip(0) =~= b@);
    while i < a.len() && i < b.len() && a[i] == b[i]
        invariant
            i <= a@.len(),
            i <= b@.len(),
            bytes_before(a@, b@) == bytes_before(a@.skip(i as int), b@.skip(i as int)),
        decreases a@.len() - i,
    {
        assert(a@.skip(i as int).skip(1) =~= a@.skip(i + 1));
        assert(b@.skip(i as int).skip(1) =~= b@.skip(i + 1));
        i += 1;
    }
    if i == b.len() {
        false
    } else if i == a.len() {
        true
    } else {
        a[i] < b[i]
    }
}

/// `n` times the character `c`.
pub open spec fn repeated(c: char, n: nat) -> Seq<char> {
    Seq::new(n, |i: int| c)
}

/// Appends `n` times the character `c`.
pub fn push_repeated(out: &mut String, c: char, n: usize)
    ensures
        final(out)@ == old(out)@ + repeated(c, n as nat),
{
    let mut i: usize = 0;
    assert(out@ =~= old(out)@ + repeated(c, 0));
    while i < n
        invariant
            i <= n,
            out@ == old(out)@ + repeated(c, i as nat),
        decreases n - i,
    {
        out.push(c);
        i += 1;
        assert(out@ =~= old(out)@ + repeated(c, i as nat));
    }
}

// ---------------------------------------------------------------------------
// What these helpers promise
// ---------------------------------------------------------------------------

/// A negative number that was written in decimal is read back too, sign and
/// all. A plus sign before a number without a sign changes nothing.
pub proof fn law_signed_numbers_read_back(n: int, min: int, max: nat)
    requires
        min <= n <= max,
    ensures
        parse_signed(decimal_int(n), min, max) == Some(n),
        n >= 0 ==> parse_signed(seq!['+'] + decimal_int(n), min, max) == Some(n),
        n >= 0 ==> parse_unsigned(seq!['+'] + decimal_int(n), 10, max) == Some(n as nat),
{
    if n < 0 {
        law_decimal_reads_back((-n) as nat);
        let t = decimal((-n) as nat);
        assert(decimal_int(n).skip(1) =~= t);
        assert forall|i: int| 0 <= i < t.len() implies digit_value(#[trigger] t[i], 10) is Some by {
            assert('0' <= t[i] <= '9');
        }
    } else {
        law_decimal_reads_back(n as nat);
        let t = decimal(n as nat);
        assert('0' <= t[0] <= '9');
        assert((seq!['+'] + t).skip(1) =~= t);
        assert forall|i: int| 0 <= i < t.len() implies digit_value(#[trigger] t[i], 10) is Some by {
            assert('0' <= t[i] <= '9');
        }
    }
}

/// A number is written without leading zeros: only zero begins with one.
pub proof fn law_no_leading_zeros(n: nat)
    ensures
        n > 0 ==> decimal(n)[0] != '0',
        n == 0 ==> decimal(n) == seq!['0'],
        n < 10 <==> decimal(n).len() == 1,
    decreases n,
{
    law_decimal_reads_back(n);
    if n >= 10 {
        law_no_leading_zeros(n / 10);
        law_decimal_reads_back(n / 10);
        assert(decimal(n)[0] == decimal(n / 10)[0]);
    } else {
        assert(decimal(n) =~= seq![digit_char(n)]);
    }
}

/// Text with a character that is neither a digit nor a leading sign is no
/// number, and neither is text without a digit.
pub proof fn law_only_digits_are_numbers(s: Seq<char>, i: int, min: int, max: nat)
    requires
        s.len() == 0 || 0 <= i < s.len() && !('0' <= s[i] <= '9') && (i > 0 || s.len() == 1 || (s[0] != '+' && s[0] != '-')),
    ensures
        parse_unsigned(s, 10, max) is None,
        parse_signed(s, min, max) is None,
{
    if s.len() > 0 {
        if i > 0 {
            assert(s.skip(1)[i - 1] == s[i]);
        }
        assert(digit_value(s[i], 10) is None);
    }
}

/// One more digit makes ten times the number, or sixteen times, and adds
/// what the digit counts for. The digits count for what their place in
/// `0123456789abcdef` is, in either case.
pub proof fn law_digits_have_places(s: Seq<char>, c: char, v: nat)
    requires
        v < 16,
        (v < 10 && c as int == 0x30 + v) || (v >= 10 && (c as int == 0x61 + v - 10 || c as int == 0x41 + v - 10)),
    ensures
        number_value(s.push(c), 16) == 16 * number_value(s, 16) + v,
        v < 10 ==> number_value(s.push(c), 10) == 10 * number_value(s, 10) + v,
        is_number(s.push(c), 16) == (s.len() == 0 || is_number(s, 16)),
        is_number(s.push(c), 10) == (v < 10 && (s.len() == 0 || is_number(s, 10))),
        number_value(Seq::empty(), 16) == 0 && number_value(Seq::empty(), 10) == 0,
{
    let t = s.push(c);
    assert(t.drop_last() =~= s);
    assert(t.last() == c);
    assert(digit_value(c, 16) == Some(v));
    assert(digit_value(c, 10) == if v < 10 {
        Some(v)
    } else {
        None
    });
    assert forall|radix: nat| radix == 16 || radix == 10 implies #[trigger] is_number(t, radix) == (digit_value(
        c,
        radix,
    ) is Some && (s.len() == 0 || is_number(s, radix))) by {
        assert(forall|i: int| 0 <= i < s.len() ==> #[trigger] t[i] == s[i]);
        if is_number(t, radix) {
            assert(digit_value(t[t.len() - 1], radix) is Some);
            assert forall|i: int| 0 <= i < s.len() implies digit_value(#[trigger] s[i], radix) is Some by {
                assert(digit_value(t[i], radix) is Some);
            }
        }
    }
}

/// There are 25 white characters.
pub proof fn law_white_space(c: char)
    ensures
        is_white(c) <==> seq![
            '\u{9}', '\u{a}', '\u{b}', '\u{c}', '\u{d}', ' ', '\u{85}', '\u{a0}', '\u{1680}', '\u{2000}', '\u{2001}',
            '\u{2002}', '\u{2003}', '\u{2004}', '\u{2005}', '\u{2006}', '\u{2007}', '\u{2008}', '\u{2009}', '\u{200a}',
            '\u{2028}', '\u{2029}', '\u{202f}', '\u{205f}', '\u{3000}',
        ].contains(c),
{
    let all = seq![
        '\u{9}', '\u{a}', '\u{b}', '\u{c}', '\u{d}', ' ', '\u{85}', '\u{a0}', '\u{1680}', '\u{2000}', '\u{2001}',
        '\u{2002}', '\u{2003}', '\u{2004}', '\u{2005}', '\u{2006}', '\u{2007}', '\u{2008}', '\u{2009}', '\u{200a}',
        '\u{2028}', '\u{2029}', '\u{202f}', '\u{205f}', '\u{3000}',
    ];
    if is_white(c) {
        let u = c as u32;
        let i: int = if 0x9 <= u <= 0xd {
            u - 0x9
        } else if u == 0x20 {
            5
        } else if u == 0x85 {
            6
        } else if u == 0xa0 {
            7
        } else if u == 0x1680 {
            8
        } else if 0x2000 <= u <= 0x200a {
            9 + u - 0x2000
        } else if u == 0x2028 {
            20
        } else if u == 0x2029 {
            21
        } else if u == 0x202f {
            22
        } else if u == 0x205f {
            23
        } else {
            24
        };
        assert(all[i] == c);
    }
}

/// Every character of `s` is white.
pub open spec fn all_white(s: Seq<char>) -> bool {
    forall|i: int| 0 <= i < s.len() ==> is_white(#[trigger] s[i])
}

proof fn lemma_trim_end(s: Seq<char>, b: Seq<char>)
    requires
        all_white(b),
        s.len() > 0 ==> !is_white(s.last()),
    ensures
        trim_end(s + b) == s,
    decreases b.len(),
{
    if b.len() == 0 {
        assert(s + b =~= s);
    } else {
        assert((s + b).drop_last() =~= s + b.drop_last());
        assert((s + b).last() == b.last());
        assert(is_white(b[b.len() - 1]));
        assert forall|i: int| 0 <= i < b.drop_last().len() implies is_white(#[trigger] b.drop_last()[i]) by {
            assert(is_white(b[i]));
        }
        lemma_trim_end(s, b.drop_last());
    }
}

/// Trimming takes away white space before and after a text, however much
/// of it there is, and nothing else.
pub proof fn law_trimming(a: Seq<char>, s: Seq<char>, b: Seq<char>)
    requires
        all_white(a),
        all_white(b),
        s.len() > 0 ==> !is_white(s[0]) && !is_white(s.last()),
    ensures
        trim(a + s + b) == s,
{
    let all = a + s + b;
    if s.len() > 0 {
        assert forall|j: int| 0 <= j < a.len() implies is_white(#[trigger] all[j]) by {
            assert(all[j] == a[j]);
        }
        lemma_trim_start(all, a.len() as int);
        assert(all.skip(a.len() as int) =~= s + b);
        assert((s + b)[0] == s[0]);
        lemma_trim_end(s, b);
    } else {
        assert forall|j: int| 0 <= j < all.len() implies is_white(#[trigger] all[j]) by {
            assert(all[j] == if j < a.len() {
                a[j]
            } else {
                b[j - a.len()]
            });
        }
        lemma_trim_start(all, all.len() as int);
        assert(all.skip(all.len() as int) =~= s);
    }
}

/// `parts` with `sep` between one and the next.
pub open spec fn with_between(parts: Seq<Seq<char>>, sep: char) -> Seq<char>
    decreases parts.len(),
{
    if parts.len() == 0 {
        Seq::empty()
    } else if parts.len() == 1 {
        parts[0]
    } else {
        with_between(parts.drop_last(), sep).push(sep) + parts.last()
    }
}

proof fn lemma_split_goes_on(a: Seq<char>, b: Seq<char>, sep: char)
    requires
        !b.contains(sep),
    ensures
        split_on(a + b, sep) == split_on(a, sep).drop_last().push(split_on(a, sep).last() + b),
    decreases b.len(),
{
    lemma_split_nonempty(a, sep);
    let parts = split_on(a, sep);
    if b.len() == 0 {
        assert(a + b =~= a);
        assert(parts.last() + b =~= parts.last());
        assert(parts =~= parts.drop_last().push(parts.last()));
    } else {
        let head = b.drop_last();
        assert(b.last() != sep) by {
            assert(b.contains(b.last()));
        }
        assert forall|j: int| 0 <= j < head.len() implies #[trigger] head[j] != sep by {
            assert(b.contains(b[j]));
        }
        lemma_split_goes_on(a, head, sep);
        assert((a + b).drop_last() =~= a + head);
        assert((a + b).last() == b.last());
        let before = split_on(a + head, sep);
        assert(before.drop_last() =~= parts.drop_last());
        assert((parts.last() + head).push(b.last()) =~= parts.last() + b);
    }
}

/// What was put together with separators comes apart into the same pieces:
/// the first, the last and the empty ones among them.
pub proof fn law_splitting_undoes_joining(parts: Seq<Seq<char>>, sep: char)
    requires
        parts.len() > 0,
        forall|i: int| 0 <= i < parts.len() ==> !(#[trigger] parts[i]).contains(sep),
    ensures
        split_on(with_between(parts, sep), sep) == parts,
    decreases parts.len(),
{
    let last = parts.last();
    assert(!parts[parts.len() - 1].contains(sep));
    let empty = Seq::<char>::empty();
    if parts.len() == 1 {
        lemma_split_goes_on(empty, last, sep);
        assert(empty + last =~= last);
        assert(split_on(empty, sep) =~= seq![empty]);
        assert(split_on(last, sep) =~= parts);
    } else {
        let head = parts.drop_last();
        assert forall|i: int| 0 <= i < head.len() implies !(#[trigger] head[i]).contains(sep) by {
            assert(!parts[i].contains(sep));
        }
        law_splitting_undoes_joining(head, sep);
        let a = with_between(head, sep).push(sep);
        assert(a.drop_last() =~= with_between(head, sep));
        assert(split_on(a, sep) == head.push(empty));
        lemma_split_goes_on(a, last, sep);
        assert(empty + last =~= last);
        assert(head.push(empty).drop_last() =~= head);
        assert(split_on(a + last, sep) =~= parts);
    }
}

/// The pieces of a text hold no separator, and put together again they are
/// the text.
pub proof fn law_joining_undoes_splitting(s: Seq<char>, sep: char)
    ensures
        with_between(split_on(s, sep), sep) == s,
        forall|i: int| 0 <= i < split_on(s, sep).len() ==> !(#[trigger] split_on(s, sep)[i]).contains(sep),
    decreases s.len(),
{
    let parts = split_on(s, sep);
    let empty = Seq::<char>::empty();
    if s.len() == 0 {
        assert(parts[0] =~= s);
    } else {
        let head = s.drop_last();
        law_joining_undoes_splitting(head, sep);
        lemma_split_nonempty(head, sep);
        let before = split_on(head, sep);
        if s.last() == sep {
            assert(parts.drop_last() =~= before);
            assert(parts.last() == empty);
            assert(with_between(parts, sep) =~= s);
        } else {
            assert(parts.drop_last() =~= before.drop_last());
            assert(parts.last() == before.last().push(s.last()));
            assert(!before[before.len() - 1].contains(sep));
            assert(!parts.last().contains(sep)) by {
                if parts.last().contains(sep) {
                    let j = choose|j: int| 0 <= j < parts.last().len() && parts.last()[j] == sep;
                    assert(before.last()[j] == sep);
                }
            }
            if before.len() == 1 {
                assert(with_between(before, sep) == before[0]);
                assert(parts.len() == 1);
                assert(with_between(parts, sep) == parts[0]);
                assert(parts[0] =~= head.push(s.last()));
                assert(head.push(s.last()) =~= s);
            } else {
                let a = with_between(before.drop_last(), sep).push(sep);
                assert(with_between(before, sep) == a + before.last());
                assert(parts.len() == before.len());
                assert(with_between(parts, sep) == a + parts.last());
                assert(a + parts.last() =~= (a + before.last()).push(s.last()));
                assert(head.push(s.last()) =~= s);
            }
        }
        assert forall|i: int| 0 <= i < parts.len() implies !(#[trigger] parts[i]).contains(sep) by {
            if i < parts.len() - 1 {
                assert(parts[i] == before[i]);
                assert(!before[i].contains(sep));
            }
        }
    }
}

/// Occurrences add up, from piece to piece.
pub proof fn law_counting_adds_up(a: Seq<char>, b: Seq<char>, c: char)
    ensures
        count_of(a + b, c) == count_of(a, c) + count_of(b, c),
        count_of(seq![c], c) == 1,
        !a.contains(c) ==> count_of(a, c) == 0,
    decreases b.len() + a.len(),
{
    assert(seq![c].drop_last() =~= Seq::<char>::empty());
    assert(count_of(seq![c].drop_last(), c) == 0);
    if b.len() == 0 {
        assert(a + b =~= a);
        if a.len() > 0 && !a.contains(c) {
            law_counting_adds_up(a.drop_last(), b, c);
            assert(!a.drop_last().contains(c)) by {
                if a.drop_last().contains(c) {
                    let j = choose|j: int| 0 <= j < a.len() - 1 && a.drop_last()[j] == c;
                    assert(a[j] == c);
                }
            }
            assert(a[a.len() - 1] != c);
        }
    } else {
        assert((a + b).drop_last() =~= a + b.drop_last());
        assert((a + b).last() == b.last());
        law_counting_adds_up(a, b.drop_last(), c);
    }
}

/// In lower case the 26 capital letters of ASCII have become the small ones,
/// and everything else stands as it was. So texts that differ only in such
/// letters are alike in lower case.
pub proof fn law_lower_case(s: Seq<char>, i: int)
    requires
        0 <= i < s.len(),
    ensures
        lower(s).len() == s.len(),
        0x41 <= s[i] as int <= 0x5a ==> lower(s)[i] as int == s[i] as int + 0x20,
        !(0x41 <= s[i] as int <= 0x5a) ==> lower(s)[i] == s[i],
        lower(lower(s)) == lower(s),
{
    assert(lower(lower(s)) =~= lower(s));
}

/// Texts are ordered by the first byte in which they differ, and a text
/// comes before everything that it begins.
pub proof fn law_byte_order(p: Seq<u8>, x: u8, a: Seq<u8>, y: u8, b: Seq<u8>)
    ensures
        x != y ==> bytes_before(p.push(x) + a, p.push(y) + b) == (x < y),
        bytes_before(p, p.push(y) + b),
        !bytes_before(p.push(y) + b, p),
        !bytes_before(p, p),
    decreases p.len(),
{
    if p.len() == 0 {
        assert((p.push(x) + a)[0] == x);
        assert((p.push(y) + b)[0] == y);
    } else {
        let q = p.skip(1);
        law_byte_order(q, x, a, y, b);
        assert((p.push(x) + a).skip(1) =~= q.push(x) + a);
        assert((p.push(y) + b).skip(1) =~= q.push(y) + b);
        assert((p.push(x) + a)[0] == p[0]);
        assert((p.push(y) + b)[0] == p[0]);
    }
}

/// A text is found where it was put, whatever stands before and after it.
pub proof fn law_text_is_found(a: Seq<char>, needle: Seq<char>, b: Seq<char>)
    ensures
        has_text(a + needle + b, needle),
        has_prefix(needle + b, needle),
{
    let s = a + needle + b;
    assert(s.subrange(a.len() as int, (a.len() + needle.len()) as int) =~= needle);
    assert(stands_at(s, needle, a.len() as int));
    assert((needle + b).take(needle.len() as int) =~= needle);
}

/// And what is found stands there: the text is something, the needle, and
/// something.
pub proof fn law_found_text_stands(s: Seq<char>, needle: Seq<char>)
    ensures
        has_text(s, needle) ==> exists|a: Seq<char>, b: Seq<char>| s == #[trigger] (a + needle + b),
        has_prefix(s, needle) ==> s == needle + s.skip(needle.len() as int),
{
    if has_text(s, needle) {
        let i = choose|i: int| stands_at(s, needle, i);
        let a = s.take(i);
        let b = s.skip(i + needle.len());
        assert forall|k: int| 0 <= k < needle.len() implies s[i + k] == #[trigger] needle[k] by {
            assert(s.subrange(i, i + needle.len())[k] == needle[k]);
        }
        assert(s =~= a + needle + b);
    }
    if has_prefix(s, needle) {
        assert forall|k: int| 0 <= k < needle.len() implies s[k] == #[trigger] needle[k] by {
            assert(s.take(needle.len() as int)[k] == needle[k]);
        }
        assert(s =~= needle + s.skip(needle.len() as int));
    }
}

/// A run of one character is as long as it should be.
pub proof fn law_runs(c: char, n: nat)
    ensures
        repeated(c, n).len() == n,
        count_of(repeated(c, n), c) == n,
    decreases n,
{
    if n > 0 {
        law_runs(c, (n - 1) as nat);
        assert(repeated(c, n).drop_last() =~= repeated(c, (n - 1) as nat));
    }
}

proof fn lemma_trim_start_stops(a: Seq<char>, s: Seq<char>)
    requires
        s.len() > 0 && !is_white(s[0]),
    ensures
        trim_start(a + s) == trim_start(a) + s,
    decreases a.len(),
{
    if a.len() == 0 {
        assert(a + s =~= s);
        assert(trim_start(a) + s =~= s);
    } else {
        assert((a + s)[0] == a[0]);
        assert((a + s).skip(1) =~= a.skip(1) + s);
        lemma_trim_start_stops(a.skip(1), s);
    }
}

proof fn lemma_trim_end_stops(s: Seq<char>, b: Seq<char>)
    requires
        s.len() > 0 && !is_white(s.last()),
    ensures
        trim_end(s + b) == s + trim_end(b),
    decreases b.len(),
{
    if b.len() == 0 {
        assert(s + b =~= s);
        assert(s + trim_end(b) =~= s);
    } else {
        assert((s + b).last() == b.last());
        assert((s + b).drop_last() =~= s + b.drop_last());
        lemma_trim_end_stops(s, b.drop_last());
    }
}

/// Trimming leaves a text whole that neither begins nor ends with white
/// space, whatever stands around it, and trims what stands around it on the
/// far sides.
pub proof fn law_trimming_keeps_the_middle(a: Seq<char>, s: Seq<char>, b: Seq<char>)
    requires
        s.len() > 0,
        !is_white(s[0]) && !is_white(s.last()),
    ensures
        trim(a + s + b) == trim_start(a) + s + trim_end(b),
        all_white(a) ==> trim_start(a) == Seq::<char>::empty(),
        all_white(b) ==> trim_end(b) == Seq::<char>::empty(),
{
    assert(a + s + b =~= a + (s + b));
    assert((s + b)[0] == s[0]);
    lemma_trim_start_stops(a, s + b);
    let t = trim_start(a) + s;
    assert(trim_start(a) + (s + b) =~= t + b);
    assert(t.last() == s.last());
    lemma_trim_end_stops(t, b);
    let empty = Seq::<char>::empty();
    if all_white(a) {
        lemma_trim_start(a, a.len() as int);
        assert(a.skip(a.len() as int) =~= empty);
    }
    if all_white(b) {
        lemma_trim_end(empty, b);
        assert(empty + b =~= b);
    }
}

/// What stands in a text stands in every text that the text is part of.
pub proof fn law_found_in_larger_text(a: Seq<char>, s: Seq<char>, b: Seq<char>, needle: Seq<char>)
    requires
        has_text(s, needle),
    ensures
        has_text(a + s + b, needle),
{
    let i = choose|i: int| stands_at(s, needle, i);
    let at = a.len() + i;
    let all = a + s + b;
    assert(all.subrange(at, at + needle.len()) =~= s.subrange(i, i + needle.len()));
    assert(stands_at(all, needle, at));
}

} // verus!
