//! The X-Hashcash proof of work.

use vstd::arithmetic::power2::{lemma2_to64, pow2};
use vstd::prelude::*;
use vstd::string::*;

use sha2::{Digest, Sha256};

use crate::base64::{b64_decoded, b64_text, b64decode, b64encode, law_decode_undoes_encode};
use crate::cipher::be_value;
use crate::text::{
    chars_of, decimal, law_decimal_reads_back, law_signed_numbers_read_back,
    law_splitting_undoes_joining, parse_signed, read_signed, same_text, split_chars, split_on,
    with_between,
};

verus! {

/// How many copies of the token are hashed.
pub const TOKEN_COPIES: usize = 262_144;

/// The length of a token.
pub const TOKEN_LEN: usize = 48;

/// What SHA-256 makes of some bytes.
pub uninterp spec fn sha256(data: Seq<u8>) -> Seq<u8>;

/// Wraps `Sha256::digest` of `sha2`: a name stands for the 32 bytes.
#[verifier::external_body]
pub(crate) fn digest(data: &[u8]) -> (sum: [u8; 32])
    ensures
        sum@ == sha256(data@),
{
    Sha256::digest(data).into()
}

/// How a text is shown in quotes, with what cannot be printed escaped.
pub uninterp spec fn quoted(text: Seq<char>) -> Seq<char>;

/// Wraps the standard library's debug formatting of a text: a name stands
/// for the outcome.
#[verifier::external_body]
pub(crate) fn quote(text: &str) -> (r: String)
    ensures
        r@ == quoted(text@),
{
    format!("{text:?}")
}

/// A challenge: how easy it is, and its token, in base64 and decoded.
pub struct Challenge {
    pub easiness: u8,
    pub token_text: String,
    pub token: Vec<u8>,
}

/// What a challenge says.
pub struct ChallengeModel {
    pub easiness: u8,
    pub token_text: Seq<char>,
    pub token: Seq<u8>,
}

impl View for Challenge {
    type V = ChallengeModel;

    open spec fn view(&self) -> ChallengeModel {
        ChallengeModel { easiness: self.easiness, token_text: self.token_text@, token: self.token@ }
    }
}

/// Reads `1:<easiness>:<junk>:<token>`.
pub open spec fn challenge_of(text: Seq<char>) -> Result<ChallengeModel, Seq<char>> {
    let parts = split_on(text, ':');
    if parts.len() != 4 || parts[0] != "1"@ {
        Err("unsupported challenge "@ + quoted(text))
    } else {
        match parse_signed(parts[1], i32::MIN as int, i32::MAX as nat) {
            None => Err("bad easiness"@),
            Some(e) => if !(0 <= e <= 255) {
                Err("bad easiness"@)
            } else {
                match b64_decoded(parts[3]) {
                    Err(x) => Err(x),
                    Ok(token) => if token.len() != TOKEN_LEN {
                        Err("bad token"@)
                    } else {
                        Ok(ChallengeModel { easiness: e as u8, token_text: parts[3], token })
                    },
                }
            },
        }
    }
}

/// The largest head that solves a challenge: the low six bits of the
/// easiness and a one, shifted by what the high two bits say.
pub open spec fn threshold_of(easiness: u8) -> nat {
    (2 * (easiness as nat % 64) + 1) * pow2(7 * (easiness as nat / 64) + 3)
}

/// A number as four bytes, the lowest first.
pub open spec fn little_endian(n: u32) -> Seq<u8> {
    seq![
        (n % 256) as u8,
        (n / 256 % 256) as u8,
        (n / 65536 % 256) as u8,
        (n / 16777216) as u8,
    ]
}

/// The number that the first four bytes spell, the highest first.
pub open spec fn head_of(sum: Seq<u8>) -> nat {
    (sum[0] * 16777216 + sum[1] * 65536 + sum[2] * 256 + sum[3]) as nat
}

/// Copies of `token`, one after the other.
pub open spec fn copies(token: Seq<u8>, n: nat) -> Seq<u8> {
    Seq::new(n * token.len(), |i: int| token[i % token.len() as int])
}

/// `n` solves a challenge: the hash of its bytes and the copies of the token
/// begins with a number that is small enough.
pub open spec fn solves(n: u32, c: ChallengeModel) -> bool {
    head_of(sha256(little_endian(n) + copies(c.token, TOKEN_COPIES as nat))) <= threshold_of(c.easiness)
}

/// `n` is the smallest number, from 1 on, that solves a challenge.
pub open spec fn smallest_solution(n: u32, c: ChallengeModel) -> bool {
    n >= 1 && solves(n, c) && forall|m: u32| 1 <= m < n ==> !#[trigger] solves(m, c)
}

/// The answer to a challenge that `n` solves: `1:<token>:<base64 of n>`.
pub open spec fn answer_text(c: ChallengeModel, n: u32) -> Seq<char> {
    "1:"@ + c.token_text + seq![':'] + b64_text(little_endian(n))
}

/// `answer` is what solving the challenge `text` gives.
pub open spec fn solution(text: Seq<char>, answer: Result<Seq<char>, Seq<char>>) -> bool {
    match challenge_of(text) {
        Err(e) => answer == Err::<Seq<char>, Seq<char>>(e),
        Ok(c) => match answer {
            Ok(t) => is_answer(c, t),
            Err(e) => e == "hashcash search exhausted"@ && forall|m: u32| 1 <= m ==> !#[trigger] solves(m, c),
        },
    }
}

/// `t` answers the challenge `c`, with the smallest number that does.
pub open spec fn is_answer(c: ChallengeModel, t: Seq<char>) -> bool {
    exists|n: u32| #[trigger] smallest_solution(n, c) && t == answer_text(c, n)
}

/// Takes a challenge apart.
pub fn read_challenge(text: &str) -> (r: Result<Challenge, String>)
    ensures
        match r {
            Ok(c) => challenge_of(text@) == Ok::<ChallengeModel, Seq<char>>(c@),
            Err(e) => challenge_of(text@) == Err::<ChallengeModel, Seq<char>>(e@),
        },
{
    let chars = chars_of(text);
    let parts = split_chars(&chars, ':');
    let ghost all = split_on(text@, ':');
    assert(forall|i: int| 0 <= i < parts@.len() ==> parts@[i]@ == #[trigger] all[i]);
    if parts.len() != 4 || !same_text(parts[0].as_str(), "1") {
        let mut message = String::new();
        message.append("unsupported challenge ");
        message.append(quote(text).as_str());
        assert(message@ =~= "unsupported challenge "@ + quoted(text@));
        return Err(message);
    }
    let easiness: i64 = match read_signed(&chars_of(parts[1].as_str()), i32::MIN as i64, i32::MAX as i64) {
        Some(e) => e,
        None => return Err("bad easiness".to_owned()),
    };
    if easiness < 0 || easiness > 255 {
        return Err("bad easiness".to_owned());
    }
    let token = match b64decode(parts[3].as_str()) {
        Ok(t) => t,
        Err(e) => return Err(e),
    };
    if token.len() != TOKEN_LEN {
        return Err("bad token".to_owned());
    }
    let token_text = parts[3].clone();
    Ok(Challenge { easiness: easiness as u8, token_text, token })
}

/// The largest head that solves a challenge.
pub fn threshold(easiness: u8) -> (t: u32)
    ensures
        t == threshold_of(easiness),
{
    proof {
        lemma2_to64();
    }
    let low: u32 = 2 * (easiness as u32 % 64) + 1;
    let high: u8 = easiness / 64;
    if high == 0 {
        low * 8
    } else if high == 1 {
        low * 1024
    } else if high == 2 {
        low * 131072
    } else {
        low * 16777216
    }
}

/// Whether a hash begins with a number of at most `limit`.
pub fn is_small(sum: &[u8; 32], limit: u32) -> (b: bool)
    ensures
        b == (head_of(sum@) <= limit),
{
    let head: u32 = sum[0] as u32 * 16777216 + sum[1] as u32 * 65536 + sum[2] as u32 * 256 + sum[3] as u32;
    head <= limit
}

fn four_bytes(n: u32) -> (b: [u8; 4])
    ensures
        b@ == little_endian(n),
{
    let b = [
        (n % 256) as u8,
        (n / 256 % 256) as u8,
        (n / 65536 % 256) as u8,
        (n / 16777216) as u8,
    ];
    assert(b@ =~= little_endian(n));
    b
}

/// The answer to a challenge that `n` solves.
pub fn answer(c: &Challenge, n: u32) -> (text: String)
    ensures
        text@ == answer_text(c@, n),
{
    let bytes = four_bytes(n);
    let mut text = String::new();
    text.append("1:");
    text.append(c.token_text.as_str());
    text.push(':');
    text.append(b64encode(&bytes).as_str());
    assert(text@ =~= answer_text(c@, n));
    text
}

/// What is hashed, with zeros where the number goes.
fn puzzle(token: &Vec<u8>) -> (buf: Vec<u8>)
    requires
        token@.len() == TOKEN_LEN,
    ensures
        buf@ == seq![0u8, 0u8, 0u8, 0u8] + copies(token@, TOKEN_COPIES as nat),
{
    let mut buf: Vec<u8> = Vec::new();
    buf.push(0);
    buf.push(0);
    buf.push(0);
    buf.push(0);
    let mut i: usize = 0;
    let all: usize = TOKEN_COPIES * TOKEN_LEN;
    let ghost whole = copies(token@, TOKEN_COPIES as nat);
    assert(buf@ =~= seq![0u8, 0u8, 0u8, 0u8] + whole.take(0));
    while i < all
        invariant
            i <= all == TOKEN_COPIES * TOKEN_LEN,
            token@.len() == TOKEN_LEN,
            whole == copies(token@, TOKEN_COPIES as nat),
            whole.len() == all,
            buf@ == seq![0u8, 0u8, 0u8, 0u8] + whole.take(i as int),
        decreases all - i,
    {
        buf.push(token[i % TOKEN_LEN]);
        i += 1;
        assert(buf@ =~= seq![0u8, 0u8, 0u8, 0u8] + whole.take(i as int));
    }
    assert(whole.take(all as int) =~= whole);
    buf
}

/// Solves a challenge: finds four bytes such that the hash of them and the
/// copies of the token begins with a small enough number.
pub fn solve_hashcash(challenge: &str) -> (r: Result<String, String>)
    ensures
        solution(
            challenge@,
            match r {
                Ok(t) => Ok(t@),
                Err(e) => Err(e@),
            },
        ),
{
    let c = match read_challenge(challenge) {
        Ok(c) => c,
        Err(e) => return Err(e),
    };
    let limit: u32 = threshold(c.easiness);
    let mut buf = puzzle(&c.token);
    let ghost rest = copies(c.token@, TOKEN_COPIES as nat);
    let mut n: u32 = 1;
    loop
        invariant
            n >= 1,
            challenge_of(challenge@) == Ok::<ChallengeModel, Seq<char>>(c@),
            limit == threshold_of(c.easiness),
            rest == copies(c.token@, TOKEN_COPIES as nat),
            buf@.len() == 4 + rest.len(),
            buf@.skip(4) == rest,
            forall|m: u32| 1 <= m < n ==> !#[trigger] solves(m, c@),
        decreases u32::MAX - n,
    {
        let b = four_bytes(n);
        buf.set(0, b[0]);
        buf.set(1, b[1]);
        buf.set(2, b[2]);
        buf.set(3, b[3]);
        assert(buf@.skip(4) =~= rest);
        assert(buf@ =~= little_endian(n) + rest);
        let sum = digest(&buf);
        if is_small(&sum, limit) {
            assert(smallest_solution(n, c@));
            let text = answer(&c, n);
            assert(is_answer(c@, text@));
            return Ok(text);
        }
        assert(!solves(n, c@));
        if n == u32::MAX {
            return Err("hashcash search exhausted".to_owned());
        }
        n += 1;
    }
}

/// The threshold always fits in four bytes, and grows with the easiness
/// within each quarter.
pub proof fn law_threshold_fits(easiness: u8)
    ensures
        8 <= threshold_of(easiness) <= 0x7f00_0000,
        easiness % 64 < 63 ==> threshold_of(easiness) < threshold_of((easiness + 1) as u8),
{
    lemma_thresholds(easiness);
    if easiness % 64 < 63 {
        lemma_thresholds((easiness + 1) as u8);
    }
}

proof fn lemma_thresholds(easiness: u8)
    ensures
        threshold_of(easiness) == (2 * (easiness as nat % 64) + 1) * if easiness < 64 {
            8nat
        } else if easiness < 128 {
            1024
        } else if easiness < 192 {
            131072
        } else {
            16777216
        },
{
    lemma2_to64();
    let e = easiness as nat;
    assert(e / 64 == 0 || e / 64 == 1 || e / 64 == 2 || e / 64 == 3);
}

/// A challenge that is put together from its parts is read back: the version,
/// the easiness, anything, and the token in base64.
#[verifier::rlimit(60)]
pub proof fn law_challenge_parts(easiness: u8, junk: Seq<char>, token: Seq<u8>)
    requires
        !junk.contains(':'),
        token.len() == 48,
    ensures
        challenge_of(
            "1:"@ + decimal(easiness as nat) + seq![':'] + junk + seq![':'] + b64_text(token),
        ) == Ok::<ChallengeModel, Seq<char>>(ChallengeModel { easiness, token_text: b64_text(token), token }),
{
    let digits = decimal(easiness as nat);
    let last = b64_text(token);
    let text = "1:"@ + digits + seq![':'] + junk + seq![':'] + last;
    reveal_strlit("1:");
    reveal_strlit("1");
    law_decimal_reads_back(easiness as nat);
    law_signed_numbers_read_back(easiness as int, i32::MIN as int, i32::MAX as nat);
    law_decode_undoes_encode(token, 0);
    assert(last + Seq::new(0, |i: int| '=') =~= last);
    lemma_no_colon(token);
    let parts = seq!["1"@, digits, junk, last];
    assert(!digits.contains(':')) by {
        if digits.contains(':') {
            let j = choose|j: int| 0 <= j < digits.len() && digits[j] == ':';
            assert('0' <= digits[j] <= '9');
        }
    }
    assert forall|i: int| 0 <= i < parts.len() implies !(#[trigger] parts[i]).contains(':') by {
        assert(!"1"@.contains(':'));
    }
    lemma_four_parts("1"@, digits, junk, last);
    assert("1"@.push(':') =~= "1:"@);
    assert(with_between(parts, ':') =~= text);
    law_splitting_undoes_joining(parts, ':');
}

proof fn lemma_four_parts(a: Seq<char>, b: Seq<char>, c: Seq<char>, d: Seq<char>)
    ensures
        with_between(seq![a, b, c, d], ':') == ((a.push(':') + b).push(':') + c).push(':') + d,
        with_between(seq![a, b, c], ':') == (a.push(':') + b).push(':') + c,
{
    assert(seq![a, b, c, d].drop_last() =~= seq![a, b, c]);
    assert(seq![a, b, c].drop_last() =~= seq![a, b]);
    assert(seq![a, b].drop_last() =~= seq![a]);
    assert(with_between(seq![a], ':') == a);
    assert(with_between(seq![a, b], ':') == a.push(':') + b);
    assert(with_between(seq![a, b, c], ':') == (a.push(':') + b).push(':') + c);
}

/// Base64 holds no colon.
proof fn lemma_no_colon(data: Seq<u8>)
    ensures
        !b64_text(data).contains(':'),
    decreases data.len(),
{
    let t = b64_text(data);
    if data.len() >= 3 {
        lemma_no_colon(data.skip(3));
        let rest = b64_text(data.skip(3));
        if t.contains(':') {
            let j = choose|j: int| 0 <= j < t.len() && t[j] == ':';
            if j >= 4 {
                assert(rest[j - 4] == ':');
                assert(rest.contains(':'));
            }
        }
    }
}

/// A challenge has exactly four parts, and the first of them is a 1.
pub proof fn law_other_challenges_are_refused(text: Seq<char>)
    ensures
        split_on(text, ':').len() != 4 ==> challenge_of(text) is Err,
        split_on(text, ':')[0] != seq!['1'] ==> challenge_of(text) is Err,
        challenge_of(text) matches Ok(c) ==> c.token.len() == 48 && c.token_text == split_on(text, ':')[3],
{
    reveal_strlit("1");
    assert("1"@ =~= seq!['1']);
}

/// The low six bits of the easiness, doubled, and one, times 8 or 1024 or
/// 128 KiB or 16 MiB, as the high two bits say.
pub proof fn law_thresholds(quarter: nat, r: nat, easiness: u8)
    requires
        easiness == 64 * quarter + r,
        r < 64,
    ensures
        quarter == 0 ==> threshold_of(easiness) == (2 * r + 1) * 8,
        quarter == 1 ==> threshold_of(easiness) == (2 * r + 1) * 1024,
        quarter == 2 ==> threshold_of(easiness) == (2 * r + 1) * 131072,
        quarter == 3 ==> threshold_of(easiness) == (2 * r + 1) * 16777216,
{
    lemma_thresholds(easiness);
    assert(easiness as nat % 64 == r);
}

/// The four bytes spell the number, the lowest first.
#[verifier::rlimit(60)]
pub proof fn law_little_endian(n: u32)
    ensures
        little_endian(n).len() == 4,
        little_endian(n)[0] + 256 * little_endian(n)[1] + 65536 * little_endian(n)[2] + 16777216 * little_endian(n)[3] == n,
{
}

/// `n` solves a challenge where hashing its four bytes and 262144 copies of
/// the token gives a number in the first four bytes that is not above the
/// threshold.
pub proof fn law_what_solves(n: u32, c: ChallengeModel, front: Seq<u8>, rest: Seq<u8>)
    requires
        c.token.len() == 48,
        front.len() == 4,
        front[0] + 256 * front[1] + 65536 * front[2] + 16777216 * front[3] == n,
        rest.len() == 262144 * 48,
        forall|i: int| 0 <= i < rest.len() ==> #[trigger] rest[i] == c.token[i % 48],
    ensures
        sha256(front + rest).len() == 32 ==> (solves(n, c) <==> be_value(sha256(front + rest).take(4)) <= threshold_of(
            c.easiness,
        )),
{
    lemma_bytes_of(n, front[0], front[1], front[2], front[3]);
    assert(front =~= little_endian(n));
    assert(rest =~= copies(c.token, 262144));
    if sha256(front + rest).len() == 32 {
        lemma_head_value(sha256(front + rest));
    }
}

proof fn lemma_bytes_of(n: u32, a: u8, b: u8, c: u8, d: u8)
    requires
        a + 256 * b + 65536 * c + 16777216 * d == n,
    ensures
        a == (n % 256) as u8,
        b == (n / 256 % 256) as u8,
        c == (n / 65536 % 256) as u8,
        d == (n / 16777216) as u8,
{
    assert(n / 256 == b + 256 * c + 65536 * d);
    assert(n / 65536 == c + 256 * d);
    assert(n / 16777216 == d);
}

proof fn lemma_head_value(sum: Seq<u8>)
    requires
        sum.len() == 32,
    ensures
        be_value(sum.take(4)) == head_of(sum),
{
    let s = sum.take(4);
    reveal_with_fuel(be_value, 5);
    assert(s.drop_last() =~= s.take(3));
    assert(s.take(3).drop_last() =~= s.take(2));
    assert(s.take(2).drop_last() =~= s.take(1));
    assert(s.take(1).drop_last() =~= s.take(0));
}

/// An answer has three parts: a 1, the token as it was written, and four
/// bytes in base64, which spell the smallest number that solves the
/// challenge.
pub proof fn law_answer_parts(c: ChallengeModel, n: u32)
    requires
        !c.token_text.contains(':'),
    ensures
        ({
            let parts = split_on(answer_text(c, n), ':');
            &&& parts.len() == 3
            &&& parts[0] == seq!['1']
            &&& parts[1] == c.token_text
            &&& b64_decoded(parts[2]) matches Ok(b) && b.len() == 4 && b[0] + 256 * b[1] + 65536 * b[2] + 16777216 * b[3]
                == n
        }),
{
    let bytes = little_endian(n);
    let last = b64_text(bytes);
    reveal_strlit("1:");
    lemma_no_colon(bytes);
    law_decode_undoes_encode(bytes, 0);
    assert(last + Seq::new(0, |i: int| '=') =~= last);
    law_little_endian(n);
    let one = seq!['1'];
    let parts = seq![one, c.token_text, last];
    lemma_four_parts(one, c.token_text, last, Seq::empty());
    assert(answer_text(c, n) =~= with_between(parts, ':'));
    assert forall|i: int| 0 <= i < parts.len() implies !(#[trigger] parts[i]).contains(':') by {
        assert(!one.contains(':'));
    }
    law_splitting_undoes_joining(parts, ':');
}

/// There is one answer to a challenge, and it is that of the smallest number
/// that solves it. There is none only where no number does.
pub proof fn law_one_answer(text: Seq<char>, c: ChallengeModel, n: u32, t: Seq<char>, message: Seq<char>)
    requires
        challenge_of(text) == Ok::<ChallengeModel, Seq<char>>(c),
        n >= 1,
    ensures
        solves(n, c) && (forall|m: u32| 1 <= m < n ==> !#[trigger] solves(m, c)) ==> (solution(text, Ok(t)) <==> t
            == answer_text(c, n)) && !solution(text, Err(message)),
{
    if solves(n, c) && (forall|m: u32| 1 <= m < n ==> !#[trigger] solves(m, c)) {
        assert(smallest_solution(n, c));
        if solution(text, Ok(t)) {
            let k = choose|k: u32| #[trigger] smallest_solution(k, c) && t == answer_text(c, k);
            assert(solves(k, c));
        }
        if solution(text, Err(message)) {
            assert(!solves(n, c));
        }
    }
}

} // verus!
