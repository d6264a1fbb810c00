//! Parsing of mega.nz links, over the handful of URL shapes that are issued.

use vstd::prelude::*;
use vstd::string::*;
use vstd::utf8::*;

use crate::text::{
    all_white, begins_at, chars_of, has_prefix, is_white, law_trimming, lower, lower_char,
    string_of, string_range, to_lower, trim, trimmed, utf8_text,
};

verus! {

/// What a link leads to.
#[derive(Debug, Clone, Copy, PartialEq, Eq, Structural)]
pub enum Kind {
    File,
    Folder,
}

/// A parsed link.
#[derive(Debug, Clone)]
pub struct Link {
    pub kind: Kind,
    pub handle: String,
    pub key: String,
    /// Folder deep links: handle of the node to rebase to.
    pub specific: Option<String>,
}

/// What a link says.
pub struct LinkModel {
    pub kind: Kind,
    pub handle: Seq<char>,
    pub key: Seq<char>,
    pub specific: Option<Seq<char>>,
}

impl View for Link {
    type V = LinkModel;

    open spec fn view(&self) -> LinkModel {
        LinkModel {
            kind: self.kind,
            handle: self.handle@,
            key: self.key@,
            specific: match self.specific {
                Some(s) => Some(s@),
                None => None,
            },
        }
    }
}

// ---------------------------------------------------------------------------
// Percent decoding
// ---------------------------------------------------------------------------

/// The value of a hexadecimal digit.
pub open spec fn hex_value(b: u8) -> Option<u8> {
    if 48 <= b <= 57 {
        Some((b - 48) as u8)
    } else if 97 <= b <= 102 {
        Some((b - 97 + 10) as u8)
    } else if 65 <= b <= 70 {
        Some((b - 65 + 10) as u8)
    } else {
        None
    }
}

/// `s` begins with a percent sign and two hexadecimal digits.
pub open spec fn begins_escape(s: Seq<u8>) -> bool {
    s.len() >= 3 && s[0] == 37 && hex_value(s[1]) is Some && hex_value(s[2]) is Some
}

/// `s` with every percent escape turned into the byte it stands for.
pub open spec fn unescaped(s: Seq<u8>) -> Seq<u8>
    decreases s.len(),
{
    if s.len() == 0 {
        Seq::empty()
    } else if begins_escape(s) {
        seq![(hex_value(s[1]).unwrap() * 16 + hex_value(s[2]).unwrap()) as u8] + unescaped(s.skip(3))
    } else {
        seq![s[0]] + unescaped(s.skip(1))
    }
}

/// `s` with its percent escapes decoded, or as it is where the outcome would
/// be no text.
pub open spec fn percent_decoded(s: Seq<char>) -> Seq<char> {
    let b = unescaped(encode_utf8(s));
    if valid_utf8(b) {
        decode_utf8(b)
    } else {
        s
    }
}

fn hex_val(b: u8) -> (v: Option<u8>)
    ensures
        v == hex_value(b),
        v matches Some(n) ==> n < 16,
{
    if 48 <= b && b <= 57 {
        Some(b - 48)
    } else if 97 <= b && b <= 102 {
        Some(b - 97 + 10)
    } else if 65 <= b && b <= 70 {
        Some(b - 65 + 10)
    } else {
        None
    }
}

fn percent_decode(s: String) -> (r: String)
    ensures
        r@ == percent_decoded(s@),
{
    let bytes = s.as_str().as_bytes();
    let len: usize = bytes.len();
    let mut out: Vec<u8> = Vec::new();
    let mut i: usize = 0;
    assert(bytes@.skip(0) =~= bytes@);
    while i < len
        invariant
            i <= len == bytes@.len(),
            unescaped(bytes@) == out@ + unescaped(bytes@.skip(i as int)),
        decreases len - i,
    {
        let ghost done = out@;
        let ghost rest = bytes@.skip(i as int);
        assert(rest.skip(1) =~= bytes@.skip(i + 1));
        let mut step: usize = 1;
        let mut byte: u8 = bytes[i];
        if bytes[i] == 37 && len - i >= 3 {
            assert(rest.skip(3) =~= bytes@.skip(i + 3));
            match (hex_val(bytes[i + 1]), hex_val(bytes[i + 2])) {
                (Some(hi), Some(lo)) => {
                    byte = hi * 16 + lo;
                    step = 3;
                },
                _ => {},
            }
        }
        out.push(byte);
        assert(unescaped(rest) == seq![byte] + unescaped(bytes@.skip(i + step)));
        i += step;
        assert(done + unescaped(rest) =~= out@ + unescaped(bytes@.skip(i as int)));
    }
    assert(out@ =~= unescaped(bytes@));
    match utf8_text(out) {
        Some(t) => t,
        None => s,
    }
}

// ---------------------------------------------------------------------------
// The grammar
// ---------------------------------------------------------------------------

/// A character of url-safe base64.
pub open spec fn is_b64(c: char) -> bool {
    'A' <= c <= 'Z' || 'a' <= c <= 'z' || '0' <= c <= '9' || c == '-' || c == '_'
}

/// Every character is one of url-safe base64.
pub open spec fn all_b64(s: Seq<char>) -> bool {
    forall|i: int| 0 <= i < s.len() ==> is_b64(#[trigger] s[i])
}

/// Every character is one of url-safe base64, or an equals sign.
pub open spec fn all_key(s: Seq<char>) -> bool {
    forall|i: int| 0 <= i < s.len() ==> is_b64(#[trigger] s[i]) || s[i] == '='
}

/// What follows `prefix` in `s`, if `s` begins with it in any case.
pub open spec fn after_prefix(s: Seq<char>, prefix: Seq<char>) -> Option<Seq<char>> {
    if s.len() >= prefix.len() && lower(s.take(prefix.len() as int)) == lower(prefix) {
        Some(s.skip(prefix.len() as int))
    } else {
        None
    }
}

/// What follows `https://mega.co.nz/` or `https://mega.nz/`, in any case.
pub open spec fn after_host(t: Seq<char>) -> Option<Seq<char>> {
    match after_prefix(t, "https://"@) {
        None => None,
        Some(r) => match after_prefix(r, "mega.co.nz/"@) {
            Some(b) => Some(b),
            None => after_prefix(r, "mega.nz/"@),
        },
    }
}

/// `<handle><sep><key>` of a file: a handle of eight characters and a key of
/// 43 to 45.
pub open spec fn file_tail(b: Seq<char>, sep: char) -> Option<LinkModel> {
    if 9 + 43 <= b.len() <= 9 + 45 && all_b64(b.take(8)) && b[8] == sep && all_key(b.skip(9)) {
        Some(LinkModel { kind: Kind::File, handle: b.take(8), key: b.skip(9), specific: None })
    } else {
        None
    }
}

/// `<handle><sep><key>` of a folder, a handle of eight characters and a key
/// of 22, with what follows: nothing, or one of two ways to name a node by
/// its handle.
pub open spec fn folder_tail(b: Seq<char>, sep: char, hash_bang: bool) -> Option<LinkModel> {
    if b.len() >= 31 && all_b64(b.take(8)) && b[8] == sep && all_b64(b.subrange(9, 31)) {
        let rest = b.skip(31);
        let link = LinkModel { kind: Kind::Folder, handle: b.take(8), key: b.subrange(9, 31), specific: None };
        if rest.len() == 0 {
            Some(link)
        } else if hash_bang && (rest[0] == '!' || rest[0] == '?') {
            deep_link(link, rest.skip(1))
        } else if !hash_bang && has_prefix(rest, "/file/"@) {
            deep_link(link, rest.skip(6))
        } else if !hash_bang && has_prefix(rest, "/folder/"@) {
            deep_link(link, rest.skip(8))
        } else {
            None
        }
    } else {
        None
    }
}

/// A folder link that leads to the node with handle `h`.
pub open spec fn deep_link(link: LinkModel, h: Seq<char>) -> Option<LinkModel> {
    if h.len() == 8 && all_b64(h) {
        Some(LinkModel { specific: Some(h), ..link })
    } else {
        None
    }
}

/// The link that a text is, if it is one.
pub open spec fn link_of(t: Seq<char>) -> Option<LinkModel> {
    match after_host(t) {
        None => None,
        Some(r) => match after_prefix(r, "#!"@) {
            Some(b) => file_tail(b, '!'),
            None => match after_prefix(r, "file/"@) {
                Some(b) => file_tail(b, '#'),
                None => match after_prefix(r, "#F!"@) {
                    Some(b) => folder_tail(b, '!', true),
                    None => match after_prefix(r, "folder/"@) {
                        Some(b) => folder_tail(b, '#', false),
                        None => None,
                    },
                },
            },
        },
    }
}

/// The text that is parsed: trimmed, its percent escapes decoded.
pub open spec fn link_text(raw: Seq<char>) -> Seq<char> {
    percent_decoded(trim(raw))
}

/// No character of `t` reaches across its byte `n`.
pub open spec fn can_cut(t: Seq<char>, n: int) -> bool {
    encode_utf8(t).len() < n || is_char_boundary(encode_utf8(t), n)
}

/// No character reaches across the end of a scheme, host or marker: the
/// places at which a text is cut to be compared with one.
pub open spec fn cuts_cleanly(t: Seq<char>) -> bool {
    &&& can_cut(t, 8)
    &&& after_prefix(t, "https://"@) matches Some(r) ==> can_cut(r, 11) && can_cut(r, 8)
    &&& after_host(t) matches Some(b) ==> can_cut(b, 2) && can_cut(b, 3) && can_cut(b, 5) && can_cut(b, 7)
}

fn is_b64url(c: char) -> (b: bool)
    ensures
        b == is_b64(c),
{
    ('A' <= c && c <= 'Z') || ('a' <= c && c <= 'z') || ('0' <= c && c <= '9') || c == '-' || c == '_'
}

/// Where `v[from..]` goes on after `prefix`, if it begins with it in any
/// case.
fn strip_ci(v: &Vec<char>, from: usize, prefix: &str) -> (r: Option<usize>)
    requires
        from <= v@.len(),
    ensures
        match r {
            Some(at) => at <= v@.len() && after_prefix(v@.skip(from as int), prefix@) == Some(
                v@.skip(at as int),
            ) && at == from + prefix@.len(),
            None => after_prefix(v@.skip(from as int), prefix@) is None,
        },
{
    let p = chars_of(prefix);
    let ghost s = v@.skip(from as int);
    let total: usize = v.len();
    if total - from < p.len() {
        return None;
    }
    let mut k: usize = 0;
    while k < p.len()
        invariant
            total == v@.len(),
            from + p@.len() <= total,
            k <= p@.len(),
            p@ == prefix@,
            s == v@.skip(from as int),
            forall|j: int| 0 <= j < k ==> lower_char(s[j]) == lower_char(#[trigger] p@[j]),
        decreases p@.len() - k,
    {
        if to_lower(v[from + k]) != to_lower(p[k]) {
            proof {
                let a = lower(s.take(p@.len() as int));
                let b = lower(p@);
                assert(a[k as int] == lower_char(s[k as int]));
                assert(b[k as int] == lower_char(p@[k as int]));
            }
            return None;
        }
        k += 1;
    }
    assert(lower(s.take(p@.len() as int)) =~= lower(p@));
    assert(s.skip(p@.len() as int) =~= v@.skip(from + p@.len()));
    Some(from + p.len())
}

/// Where `v` goes on after scheme and host.
fn strip_scheme_host(v: &Vec<char>) -> (r: Option<usize>)
    ensures
        match r {
            Some(at) => at <= v@.len() && after_host(v@) == Some(v@.skip(at as int)),
            None => after_host(v@) is None,
        },
{
    assert(v@.skip(0) =~= v@);
    match strip_ci(v, 0, "https://") {
        None => None,
        Some(at) => match strip_ci(v, at, "mega.co.nz/") {
            Some(b) => Some(b),
            None => strip_ci(v, at, "mega.nz/"),
        },
    }
}

/// Whether `v[from..to]` is all url-safe base64.
fn b64_run(v: &Vec<char>, from: usize, to: usize) -> (b: bool)
    requires
        from <= to <= v@.len(),
    ensures
        b == all_b64(v@.subrange(from as int, to as int)),
{
    let ghost s = v@.subrange(from as int, to as int);
    let mut i: usize = from;
    while i < to
        invariant
            from <= i <= to <= v@.len(),
            s == v@.subrange(from as int, to as int),
            forall|j: int| 0 <= j < i - from ==> is_b64(#[trigger] s[j]),
        decreases to - i,
    {
        if !is_b64url(v[i]) {
            assert(!is_b64(s[i - from]));
            return false;
        }
        i += 1;
    }
    true
}

/// Whether `v[from..]` is all url-safe base64 and equals signs.
fn key_run(v: &Vec<char>, from: usize) -> (b: bool)
    requires
        from <= v@.len(),
    ensures
        b == all_key(v@.skip(from as int)),
{
    let ghost s = v@.skip(from as int);
    let mut i: usize = from;
    while i < v.len()
        invariant
            from <= i <= v@.len(),
            s == v@.skip(from as int),
            forall|j: int| 0 <= j < i - from ==> is_b64(#[trigger] s[j]) || s[j] == '=',
        decreases v@.len() - i,
    {
        if !is_b64url(v[i]) && v[i] != '=' {
            assert(!is_b64(s[i - from]) && s[i - from] != '=');
            return false;
        }
        i += 1;
    }
    true
}

/// Reads `<handle><sep><key>` of a file at `at`.
fn read_file(v: &Vec<char>, at: usize, sep: char) -> (r: Option<Link>)
    requires
        at <= v@.len(),
    ensures
        match r {
            Some(l) => file_tail(v@.skip(at as int), sep) == Some(l@),
            None => file_tail(v@.skip(at as int), sep) is None,
        },
{
    let ghost b = v@.skip(at as int);
    let left: usize = v.len() - at;
    if left < 52 || left > 54 {
        return None;
    }
    assert(b.take(8) =~= v@.subrange(at as int, at + 8));
    assert(b.skip(9) =~= v@.skip(at + 9));
    assert(b.skip(9) =~= v@.subrange(at + 9, v@.len() as int));
    if !b64_run(v, at, at + 8) || v[at + 8] != sep || !key_run(v, at + 9) {
        return None;
    }
    let link = Link {
        kind: Kind::File,
        handle: string_range(v, at, at + 8),
        key: string_range(v, at + 9, v.len()),
        specific: None,
    };
    Some(link)
}

/// Reads the handle of a node that fills `v[at..]`.
fn read_node(v: &Vec<char>, at: usize) -> (r: Option<String>)
    requires
        at <= v@.len(),
    ensures
        match r {
            Some(h) => h@ == v@.skip(at as int) && h@.len() == 8 && all_b64(h@),
            None => !(v@.skip(at as int).len() == 8 && all_b64(v@.skip(at as int))),
        },
{
    assert(v@.skip(at as int) =~= v@.subrange(at as int, v@.len() as int));
    if v.len() - at == 8 && b64_run(v, at, v.len()) {
        Some(string_range(v, at, v.len()))
    } else {
        None
    }
}

/// Reads `<handle><sep><key>` of a folder at `at`, and what follows.
fn read_folder(v: &Vec<char>, at: usize, sep: char, hash_bang: bool) -> (r: Option<Link>)
    requires
        at <= v@.len(),
    ensures
        match r {
            Some(l) => folder_tail(v@.skip(at as int), sep, hash_bang) == Some(l@),
            None => folder_tail(v@.skip(at as int), sep, hash_bang) is None,
        },
{
    let ghost b = v@.skip(at as int);
    if v.len() - at < 31 {
        return None;
    }
    assert(b.take(8) =~= v@.subrange(at as int, at + 8));
    assert(b.subrange(9, 31) =~= v@.subrange(at + 9, at + 31));
    if !b64_run(v, at, at + 8) || v[at + 8] != sep || !b64_run(v, at + 9, at + 31) {
        return None;
    }
    let handle = string_range(v, at, at + 8);
    let key = string_range(v, at + 9, at + 31);
    let end: usize = at + 31;
    let ghost rest = b.skip(31);
    assert(rest =~= v@.skip(end as int));
    if end == v.len() {
        return Some(Link { kind: Kind::Folder, handle, key, specific: None });
    }
    let from: usize;
    if hash_bang {
        if v[end] != '!' && v[end] != '?' {
            return None;
        }
        from = end + 1;
        assert(rest.skip(1) =~= v@.skip(from as int));
    } else {
        let file = chars_of("/file/");
        let folder = chars_of("/folder/");
        proof {
            reveal_strlit("/file/");
            reveal_strlit("/folder/");
        }
        if begins_at(v, end, &file) {
            from = end + 6;
            assert(rest.skip(6) =~= v@.skip(from as int));
        } else if begins_at(v, end, &folder) {
            from = end + 8;
            assert(rest.skip(8) =~= v@.skip(from as int));
        } else {
            return None;
        }
    }
    match read_node(v, from) {
        Some(h) => Some(Link { kind: Kind::Folder, handle, key, specific: Some(h) }),
        None => None,
    }
}

/// Reads a link in one of its four shapes.
fn read_link(v: &Vec<char>) -> (r: Option<Link>)
    ensures
        match r {
            Some(l) => link_of(v@) == Some(l@),
            None => link_of(v@) is None,
        },
{
    let at = match strip_scheme_host(v) {
        Some(at) => at,
        None => return None,
    };
    if let Some(b) = strip_ci(v, at, "#!") {
        read_file(v, b, '!')
    } else if let Some(b) = strip_ci(v, at, "file/") {
        read_file(v, b, '#')
    } else if let Some(b) = strip_ci(v, at, "#F!") {
        read_folder(v, b, '!', true)
    } else if let Some(b) = strip_ci(v, at, "folder/") {
        read_folder(v, b, '#', false)
    } else {
        None
    }
}

fn prepared(raw: &str) -> (t: String)
    ensures
        t@ == link_text(raw@),
{
    let v = trimmed(raw);
    percent_decode(string_of(&v))
}

/// Parses a mega.nz URL into its typed handle and key.
pub fn parse_link(raw: &str) -> (r: Result<Link, String>)
    requires
        cuts_cleanly(link_text(raw@)),
    ensures
        match r {
            Ok(l) => link_of(link_text(raw@)) == Some(l@),
            Err(e) => link_of(link_text(raw@)) is None && e@ == "invalid mega download link: "@ + link_text(
                raw@,
            ),
        },
{
    let text = prepared(raw);
    let v = chars_of(text.as_str());
    match read_link(&v) {
        Some(l) => Ok(l),
        None => {
            let mut message = String::new();
            message.append("invalid mega download link: ");
            message.append(text.as_str());
            assert(message@ =~= "invalid mega download link: "@ + text@);
            Err(message)
        },
    }
}

fn cut_ok(s: &str, n: usize) -> (b: bool)
    ensures
        b == can_cut(s@, n as int),
{
    s.as_bytes().len() < n || s.is_char_boundary(n)
}

/// Whether a text can be cut where schemes, hosts and markers end: what
/// [`parse_link`] asks of it.
pub fn can_parse(raw: &str) -> (b: bool)
    ensures
        b == cuts_cleanly(link_text(raw@)),
{
    let text = prepared(raw);
    let v = chars_of(text.as_str());
    assert(v@.skip(0) =~= v@);
    if !cut_ok(text.as_str(), 8) {
        return false;
    }
    if let Some(at) = strip_ci(&v, 0, "https://") {
        let rest = string_range(&v, at, v.len());
        assert(rest@ =~= v@.skip(at as int));
        if !cut_ok(rest.as_str(), 11) || !cut_ok(rest.as_str(), 8) {
            return false;
        }
    }
    if let Some(at) = strip_scheme_host(&v) {
        let rest = string_range(&v, at, v.len());
        assert(rest@ =~= v@.skip(at as int));
        let s = rest.as_str();
        cut_ok(s, 2) && cut_ok(s, 3) && cut_ok(s, 5) && cut_ok(s, 7)
    } else {
        true
    }
}

// ---------------------------------------------------------------------------
// Laws
// ---------------------------------------------------------------------------

proof fn lemma_after_own_prefix(p: Seq<char>, s: Seq<char>)
    ensures
        after_prefix(p + s, p) == Some(s),
{
    assert((p + s).take(p.len() as int) =~= p);
    assert((p + s).skip(p.len() as int) =~= s);
}

/// A text whose character at `i` differs from the prefix's in more than case
/// does not begin with it.
proof fn lemma_other_prefix(s: Seq<char>, p: Seq<char>, i: int)
    requires
        0 <= i < p.len(),
        i < s.len() ==> lower_char(s[i]) != lower_char(p[i]),
    ensures
        after_prefix(s, p) is None,
{
    if s.len() >= p.len() {
        let a = lower(s.take(p.len() as int));
        let b = lower(p);
        assert(a[i] == lower_char(s[i]));
        assert(b[i] == lower_char(p[i]));
    }
}

/// The two hosts lead to the same place.
proof fn lemma_hosts(b: Seq<char>)
    ensures
        after_host("https://"@ + "mega.nz/"@ + b) == Some(b),
        after_host("https://"@ + "mega.co.nz/"@ + b) == Some(b),
{
    let scheme = "https://"@;
    let short = "mega.nz/"@;
    let long = "mega.co.nz/"@;
    assert(scheme + short + b =~= scheme + (short + b));
    assert(scheme + long + b =~= scheme + (long + b));
    lemma_after_own_prefix(scheme, short + b);
    lemma_after_own_prefix(scheme, long + b);
    lemma_after_own_prefix(short, b);
    lemma_after_own_prefix(long, b);
    reveal_strlit("mega.nz/");
    reveal_strlit("mega.co.nz/");
    assert((short + b)[5] == 'n');
    lemma_other_prefix(short + b, long, 5);
}

/// A text that begins with one of the markers begins with no other.
proof fn lemma_markers(b: Seq<char>)
    ensures
        after_prefix("#!"@ + b, "#!"@) == Some(b),
        after_prefix("file/"@ + b, "#!"@) is None,
        after_prefix("file/"@ + b, "file/"@) == Some(b),
        after_prefix("#F!"@ + b, "#!"@) is None,
        after_prefix("#F!"@ + b, "file/"@) is None,
        after_prefix("#F!"@ + b, "#F!"@) == Some(b),
        after_prefix("folder/"@ + b, "#!"@) is None,
        after_prefix("folder/"@ + b, "file/"@) is None,
        after_prefix("folder/"@ + b, "#F!"@) is None,
        after_prefix("folder/"@ + b, "folder/"@) == Some(b),
{
    reveal_strlit("#!");
    reveal_strlit("file/");
    reveal_strlit("#F!");
    reveal_strlit("folder/");
    lemma_after_own_prefix("#!"@, b);
    lemma_after_own_prefix("file/"@, b);
    lemma_after_own_prefix("#F!"@, b);
    lemma_after_own_prefix("folder/"@, b);
    lemma_other_prefix("file/"@ + b, "#!"@, 0);
    lemma_other_prefix("#F!"@ + b, "#!"@, 1);
    lemma_other_prefix("#F!"@ + b, "file/"@, 0);
    lemma_other_prefix("folder/"@ + b, "#!"@, 0);
    lemma_other_prefix("folder/"@ + b, "file/"@, 1);
    lemma_other_prefix("folder/"@ + b, "#F!"@, 0);
}

/// The host part of a link, in either spelling.
pub open spec fn is_host(h: Seq<char>) -> bool {
    h == "mega.nz/"@ || h == "mega.co.nz/"@
}

/// Every handle and key of a file, written in either of the two ways to
/// write a file link and with either host, are read back from it.
pub proof fn law_file_links(host: Seq<char>, handle: Seq<char>, key: Seq<char>)
    requires
        is_host(host),
        handle.len() == 8,
        all_b64(handle),
        43 <= key.len() <= 45,
        all_key(key),
    ensures
        link_of("https://"@ + host + ("#!"@ + (handle + seq!['!'] + key))) == Some(
            LinkModel { kind: Kind::File, handle, key, specific: None },
        ),
        link_of("https://"@ + host + ("file/"@ + (handle + seq!['#'] + key))) == Some(
            LinkModel { kind: Kind::File, handle, key, specific: None },
        ),
{
    let a = handle + seq!['!'] + key;
    let b = handle + seq!['#'] + key;
    lemma_hosts("#!"@ + a);
    lemma_hosts("file/"@ + b);
    lemma_markers(a);
    lemma_markers(b);
    assert(a.take(8) =~= handle && a.skip(9) =~= key);
    assert(b.take(8) =~= handle && b.skip(9) =~= key);
}

/// Every handle and key of a folder, written in either of the two ways to
/// write a folder link, are read back from it.
pub proof fn law_folder_links(host: Seq<char>, handle: Seq<char>, key: Seq<char>)
    requires
        is_host(host),
        handle.len() == 8,
        all_b64(handle),
        key.len() == 22,
        all_b64(key),
    ensures
        link_of("https://"@ + host + ("#F!"@ + (handle + seq!['!'] + key))) == Some(
            LinkModel { kind: Kind::Folder, handle, key, specific: None },
        ),
        link_of("https://"@ + host + ("folder/"@ + (handle + seq!['#'] + key))) == Some(
            LinkModel { kind: Kind::Folder, handle, key, specific: None },
        ),
{
    let a = handle + seq!['!'] + key;
    let b = handle + seq!['#'] + key;
    lemma_hosts("#F!"@ + a);
    lemma_hosts("folder/"@ + b);
    lemma_markers(a);
    lemma_markers(b);
    assert(a.take(8) =~= handle && a.subrange(9, 31) =~= key && a.skip(31).len() == 0);
    assert(b.take(8) =~= handle && b.subrange(9, 31) =~= key && b.skip(31).len() == 0);
}

/// A folder link that ends in the handle of a node leads to that node, in
/// each of the four ways to write one.
pub proof fn law_deep_links(host: Seq<char>, handle: Seq<char>, key: Seq<char>, node: Seq<char>)
    requires
        is_host(host),
        handle.len() == 8,
        all_b64(handle),
        key.len() == 22,
        all_b64(key),
        node.len() == 8,
        all_b64(node),
    ensures
        ({
            let link = Some(LinkModel { kind: Kind::Folder, handle, key, specific: Some(node) });
            let old_style = handle + seq!['!'] + key;
            let new_style = handle + seq!['#'] + key;
            &&& link_of("https://"@ + host + ("#F!"@ + (old_style + (seq!['!'] + node)))) == link
            &&& link_of("https://"@ + host + ("#F!"@ + (old_style + (seq!['?'] + node)))) == link
            &&& link_of("https://"@ + host + ("folder/"@ + (new_style + ("/file/"@ + node)))) == link
            &&& link_of("https://"@ + host + ("folder/"@ + (new_style + ("/folder/"@ + node)))) == link
        }),
{
    lemma_deep_tail(host, "#F!"@, handle, '!', key, seq!['!'], node);
    lemma_deep_tail(host, "#F!"@, handle, '!', key, seq!['?'], node);
    lemma_deep_tail(host, "folder/"@, handle, '#', key, "/file/"@, node);
    lemma_deep_tail(host, "folder/"@, handle, '#', key, "/folder/"@, node);
}

proof fn lemma_deep_tail(
    host: Seq<char>,
    marker: Seq<char>,
    handle: Seq<char>,
    sep: char,
    key: Seq<char>,
    tag: Seq<char>,
    node: Seq<char>,
)
    requires
        is_host(host),
        handle.len() == 8,
        all_b64(handle),
        key.len() == 22,
        all_b64(key),
        node.len() == 8,
        all_b64(node),
        (marker == "#F!"@ && sep == '!' && (tag == seq!['!'] || tag == seq!['?'])) || (marker == "folder/"@ && sep
            == '#' && (tag == "/file/"@ || tag == "/folder/"@)),
    ensures
        link_of("https://"@ + host + (marker + (handle + seq![sep] + key + (tag + node)))) == Some(
            LinkModel { kind: Kind::Folder, handle, key, specific: Some(node) },
        ),
{
    let b = handle + seq![sep] + key + (tag + node);
    lemma_hosts(marker + b);
    lemma_markers(b);
    lemma_tail_pieces(handle, sep, key, tag + node);
    if marker == "folder/"@ {
        lemma_tags(node);
    } else {
        assert((tag + node)[0] == tag[0]);
        assert((tag + node).skip(1) =~= node);
    }
}

proof fn lemma_tail_pieces(handle: Seq<char>, sep: char, key: Seq<char>, rest: Seq<char>)
    requires
        handle.len() == 8,
        key.len() == 22,
    ensures
        ({
            let b = handle + seq![sep] + key + rest;
            &&& b.len() == 31 + rest.len()
            &&& b.take(8) == handle
            &&& b[8] == sep
            &&& b.subrange(9, 31) == key
            &&& b.skip(31) == rest
        }),
{
    let b = handle + seq![sep] + key + rest;
    assert(b.take(8) =~= handle);
    assert(b.subrange(9, 31) =~= key);
    assert(b.skip(31) =~= rest);
}

proof fn lemma_tags(node: Seq<char>)
    ensures
        "/file/"@.len() == 6 && "/folder/"@.len() == 8,
        has_prefix("/file/"@ + node, "/file/"@),
        ("/file/"@ + node).skip(6) == node,
        !has_prefix("/folder/"@ + node, "/file/"@),
        has_prefix("/folder/"@ + node, "/folder/"@),
        ("/folder/"@ + node).skip(8) == node,
{
    reveal_strlit("/file/");
    reveal_strlit("/folder/");
    let a = "/file/"@ + node;
    let b = "/folder/"@ + node;
    assert(a.take(6) =~= "/file/"@);
    assert(a.skip(6) =~= node);
    assert(b.take(8) =~= "/folder/"@);
    assert(b.skip(8) =~= node);
    if has_prefix(b, "/file/"@) {
        assert(b.take(6)[2] == 'i');
        assert(b[2] == 'o');
    }
}

/// What a link says always has the shape that its kind demands.
pub proof fn law_link_shape(t: Seq<char>)
    ensures
        link_of(t) matches Some(l) ==> {
            &&& l.handle.len() == 8
            &&& all_b64(l.handle)
            &&& match l.kind {
                Kind::File => 43 <= l.key.len() <= 45 && all_key(l.key) && l.specific is None,
                Kind::Folder => l.key.len() == 22 && all_b64(l.key) && (l.specific matches Some(h) ==> h.len() == 8
                    && all_b64(h)),
            }
        },
{
}

/// A text of ASCII characters alone can be cut anywhere, so that nothing is
/// asked of it before it is parsed.
pub proof fn law_ascii_cuts_cleanly(t: Seq<char>)
    requires
        is_ascii_chars(t),
    ensures
        cuts_cleanly(t),
{
    lemma_ascii_cut(t, 8);
    if let Some(r) = after_prefix(t, "https://"@) {
        assert(is_ascii_chars(r));
        lemma_ascii_cut(r, 11);
        lemma_ascii_cut(r, 8);
    }
    if let Some(b) = after_host(t) {
        assert(is_ascii_chars(b));
        lemma_ascii_cut(b, 2);
        lemma_ascii_cut(b, 3);
        lemma_ascii_cut(b, 5);
        lemma_ascii_cut(b, 7);
    }
}

proof fn lemma_ascii_cut(t: Seq<char>, n: int)
    requires
        is_ascii_chars(t),
        n > 0,
    ensures
        can_cut(t, n),
{
    is_ascii_chars_encode_utf8(t);
    encode_utf8_valid_utf8(t);
    let b = encode_utf8(t);
    if n == b.len() {
        is_char_boundary_start_end_of_seq(b);
    } else if n < b.len() {
        is_char_boundary_iff_not_is_continuation_byte(b, n);
        assert(b[n] == t[n] as u8);
    }
}

/// A text without white space at its ends and without percent signs is
/// parsed as it stands.
pub proof fn law_plain_link_text(t: Seq<char>)
    requires
        is_ascii_chars(t),
        forall|i: int| 0 <= i < t.len() ==> #[trigger] t[i] != '%',
        t.len() > 0 ==> !crate::text::is_white(t[0]) && !crate::text::is_white(t.last()),
    ensures
        link_text(t) == t,
{
    assert(trim(t) =~= t);
    is_ascii_chars_encode_utf8(t);
    let b = encode_utf8(t);
    assert forall|i: int| 0 <= i < b.len() implies #[trigger] b[i] != 37 by {
        assert(t[i] != '%');
        assert(b[i] == t[i] as u8);
    }
    lemma_nothing_escaped(b);
    encode_utf8_valid_utf8(t);
    encode_utf8_decode_utf8(t);
}

proof fn lemma_nothing_escaped(b: Seq<u8>)
    requires
        forall|i: int| 0 <= i < b.len() ==> #[trigger] b[i] != 37,
    ensures
        unescaped(b) == b,
    decreases b.len(),
{
    if b.len() > 0 {
        lemma_nothing_escaped(b.skip(1));
        assert(b =~= seq![b[0]] + b.skip(1));
    }
}

/// Handles and keys are made of the 64 characters of url-safe base64.
pub proof fn law_link_characters(c: char)
    ensures
        is_b64(c) <==> "ABCDEFGHIJKLMNOPQRSTUVWXYZabcdefghijklmnopqrstuvwxyz0123456789-_"@.contains(c),
{
    let all = "ABCDEFGHIJKLMNOPQRSTUVWXYZabcdefghijklmnopqrstuvwxyz0123456789-_"@;
    reveal_strlit("ABCDEFGHIJKLMNOPQRSTUVWXYZabcdefghijklmnopqrstuvwxyz0123456789-_");
    if is_b64(c) {
        let i: int = if 'A' <= c <= 'Z' {
            c as int - 65
        } else if 'a' <= c <= 'z' {
            c as int - 97 + 26
        } else if '0' <= c <= '9' {
            c as int - 48 + 52
        } else if c == '-' {
            62
        } else {
            63
        };
        assert(all[i] == c);
    }
}

proof fn lemma_after_prefix_in_case(q: Seq<char>, p: Seq<char>, s: Seq<char>)
    requires
        lower(q) == lower(p),
    ensures
        after_prefix(q + s, p) == Some(s),
{
    assert(lower(q).len() == q.len() && lower(p).len() == p.len());
    assert((q + s).take(p.len() as int) =~= q);
    assert((q + s).skip(p.len() as int) =~= s);
}

/// Two texts that agree but for case, as far as a prefix reaches.
proof fn lemma_prefix_in_case(q: Seq<char>, m: Seq<char>, s: Seq<char>, p: Seq<char>, i: int)
    requires
        lower(q) == lower(m),
        0 <= i < p.len(),
        i < m.len(),
        lower_char(m[i]) != lower_char(p[i]),
    ensures
        after_prefix(q + s, p) is None,
{
    assert(lower(q).len() == q.len() && lower(m).len() == m.len());
    assert(lower(q)[i] == lower_char(q[i]));
    assert(lower(m)[i] == lower_char(m[i]));
    assert((q + s)[i] == q[i]);
    lemma_other_prefix(q + s, p, i);
}

/// The scheme, the host and what marks the kind of a link may be written in
/// any case. What follows them is taken as it stands.
pub proof fn law_case_of_links(
    scheme: Seq<char>,
    host: Seq<char>,
    marker: Seq<char>,
    own_host: Seq<char>,
    own_marker: Seq<char>,
    b: Seq<char>,
)
    requires
        lower(scheme) == lower("https://"@),
        is_host(own_host) && lower(host) == lower(own_host),
        own_marker == "#!"@ || own_marker == "file/"@ || own_marker == "#F!"@ || own_marker == "folder/"@,
        lower(marker) == lower(own_marker),
    ensures
        link_of(scheme + host + (marker + b)) == link_of("https://"@ + own_host + (own_marker + b)),
{
    let r = marker + b;
    let own = own_marker + b;
    lemma_hosts(own);
    lemma_markers(b);
    assert(scheme + host + r =~= scheme + (host + r));
    lemma_after_prefix_in_case(scheme, "https://"@, host + r);
    reveal_strlit("mega.nz/");
    reveal_strlit("mega.co.nz/");
    if own_host == "mega.co.nz/"@ {
        lemma_after_prefix_in_case(host, "mega.co.nz/"@, r);
    } else {
        lemma_prefix_in_case(host, "mega.nz/"@, r, "mega.co.nz/"@, 5);
        lemma_after_prefix_in_case(host, "mega.nz/"@, r);
    }
    assert(after_host(scheme + host + r) == Some(r));
    reveal_strlit("#!");
    reveal_strlit("file/");
    reveal_strlit("#F!");
    reveal_strlit("folder/");
    if own_marker == "#!"@ {
        lemma_after_prefix_in_case(marker, "#!"@, b);
    } else if own_marker == "file/"@ {
        lemma_prefix_in_case(marker, "file/"@, b, "#!"@, 0);
        lemma_after_prefix_in_case(marker, "file/"@, b);
    } else if own_marker == "#F!"@ {
        lemma_prefix_in_case(marker, "#F!"@, b, "#!"@, 1);
        lemma_prefix_in_case(marker, "#F!"@, b, "file/"@, 0);
        lemma_after_prefix_in_case(marker, "#F!"@, b);
    } else {
        lemma_prefix_in_case(marker, "folder/"@, b, "#!"@, 0);
        lemma_prefix_in_case(marker, "folder/"@, b, "file/"@, 1);
        lemma_prefix_in_case(marker, "folder/"@, b, "#F!"@, 0);
        lemma_after_prefix_in_case(marker, "folder/"@, b);
    }
}

/// A link ends with what it says: nothing that follows is passed over.
#[verifier::rlimit(60)]
pub proof fn law_links_are_whole(t: Seq<char>)
    ensures
        link_of(t) matches Some(l) ==> {
            let n = l.handle.len() + 1 + l.key.len();
            match l.specific {
                None => {
                    let b = t.skip(t.len() - n);
                    &&& t.len() >= n
                    &&& b == l.handle + seq!['!'] + l.key || b == l.handle + seq!['#'] + l.key
                },
                Some(h) => t.len() >= n + h.len() && t.skip(t.len() - h.len()) == h,
            }
        },
{
    if let Some(l) = link_of(t) {
        let r = after_host(t)->Some_0;
        assert(t.len() >= r.len() && r =~= t.skip(t.len() - r.len()));
        let b = if after_prefix(r, "#!"@) is Some {
            after_prefix(r, "#!"@)->Some_0
        } else if after_prefix(r, "file/"@) is Some {
            after_prefix(r, "file/"@)->Some_0
        } else if after_prefix(r, "#F!"@) is Some {
            after_prefix(r, "#F!"@)->Some_0
        } else {
            after_prefix(r, "folder/"@)->Some_0
        };
        assert(r.len() >= b.len() && b =~= r.skip(r.len() - b.len()));
        assert(b =~= t.skip(t.len() - b.len()));
        let n = (l.handle.len() + 1 + l.key.len()) as int;
        assert(b[8] == '!' || b[8] == '#');
        assert(b.take(n) =~= l.handle + seq![b[8]] + l.key);
        if l.specific is None {
            assert(b.len() == n) by {
                if l.kind == Kind::Folder {
                    assert(b.skip(31).len() == 0);
                }
            }
            assert(b.take(n) =~= b);
        } else {
            let h = l.specific->Some_0;
            let rest = b.skip(31);
            reveal_strlit("/file/");
            reveal_strlit("/folder/");
            assert(h =~= rest.skip(rest.len() - 8));
            assert(t.skip(t.len() - 8) =~= h);
        }
    }
}

/// A percent sign and two hexadecimal digits, in either case, stand for the
/// byte with that number. All other bytes stand for themselves, and so does
/// a percent sign without two such digits behind it.
pub proof fn law_percent_escapes(b: u8, rest: Seq<u8>, other: u8)
    requires
        other != 37 || rest.len() < 2 || hex_value(rest[0]) is None || hex_value(rest[1]) is None,
    ensures
        ({
            let lo = "0123456789abcdef"@;
            let hi = "0123456789ABCDEF"@;
            let x = b as int / 16;
            let y = b as int % 16;
            &&& unescaped(seq![37u8, lo[x] as u8, lo[y] as u8] + rest) == seq![b] + unescaped(rest)
            &&& unescaped(seq![37u8, hi[x] as u8, hi[y] as u8] + rest) == seq![b] + unescaped(rest)
            &&& unescaped(seq![other] + rest) == seq![other] + unescaped(rest)
            &&& unescaped(Seq::empty()) == Seq::<u8>::empty()
        }),
{
    reveal_strlit("0123456789abcdef");
    reveal_strlit("0123456789ABCDEF");
    let lo = "0123456789abcdef"@;
    let hi = "0123456789ABCDEF"@;
    let x = b as int / 16;
    let y = b as int % 16;
    lemma_hex_digit(x);
    lemma_hex_digit(y);
    let s = seq![37u8, lo[x] as u8, lo[y] as u8] + rest;
    let t = seq![37u8, hi[x] as u8, hi[y] as u8] + rest;
    assert(s.skip(3) =~= rest);
    assert(t.skip(3) =~= rest);
    assert(s[0] == 37 && s[1] == lo[x] as u8 && s[2] == lo[y] as u8);
    assert(t[0] == 37 && t[1] == hi[x] as u8 && t[2] == hi[y] as u8);
    assert(16 * x + y == b);
    let u = seq![other] + rest;
    assert(u.skip(1) =~= rest);
    assert(u[0] == other);
    if rest.len() >= 2 {
        assert(u[1] == rest[0] && u[2] == rest[1]);
    }
}

proof fn lemma_hex_digit(v: int)
    requires
        0 <= v < 16,
    ensures
        hex_value("0123456789abcdef"@[v] as u8) == Some(v as u8),
        hex_value("0123456789ABCDEF"@[v] as u8) == Some(v as u8),
{
    reveal_strlit("0123456789abcdef");
    reveal_strlit("0123456789ABCDEF");
}

/// White space round a link does not count. Escapes are decoded where the
/// outcome is text; where it is not, the link stays as it was written.
pub proof fn law_link_text(a: Seq<char>, t: Seq<char>, b: Seq<char>)
    requires
        all_white(a) && all_white(b),
        t.len() > 0 ==> !is_white(t[0]) && !is_white(t.last()),
    ensures
        link_text(a + t + b) == link_text(t),
        forall|s: Seq<char>| #[trigger] encode_utf8(s) == unescaped(encode_utf8(t)) ==> link_text(a + t + b) == s,
        !valid_utf8(unescaped(encode_utf8(t))) ==> link_text(a + t + b) == t,
{
    let empty = Seq::<char>::empty();
    law_trimming(a, t, b);
    law_trimming(empty, t, empty);
    assert(empty + t + empty =~= t);
    assert forall|s: Seq<char>| #[trigger] encode_utf8(s) == unescaped(encode_utf8(t)) implies link_text(a + t + b) == s by {
        encode_utf8_valid_utf8(s);
        encode_utf8_decode_utf8(s);
    }
}

} // verus!
