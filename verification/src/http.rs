//! The text side of HTTP/1.1: where a URL leads, what a POST request says,
//! and how a response's head and body are read off a connection.

use vstd::prelude::*;
use vstd::string::*;

use crate::text::{
    all_white, begins_at, chars_of, contains_text, decimal, digit_value, find_first, find_last,
    first_at, has_prefix, has_text, is_number, is_white, last_at, law_decimal_reads_back,
    law_text_is_found, law_trimming, law_trimming_keeps_the_middle, lemma_first_at,
    lemma_first_piece, lemma_last_at, lower, lower_chars, number_value, parse_unsigned,
    push_decimal, read_unsigned, same_ignoring_case, same_text, split_on, stands_at, starts_with,
    string_of, string_range, trim, trim_end, trim_start, trimmed, white,
};

verus! {

// ---------------------------------------------------------------------------
// URLs
// ---------------------------------------------------------------------------

/// Where a URL leads.
#[derive(Debug)]
pub struct Target {
    pub tls: bool,
    pub host: String,
    pub port: u16,
    pub path: String,
}

/// What a URL says.
pub struct TargetModel {
    pub tls: bool,
    pub host: Seq<char>,
    pub port: u16,
    pub path: Seq<char>,
}

impl View for Target {
    type V = TargetModel;

    open spec fn view(&self) -> TargetModel {
        TargetModel { tls: self.tls, host: self.host@, port: self.port, path: self.path@ }
    }
}

/// What follows the scheme of a URL, and whether it is the secure one.
pub open spec fn after_scheme(url: Seq<char>) -> Option<(bool, Seq<char>)> {
    if has_prefix(url, "https://"@) {
        Some((true, url.skip(8)))
    } else if has_prefix(url, "http://"@) {
        Some((false, url.skip(7)))
    } else {
        None
    }
}

/// Host and port: what stands before the last colon, and the number behind
/// it.
pub open spec fn host_and_port(authority: Seq<char>, default: u16) -> (Seq<char>, u16) {
    let colon = last_at(authority, ':');
    if colon < 0 {
        (authority, default)
    } else {
        (
            authority.take(colon),
            match parse_unsigned(authority.skip(colon + 1), 10, u16::MAX as nat) {
                Some(n) => n as u16,
                None => default,
            },
        )
    }
}

/// Where a URL leads, if it is one of HTTP.
pub open spec fn target_of(url: Seq<char>) -> Option<TargetModel> {
    match after_scheme(url) {
        None => None,
        Some((tls, rest)) => {
            let slash = first_at(rest, '/');
            let (host, port) = host_and_port(
                rest.take(slash),
                if tls {
                    443
                } else {
                    80
                },
            );
            Some(
                TargetModel {
                    tls,
                    host,
                    port,
                    path: if slash < rest.len() {
                        rest.skip(slash)
                    } else {
                        seq!['/']
                    },
                },
            )
        },
    }
}

fn split_authority(v: &Vec<char>, default: u16) -> (r: (String, u16))
    ensures
        (r.0@, r.1) == host_and_port(v@, default),
{
    proof {
        lemma_last_at(v@, ':');
    }
    let total: usize = v.len();
    match find_last(v, ':') {
        None => {
            let host = string_of(v);
            (host, default)
        },
        Some(colon) => {
            let host = string_range(v, 0, colon);
            assert(host@ =~= v@.take(colon as int));
            let port_text = string_range(v, colon + 1, total);
            assert(port_text@ =~= v@.skip(colon + 1));
            let digits = chars_of(port_text.as_str());
            let port: u16 = match read_unsigned(&digits, 10, u16::MAX as u64) {
                Some(n) => n as u16,
                None => default,
            };
            (host, port)
        },
    }
}

/// Splits an HTTP URL into its connection parts.
pub fn split_url(url: &str) -> (r: Result<Target, String>)
    ensures
        match r {
            Ok(t) => target_of(url@) == Some(t@),
            Err(e) => target_of(url@) is None && e@ == "unsupported URL scheme: "@ + url@,
        },
{
    proof {
        reveal_strlit("https://");
        reveal_strlit("http://");
    }
    let all = chars_of(url);
    let tls: bool;
    let from: usize;
    if starts_with(url, "https://") {
        tls = true;
        from = 8;
    } else if starts_with(url, "http://") {
        tls = false;
        from = 7;
    } else {
        let mut message = String::new();
        message.append("unsupported URL scheme: ");
        message.append(url);
        assert(message@ =~= "unsupported URL scheme: "@ + url@);
        return Err(message);
    }
    let rest = chars_of(string_range(&all, from, all.len()).as_str());
    assert(rest@ =~= url@.skip(from as int));
    let slash = find_first(&rest, '/');
    proof {
        lemma_first_at(rest@, '/');
    }
    let authority = chars_of(string_range(&rest, 0, slash).as_str());
    assert(authority@ =~= rest@.take(slash as int));
    let default: u16 = if tls {
        443
    } else {
        80
    };
    let (host, port) = split_authority(&authority, default);
    let path = if slash < rest.len() {
        string_range(&rest, slash, rest.len())
    } else {
        "/".to_owned()
    };
    proof {
        reveal_strlit("/");
        if slash < rest@.len() {
            assert(path@ =~= rest@.skip(slash as int));
        } else {
            assert(path@ =~= seq!['/']);
        }
    }
    Ok(Target { tls, host, port, path })
}

// ---------------------------------------------------------------------------
// Requests
// ---------------------------------------------------------------------------

/// Headers as a request spells them, the first `n`.
pub open spec fn header_lines(headers: Seq<(Seq<char>, Seq<char>)>, n: int) -> Seq<char>
    decreases n,
{
    if n <= 0 {
        Seq::empty()
    } else {
        header_lines(headers, n - 1) + headers[n - 1].0 + ": "@ + headers[n - 1].1 + "\r\n"@
    }
}

/// The head of a POST request with a body of `len` bytes.
pub open spec fn request_head(
    path: Seq<char>,
    host: Seq<char>,
    len: nat,
    headers: Seq<(Seq<char>, Seq<char>)>,
) -> Seq<char> {
    "POST "@ + path + " HTTP/1.1\r\nHost: "@ + host + "\r\nConnection: close\r\nContent-Length: "@ + decimal(len)
        + "\r\n"@ + header_lines(headers, headers.len() as int) + "\r\n"@
}

/// What headers say.
pub open spec fn header_models(headers: Seq<(String, String)>) -> Seq<(Seq<char>, Seq<char>)> {
    headers.map_values(|h: (String, String)| (h.0@, h.1@))
}

/// Writes the head of a POST request.
pub fn post_head(target: &Target, extra_headers: &Vec<(String, String)>, body_len: usize) -> (head: String)
    ensures
        head@ == request_head(target.path@, target.host@, body_len as nat, header_models(extra_headers@)),
{
    let ghost hs = header_models(extra_headers@);
    let mut head = String::new();
    head.append("POST ");
    head.append(target.path.as_str());
    head.append(" HTTP/1.1\r\nHost: ");
    head.append(target.host.as_str());
    head.append("\r\nConnection: close\r\nContent-Length: ");
    push_decimal(&mut head, body_len as u64);
    head.append("\r\n");
    let ghost start = head@;
    assert(start =~= "POST "@ + target.path@ + " HTTP/1.1\r\nHost: "@ + target.host@
        + "\r\nConnection: close\r\nContent-Length: "@ + decimal(body_len as nat) + "\r\n"@);
    let mut i: usize = 0;
    assert(head@ =~= start + header_lines(hs, 0));
    while i < extra_headers.len()
        invariant
            i <= extra_headers@.len(),
            hs == header_models(extra_headers@),
            head@ == start + header_lines(hs, i as int),
        decreases extra_headers@.len() - i,
    {
        let ghost before = head@;
        head.append(extra_headers[i].0.as_str());
        head.append(": ");
        head.append(extra_headers[i].1.as_str());
        head.append("\r\n");
        assert(hs[i as int] == (extra_headers@[i as int].0@, extra_headers@[i as int].1@));
        assert(head@ =~= start + header_lines(hs, i + 1));
        i += 1;
    }
    head.append("\r\n");
    assert(head@ =~= request_head(target.path@, target.host@, body_len as nat, hs));
    head
}

// ---------------------------------------------------------------------------
// Response heads
// ---------------------------------------------------------------------------

/// How a response's body is framed.
#[derive(Debug, Clone, Copy, PartialEq, Eq, Structural)]
pub enum BodyKind {
    ContentLength(u64),
    Chunked,
    UntilClose,
}

/// The head of a response.
#[derive(Debug)]
pub struct Response {
    pub status: u16,
    pub headers: Vec<(String, String)>,
    pub kind: BodyKind,
}

/// The value of the first header called `name`, in any case, from the `i`th
/// on.
pub open spec fn header_value(headers: Seq<(Seq<char>, Seq<char>)>, name: Seq<char>, i: int) -> Option<Seq<char>>
    decreases headers.len() - i,
{
    if i >= headers.len() {
        None
    } else if lower(headers[i].0) == lower(name) {
        Some(headers[i].1)
    } else {
        header_value(headers, name, i + 1)
    }
}

impl Response {
    /// Looks a header up, in any case.
    pub fn header(&self, name: &str) -> (r: Option<&str>)
        ensures
            match r {
                Some(v) => header_value(header_models(self.headers@), name@, 0) == Some(v@),
                None => header_value(header_models(self.headers@), name@, 0) is None,
            },
    {
        let ghost hs = header_models(self.headers@);
        let mut i: usize = 0;
        while i < self.headers.len()
            invariant
                i <= self.headers@.len(),
                hs == header_models(self.headers@),
                header_value(hs, name@, 0) == header_value(hs, name@, i as int),
            decreases self.headers@.len() - i,
        {
            assert(hs[i as int] == (self.headers@[i as int].0@, self.headers@[i as int].1@));
            if same_ignoring_case(self.headers[i].0.as_str(), name) {
                return Some(self.headers[i].1.as_str());
            }
            i += 1;
        }
        None
    }
}

/// `s` up to its first white space.
pub open spec fn until_white(s: Seq<char>) -> Seq<char>
    decreases s.len(),
{
    if s.len() == 0 || is_white(s[0]) {
        Seq::empty()
    } else {
        seq![s[0]] + until_white(s.skip(1))
    }
}

/// The second of the words that white space separates; nothing if there are
/// fewer.
pub open spec fn second_word(line: Seq<char>) -> Seq<char> {
    let s = trim_start(line);
    until_white(trim_start(s.skip(until_white(s).len() as int)))
}

/// The status in a status line, if there is one.
pub open spec fn status_of(line: Seq<char>) -> Option<u16> {
    match parse_unsigned(second_word(line), 10, u16::MAX as nat) {
        Some(n) => Some(n as u16),
        None => None,
    }
}

fn skip_white(v: &Vec<char>, from: usize) -> (at: usize)
    requires
        from <= v@.len(),
    ensures
        from <= at <= v@.len(),
        v@.skip(at as int) == trim_start(v@.skip(from as int)),
{
    let mut at: usize = from;
    while at < v.len() && white(v[at])
        invariant
            from <= at <= v@.len(),
            trim_start(v@.skip(from as int)) == trim_start(v@.skip(at as int)),
        decreases v@.len() - at,
    {
        assert(v@.skip(at as int).skip(1) =~= v@.skip(at + 1));
        at += 1;
    }
    at
}

proof fn lemma_until_white(s: Seq<char>, n: int)
    requires
        0 <= n <= s.len(),
        forall|j: int| 0 <= j < n ==> !is_white(#[trigger] s[j]),
        n < s.len() ==> is_white(s[n]),
    ensures
        until_white(s) == s.take(n),
    decreases s.len(),
{
    if n == 0 {
        assert(until_white(s) =~= s.take(0));
    } else {
        assert forall|j: int| 0 <= j < n - 1 implies !is_white(#[trigger] s.skip(1)[j]) by {
            assert(s.skip(1)[j] == s[j + 1]);
        }
        lemma_until_white(s.skip(1), n - 1);
        assert(until_white(s) =~= s.take(n));
    }
}

fn word_end(v: &Vec<char>, from: usize) -> (at: usize)
    requires
        from <= v@.len(),
    ensures
        from <= at <= v@.len(),
        until_white(v@.skip(from as int)) == v@.subrange(from as int, at as int),
{
    let ghost s = v@.skip(from as int);
    let mut at: usize = from;
    while at < v.len() && !white(v[at])
        invariant
            from <= at <= v@.len(),
            s == v@.skip(from as int),
            forall|j: int| 0 <= j < at - from ==> !is_white(#[trigger] s[j]),
        decreases v@.len() - at,
    {
        assert(s[at - from] == v@[at as int]);
        at += 1;
    }
    proof {
        if at < v@.len() {
            assert(s[at - from] == v@[at as int]);
        }
        lemma_until_white(s, at - from);
        assert(s.take(at - from) =~= v@.subrange(from as int, at as int));
    }
    at
}

/// Reads the status off a status line.
pub fn parse_status(line: &str) -> (r: Result<u16, String>)
    ensures
        match r {
            Ok(n) => status_of(line@) == Some(n),
            Err(e) => status_of(line@) is None && e@ == "bad status line"@,
        },
{
    let v = chars_of(line);
    assert(v@.skip(0) =~= v@);
    let a = skip_white(&v, 0);
    let b = word_end(&v, a);
    proof {
        let s = trim_start(line@);
        assert(s.skip(until_white(s).len() as int) =~= v@.skip(b as int));
    }
    let c = skip_white(&v, b);
    let d = word_end(&v, c);
    let word = chars_of(string_range(&v, c, d).as_str());
    assert(word@ =~= second_word(line@));
    match read_unsigned(&word, 10, u16::MAX as u64) {
        Some(n) => Ok(n as u16),
        None => Err("bad status line".to_owned()),
    }
}

/// What the header lines of a response have said so far.
#[verifier::ext_equal]
pub struct HeadModel {
    pub content_length: Option<u64>,
    pub chunked: bool,
    pub headers: Seq<(Seq<char>, Seq<char>)>,
}

/// A head of which no line was read.
pub open spec fn no_lines() -> HeadModel {
    HeadModel { content_length: None, chunked: false, headers: Seq::empty() }
}

/// The length in a `Content-Length` header, if it is a number.
pub open spec fn length_in(value: Seq<char>) -> Option<u64> {
    match parse_unsigned(trim(value), 10, u64::MAX as nat) {
        Some(n) => Some(n as u64),
        None => None,
    }
}

/// What a head says once it has one line more.
pub open spec fn with_line(h: HeadModel, line: Seq<char>) -> HeadModel {
    let colon = first_at(line, ':');
    let small = lower(line);
    let headers = if colon < line.len() {
        h.headers.push((trim(line.take(colon)), trim(line.skip(colon + 1))))
    } else {
        h.headers
    };
    if has_prefix(small, "content-length:"@) {
        HeadModel { content_length: length_in(small.skip(15)), headers, ..h }
    } else if has_prefix(small, "transfer-encoding:"@) && has_text(trim(small.skip(18)), "chunked"@) {
        HeadModel { chunked: true, headers, ..h }
    } else {
        HeadModel { headers, ..h }
    }
}

/// A line ends a head, or the lines after the last chunk.
pub open spec fn is_last_line(line: Seq<char>) -> bool {
    line.len() == 0 || line == "\r\n"@ || line == "\n"@
}

/// How a body with this head is framed. Chunks win over a length.
pub open spec fn kind_of(h: HeadModel) -> BodyKind {
    if h.chunked {
        BodyKind::Chunked
    } else {
        match h.content_length {
            Some(n) => BodyKind::ContentLength(n),
            None => BodyKind::UntilClose,
        }
    }
}

/// The head of a response while its lines arrive.
pub struct HeadReader {
    pub content_length: Option<u64>,
    pub chunked: bool,
    pub headers: Vec<(String, String)>,
}

impl View for HeadReader {
    type V = HeadModel;

    open spec fn view(&self) -> HeadModel {
        HeadModel {
            content_length: self.content_length,
            chunked: self.chunked,
            headers: header_models(self.headers@),
        }
    }
}

/// Whether a line ends a head.
pub fn ends_head(line: &str) -> (b: bool)
    ensures
        b == is_last_line(line@),
{
    line.is_empty() || same_text(line, "\r\n") || same_text(line, "\n")
}

impl HeadReader {
    pub fn new() -> (h: HeadReader)
        ensures
            h@ == no_lines(),
    {
        let h = HeadReader { content_length: None, chunked: false, headers: Vec::new() };
        assert(header_models(h.headers@) =~= Seq::empty());
        h
    }

    fn push_header(&mut self, line: &Vec<char>)
        ensures
            final(self)@ == (HeadModel {
                headers: if first_at(line@, ':') < line@.len() {
                    old(self)@.headers.push(
                        (trim(line@.take(first_at(line@, ':'))), trim(line@.skip(first_at(line@, ':') + 1))),
                    )
                } else {
                    old(self)@.headers
                },
                ..old(self)@
            }),
    {
        let ghost before = self.headers@;
        let colon = find_first(line, ':');
        proof {
            lemma_first_at(line@, ':');
        }
        if colon < line.len() {
            let name = trimmed(string_range(line, 0, colon).as_str());
            let value = trimmed(string_range(line, colon + 1, line.len()).as_str());
            assert(line@.subrange(0, colon as int) =~= line@.take(colon as int));
            assert(line@.subrange(colon + 1, line@.len() as int) =~= line@.skip(colon + 1));
            self.headers.push((string_of(&name), string_of(&value)));
            assert(header_models(self.headers@) =~= header_models(before).push((name@, value@)));
        }
    }

    /// Takes one line of the head, other than the one that ends it.
    pub fn on_line(&mut self, line: &str)
        ensures
            final(self)@ == with_line(old(self)@, line@),
    {
        proof {
            reveal_strlit("content-length:");
            reveal_strlit("transfer-encoding:");
        }
        let chars = chars_of(line);
        self.push_header(&chars);
        let small = lower_chars(line);
        let length_name = chars_of("content-length:");
        let coding_name = chars_of("transfer-encoding:");
        assert(small@.skip(0) =~= small@);
        if begins_at(&small, 0, &length_name) {
            let value = trimmed(string_range(&small, 15, small.len()).as_str());
            assert(small@.subrange(15, small@.len() as int) =~= small@.skip(15));
            self.content_length = read_unsigned(&value, 10, u64::MAX);
        } else if begins_at(&small, 0, &coding_name) {
            let value = trimmed(string_range(&small, 18, small.len()).as_str());
            assert(small@.subrange(18, small@.len() as int) =~= small@.skip(18));
            if contains_text(string_of(&value).as_str(), "chunked") {
                self.chunked = true;
            }
        }
    }

    /// Ends the head: what was read, with the status from before it.
    pub fn finish(self, status: u16) -> (r: Response)
        ensures
            r.status == status,
            header_models(r.headers@) == self@.headers,
            r.kind == kind_of(self@),
    {
        let kind = if self.chunked {
            BodyKind::Chunked
        } else {
            match self.content_length {
                Some(n) => BodyKind::ContentLength(n),
                None => BodyKind::UntilClose,
            }
        };
        Response { status, headers: self.headers, kind }
    }
}

// ---------------------------------------------------------------------------
// Bodies
// ---------------------------------------------------------------------------

/// What reading a body asks of the connection next.
#[derive(Debug, Clone, Copy, PartialEq, Eq, Structural)]
pub enum BodyStep {
    /// Read up to this many bytes of the body.
    Data(usize),
    /// Read the line with the size of a chunk.
    SizeLine,
    /// Read a line behind the last chunk.
    TrailerLine,
    /// Read the two bytes that end a chunk, then hand out this many bytes.
    ChunkEnd(usize),
    /// Hand out this many bytes; none at the end.
    Give(usize),
    /// The body is broken.
    Fail(BodyError),
}

/// How a body can be broken.
#[derive(Debug, Clone, Copy, PartialEq, Eq, Structural)]
pub enum BodyError {
    BadChunkSize,
    Truncated,
}

impl BodyError {
    /// The message of an error.
    pub open spec fn text(self) -> Seq<char> {
        match self {
            BodyError::BadChunkSize => "bad chunk size"@,
            BodyError::Truncated => "chunked body truncated"@,
        }
    }

    /// The message of an error.
    pub fn message(&self) -> (s: &'static str)
        ensures
            s@ == self.text(),
    {
        match self {
            BodyError::BadChunkSize => "bad chunk size",
            BodyError::Truncated => "chunked body truncated",
        }
    }
}

/// A body while it is read.
pub struct BodyReader {
    pub kind: BodyKind,
    pub remaining_in_chunk: u64,
    pub remaining_total: Option<u64>,
    pub done: bool,
    /// How many bytes were handed out.
    pub given: Ghost<nat>,
    /// How many bytes the sizes of chunks announced.
    pub announced: Ghost<nat>,
}

/// The smaller of the room in a buffer and what is left.
pub open spec fn want(room: usize, left: u64) -> usize {
    if room <= left {
        room
    } else {
        left as usize
    }
}

/// The size that begins a chunk, before any semicolon.
pub open spec fn chunk_size_of(line: Seq<char>) -> Option<u64> {
    match parse_unsigned(trim(split_on(trim(line), ';')[0]), 16, u64::MAX as nat) {
        Some(n) => Some(n as u64),
        None => None,
    }
}

/// What reading a body begins with, for a buffer with room for `room` bytes:
/// `in_chunk` bytes are left of a chunk, or `total` of all.
pub open spec fn first_step(kind: BodyKind, in_chunk: u64, total: Option<u64>, done: bool, room: usize) -> BodyStep {
    if done || room == 0 || total == Some(0u64) {
        BodyStep::Give(0)
    } else {
        match kind {
            BodyKind::ContentLength(_) => BodyStep::Data(want(room, total->Some_0)),
            BodyKind::UntilClose => BodyStep::Data(room),
            BodyKind::Chunked => if in_chunk == 0 {
                BodyStep::SizeLine
            } else {
                BodyStep::Data(want(room, in_chunk))
            },
        }
    }
}

/// What follows the line that announces a chunk of `n` bytes.
pub open spec fn size_step(n: u64, room: usize) -> BodyStep {
    if n == 0 {
        BodyStep::TrailerLine
    } else {
        BodyStep::Data(want(room, n))
    }
}

/// What follows a line behind the last chunk.
pub open spec fn trailer_step(line: Seq<char>) -> BodyStep {
    if is_last_line(line) {
        BodyStep::Give(0)
    } else {
        BodyStep::TrailerLine
    }
}

/// What follows `n` bytes of the body, where `in_chunk` were left of a chunk.
pub open spec fn data_step(kind: BodyKind, in_chunk: u64, n: usize) -> BodyStep {
    if kind != BodyKind::Chunked {
        BodyStep::Give(n)
    } else if n == 0 {
        BodyStep::Fail(BodyError::Truncated)
    } else if n == in_chunk {
        BodyStep::ChunkEnd(n)
    } else {
        BodyStep::Give(n)
    }
}

fn wanted(room: usize, left: u64) -> (n: usize)
    ensures
        n == want(room, left),
        n <= room,
        n <= left,
{
    if room as u64 <= left {
        room
    } else {
        left as usize
    }
}

fn read_chunk_size(line: &str) -> (r: Option<u64>)
    ensures
        r == chunk_size_of(line@),
{
    let all = trimmed(line);
    let end = find_first(&all, ';');
    proof {
        lemma_first_piece(all@, ';');
        lemma_first_at(all@, ';');
    }
    let piece = trimmed(string_range(&all, 0, end).as_str());
    assert(all@.subrange(0, end as int) =~= all@.take(end as int));
    read_unsigned(&piece, 16, u64::MAX)
}

impl BodyReader {
    /// What is left of a body with a known length adds up with what was
    /// handed out, and so do the chunks.
    pub open spec fn wf(&self) -> bool {
        match self.kind {
            BodyKind::ContentLength(n) => self.remaining_in_chunk == 0 && match self.remaining_total {
                Some(left) => left + self.given@ == n,
                None => false,
            },
            BodyKind::Chunked => self.remaining_total is None && self.announced@ == self.given@
                + self.remaining_in_chunk,
            BodyKind::UntilClose => self.remaining_total is None && self.remaining_in_chunk == 0,
        }
    }

    pub fn new(kind: BodyKind) -> (b: BodyReader)
        ensures
            b.wf(),
            b.kind == kind,
            b.given@ == 0,
            b.announced@ == 0,
            !b.done,
            b.remaining_in_chunk == 0,
    {
        let remaining_total: Option<u64> = match kind {
            BodyKind::ContentLength(n) => Some(n),
            _ => None,
        };
        BodyReader {
            kind,
            remaining_in_chunk: 0,
            remaining_total,
            done: false,
            given: Ghost(0),
            announced: Ghost(0),
        }
    }

    /// Begins to read into a buffer with room for `room` bytes.
    pub fn begin(&mut self, room: usize) -> (step: BodyStep)
        requires
            old(self).wf(),
        ensures
            final(self).wf(),
            final(self).kind == old(self).kind,
            final(self).remaining_in_chunk == old(self).remaining_in_chunk,
            final(self).remaining_total == old(self).remaining_total,
            final(self).given == old(self).given,
            final(self).announced == old(self).announced,
            final(self).done == (old(self).done || (room > 0 && old(self).remaining_total == Some(0u64))),
            step == first_step(
                old(self).kind,
                old(self).remaining_in_chunk,
                old(self).remaining_total,
                old(self).done,
                room,
            ),
    {
        if self.done || room == 0 {
            return BodyStep::Give(0);
        }
        match self.kind {
            BodyKind::ContentLength(_) => match self.remaining_total {
                Some(left) => {
                    if left == 0 {
                        self.done = true;
                        return BodyStep::Give(0);
                    }
                    BodyStep::Data(wanted(room, left))
                },
                None => BodyStep::Data(room),
            },
            BodyKind::UntilClose => BodyStep::Data(room),
            BodyKind::Chunked => if self.remaining_in_chunk == 0 {
                BodyStep::SizeLine
            } else {
                BodyStep::Data(wanted(room, self.remaining_in_chunk))
            },
        }
    }

    /// Takes the line with the size of a chunk.
    pub fn on_size_line(&mut self, line: &str, room: usize) -> (step: BodyStep)
        requires
            old(self).wf(),
            old(self).kind == BodyKind::Chunked,
            old(self).remaining_in_chunk == 0,
        ensures
            final(self).wf(),
            final(self).kind == old(self).kind,
            final(self).done == old(self).done,
            final(self).given == old(self).given,
            match chunk_size_of(line@) {
                None => step == BodyStep::Fail(BodyError::BadChunkSize) && final(self).remaining_in_chunk == 0
                    && final(self).announced == old(self).announced,
                Some(n) => step == size_step(n, room) && final(self).remaining_in_chunk == n && final(self).announced@ == old(self).announced@ + n,
            },
    {
        match read_chunk_size(line) {
            None => BodyStep::Fail(BodyError::BadChunkSize),
            Some(n) => {
                self.remaining_in_chunk = n;
                self.announced = Ghost(self.announced@ + n as nat);
                if n == 0 {
                    BodyStep::TrailerLine
                } else {
                    BodyStep::Data(wanted(room, n))
                }
            },
        }
    }

    /// Takes a line behind the last chunk: the body ends with an empty one.
    pub fn on_trailer_line(&mut self, line: &str) -> (step: BodyStep)
        requires
            old(self).wf(),
        ensures
            final(self).wf(),
            final(self).kind == old(self).kind,
            final(self).remaining_in_chunk == old(self).remaining_in_chunk,
            final(self).remaining_total == old(self).remaining_total,
            final(self).given == old(self).given,
            final(self).announced == old(self).announced,
            final(self).done == (old(self).done || is_last_line(line@)),
            step == trailer_step(line@),
    {
        if ends_head(line) {
            self.done = true;
            BodyStep::Give(0)
        } else {
            BodyStep::TrailerLine
        }
    }

    /// How many bytes may still come before the next line.
    pub open spec fn allowed(&self) -> int {
        match self.kind {
            BodyKind::ContentLength(_) => self.remaining_total->Some_0 as int,
            BodyKind::Chunked => self.remaining_in_chunk as int,
            BodyKind::UntilClose => usize::MAX as int,
        }
    }

    /// Takes `n` bytes of the body, none if the connection was closed.
    pub fn on_data(&mut self, n: usize) -> (step: BodyStep)
        requires
            old(self).wf(),
            n <= old(self).allowed(),
        ensures
            final(self).wf(),
            final(self).kind == old(self).kind,
            final(self).given@ == old(self).given@ + n,
            final(self).announced == old(self).announced,
            match old(self).kind {
                BodyKind::Chunked => {
                    &&& final(self).done == old(self).done
                    &&& final(self).remaining_in_chunk == old(self).remaining_in_chunk - n
                    &&& step == data_step(old(self).kind, old(self).remaining_in_chunk, n)
                },
                _ => final(self).done == (old(self).done || n == 0) && step == data_step(
                    old(self).kind,
                    old(self).remaining_in_chunk,
                    n,
                ),
            },
    {
        self.given = Ghost(self.given@ + n as nat);
        match self.kind {
            BodyKind::Chunked => {
                if n == 0 {
                    return BodyStep::Fail(BodyError::Truncated);
                }
                self.remaining_in_chunk = self.remaining_in_chunk - n as u64;
                if self.remaining_in_chunk == 0 {
                    BodyStep::ChunkEnd(n)
                } else {
                    BodyStep::Give(n)
                }
            },
            _ => {
                if n == 0 {
                    self.done = true;
                }
                if let Some(left) = self.remaining_total {
                    self.remaining_total = Some(left - n as u64);
                }
                BodyStep::Give(n)
            },
        }
    }

    /// The two bytes that end a chunk were read: its last `n` bytes are
    /// handed out.
    pub fn on_chunk_end(&self, n: usize) -> (step: BodyStep)
        ensures
            step == BodyStep::Give(n),
    {
        BodyStep::Give(n)
    }
}

// ---------------------------------------------------------------------------
// Laws
// ---------------------------------------------------------------------------

/// A body with a known length never gives more than that, and one in chunks
/// never more than their sizes add up to. What is missing is what is left.
pub proof fn law_body_never_overruns(b: BodyReader)
    requires
        b.wf(),
    ensures
        match b.kind {
            BodyKind::ContentLength(n) => b.given@ <= n && (b.given@ == n <==> b.remaining_total == Some(0u64)),
            BodyKind::Chunked => b.given@ <= b.announced@ && (b.given@ == b.announced@ <==> b.remaining_in_chunk == 0),
            BodyKind::UntilClose => true,
        },
{
}

/// What a URL is made of is found in it again: scheme, host, port and path.
#[verifier::spinoff_prover]
pub proof fn law_url_parts(tls: bool, host: Seq<char>, port: u16, path: Seq<char>)
    requires
        first_at(host, '/') == host.len(),
        path.len() > 0,
        path[0] == '/',
    ensures
        ({
            let scheme = if tls {
                "https://"@
            } else {
                "http://"@
            };
            target_of(scheme + host + seq![':'] + decimal(port as nat) + path) == Some(
                TargetModel { tls, host, port, path },
            )
        }),
{
    let scheme = if tls {
        "https://"@
    } else {
        "http://"@
    };
    let digits = decimal(port as nat);
    let authority = host + seq![':'] + digits;
    let rest = authority + path;
    assert(scheme + host + seq![':'] + digits + path =~= scheme + rest);
    lemma_scheme(tls, rest);
    law_decimal_reads_back(port as nat);
    lemma_path_start(host, digits, path);
    assert(rest.take(authority.len() as int) =~= authority);
    assert(rest.skip(authority.len() as int) =~= path);
    lemma_authority(
        host,
        port,
        if tls {
            443
        } else {
            80
        },
    );
}

/// A URL with a scheme is read as one.
proof fn lemma_scheme(tls: bool, rest: Seq<char>)
    ensures
        after_scheme(
            if tls {
                "https://"@
            } else {
                "http://"@
            } + rest,
        ) == Some((tls, rest)),
{
    reveal_strlit("https://");
    reveal_strlit("http://");
    if tls {
        let url = "https://"@ + rest;
        assert(url.take(8) =~= "https://"@);
        assert(url.skip(8) =~= rest);
    } else {
        let url = "http://"@ + rest;
        assert(url.take(7) =~= "http://"@);
        assert(url.skip(7) =~= rest);
        if has_prefix(url, "https://"@) {
            assert(url.take(8)[4] == 's');
        }
    }
}

/// A host and a port are read apart.
proof fn lemma_authority(host: Seq<char>, port: u16, default: u16)
    ensures
        host_and_port(host + seq![':'] + decimal(port as nat), default) == (host, port),
{
    let digits = decimal(port as nat);
    let authority = host + seq![':'] + digits;
    law_decimal_reads_back(port as nat);
    lemma_port_start(host, digits);
    assert(authority.take(host.len() as int) =~= host);
    assert(authority.skip(host.len() as int + 1) =~= digits);
}

/// A path begins at the first slash behind a host and a port.
proof fn lemma_path_start(host: Seq<char>, digits: Seq<char>, path: Seq<char>)
    requires
        first_at(host, '/') == host.len(),
        path.len() > 0,
        path[0] == '/',
        forall|i: int| 0 <= i < digits.len() ==> '0' <= #[trigger] digits[i] <= '9',
    ensures
        first_at(host + seq![':'] + digits + path, '/') == host.len() + 1 + digits.len(),
{
    let authority = host + seq![':'] + digits;
    let rest = authority + path;
    lemma_first_at(host, '/');
    lemma_first_at(rest, '/');
    assert forall|j: int| 0 <= j < authority.len() implies #[trigger] rest[j] != '/' by {
        if j > host.len() {
            assert(rest[j] == digits[j - host.len() - 1]);
        }
    }
    assert(rest[authority.len() as int] == '/');
}

/// A port begins behind the last colon.
proof fn lemma_port_start(host: Seq<char>, digits: Seq<char>)
    requires
        forall|i: int| 0 <= i < digits.len() ==> '0' <= #[trigger] digits[i] <= '9',
    ensures
        last_at(host + seq![':'] + digits, ':') == host.len(),
{
    let authority = host + seq![':'] + digits;
    lemma_last_at(authority, ':');
    assert(authority[host.len() as int] == ':');
    assert forall|j: int| host.len() < j < authority.len() implies #[trigger] authority[j] != ':' by {
        assert(authority[j] == digits[j - host.len() - 1]);
    }
}

/// A `Transfer-Encoding` header that names `chunked`, in any case, alone or
/// anywhere in a list, makes the body one in chunks, whatever the head said
/// before.
pub proof fn law_chunked_coding(h: HeadModel, line: Seq<char>, a: Seq<char>, b: Seq<char>)
    requires
        lower(line) == "transfer-encoding:"@ + a + "chunked"@ + b,
    ensures
        kind_of(with_line(h, line)) == BodyKind::Chunked,
        with_line(h, line).content_length == h.content_length,
{
    reveal_strlit("transfer-encoding:");
    reveal_strlit("content-length:");
    reveal_strlit("chunked");
    let small = lower(line);
    let word = "chunked"@;
    assert(small.take(18) =~= "transfer-encoding:"@);
    assert(small.skip(18) =~= a + word + b);
    assert(!has_prefix(small, "content-length:"@)) by {
        if has_prefix(small, "content-length:"@) {
            assert(small.take(15)[0] == 'c');
        }
    }
    law_trimming_keeps_the_middle(a, word, b);
    law_text_is_found(trim_start(a), word, trim_end(b));
}

/// A `Content-Length` header, in any case and with any white space round the
/// number, gives that number for the length. It replaces an earlier one, and
/// does not undo chunks.
pub proof fn law_length_header(h: HeadModel, line: Seq<char>, a: Seq<char>, n: u64, b: Seq<char>)
    requires
        lower(line) == "content-length:"@ + a + decimal(n as nat) + b,
        all_white(a) && all_white(b),
    ensures
        with_line(h, line).content_length == Some(n),
        with_line(h, line).chunked == h.chunked,
        kind_of(with_line(h, line)) == (if h.chunked {
            BodyKind::Chunked
        } else {
            BodyKind::ContentLength(n)
        }),
{
    reveal_strlit("content-length:");
    let small = lower(line);
    let digits = decimal(n as nat);
    assert(small.take(15) =~= "content-length:"@);
    assert(small.skip(15) =~= a + digits + b);
    law_decimal_reads_back(n as nat);
    assert('0' <= digits[0] <= '9');
    assert('0' <= digits[digits.len() - 1] <= '9');
    law_trimming(a, digits, b);
}

/// A line that begins with neither of these two names, or with a
/// `Transfer-Encoding` in which `chunked` does not stand, says nothing of
/// how the body is framed. Without a word on it the body goes on until the
/// connection is closed.
pub proof fn law_other_lines(h: HeadModel, line: Seq<char>)
    requires
        !has_prefix(lower(line), "content-length:"@),
        !has_prefix(lower(line), "transfer-encoding:"@) || !has_text(lower(line), "chunked"@),
    ensures
        with_line(h, line).content_length == h.content_length,
        with_line(h, line).chunked == h.chunked,
        kind_of(no_lines()) == BodyKind::UntilClose,
{
    let small = lower(line);
    if has_prefix(small, "transfer-encoding:"@) {
        let value = small.skip(18);
        let t = trim(value);
        if has_text(t, "chunked"@) {
            lemma_trimmed_stands(value);
            let k = choose|k: int| stands_at(value, t, k);
            let i = choose|i: int| stands_at(t, "chunked"@, i);
            reveal_strlit("transfer-encoding:");
            let n = "chunked"@.len();
            assert(small.subrange(18 + k + i, 18 + k + i + n) =~= t.subrange(i, i + n)) by {
                assert forall|j: int| 0 <= j < n implies small[18 + k + i + j] == #[trigger] t[i + j] by {
                    assert(value.subrange(k, k + t.len())[i + j] == t[i + j]);
                }
            }
            assert(stands_at(small, "chunked"@, 18 + k + i));
        }
    }
}

/// What is left by trimming stands in what was trimmed.
proof fn lemma_trimmed_stands(s: Seq<char>)
    ensures
        has_text(s, trim(s)),
{
    lemma_trim_start_is_tail(s);
    let t = trim_start(s);
    lemma_trim_end_is_head(t);
    let k = (s.len() - t.len()) as int;
    assert(s.subrange(k, k + trim(s).len()) =~= t.take(trim(s).len() as int));
    assert(stands_at(s, trim(s), k));
}

proof fn lemma_trim_start_is_tail(s: Seq<char>)
    ensures
        trim_start(s).len() <= s.len(),
        trim_start(s) == s.skip(s.len() - trim_start(s).len()),
    decreases s.len(),
{
    if s.len() > 0 && is_white(s[0]) {
        lemma_trim_start_is_tail(s.skip(1));
        let t = trim_start(s);
        assert(s.skip(1).skip(s.len() - 1 - t.len()) =~= s.skip(s.len() - t.len()));
    } else {
        assert(s.skip(0) =~= s);
    }
}

proof fn lemma_trim_end_is_head(s: Seq<char>)
    ensures
        trim_end(s).len() <= s.len(),
        trim_end(s) == s.take(trim_end(s).len() as int),
    decreases s.len(),
{
    if s.len() > 0 && is_white(s.last()) {
        lemma_trim_end_is_head(s.drop_last());
        let t = trim_end(s);
        assert(s.drop_last().take(t.len() as int) =~= s.take(t.len() as int));
    } else {
        assert(s.take(s.len() as int) =~= s);
    }
}

/// A header line is a name, a colon and a value, with white space round
/// either that does not count. It is kept, behind those that came before. A
/// line without a colon is not.
pub proof fn law_header_lines_are_kept(
    h: HeadModel,
    line: Seq<char>,
    a: Seq<char>,
    name: Seq<char>,
    b: Seq<char>,
    c: Seq<char>,
    value: Seq<char>,
    d: Seq<char>,
)
    requires
        all_white(a) && all_white(b) && all_white(c) && all_white(d),
        !name.contains(':'),
        name.len() > 0 ==> !is_white(name[0]) && !is_white(name.last()),
        value.len() > 0 ==> !is_white(value[0]) && !is_white(value.last()),
    ensures
        line == a + name + b + seq![':'] + (c + value + d) ==> with_line(h, line).headers == h.headers.push((name, value)),
        !line.contains(':') ==> with_line(h, line).headers == h.headers,
{
    lemma_first_at(line, ':');
    let left = a + name + b;
    let right = c + value + d;
    if line == left + seq![':'] + right {
        assert forall|j: int| 0 <= j < left.len() implies #[trigger] line[j] != ':' by {
            assert(line[j] == left[j]);
            if j < a.len() {
                assert(is_white(a[j]));
            } else if j < a.len() + name.len() {
                assert(name.contains(name[j - a.len()]));
            } else {
                assert(is_white(b[j - a.len() - name.len()]));
            }
        }
        let i = first_at(line, ':');
        assert(line[left.len() as int] == ':');
        assert(i == left.len());
        assert(line.take(i) =~= left);
        assert(line.skip(i + 1) =~= right);
        law_trimming(a, name, b);
        law_trimming(c, value, d);
    }
    if !line.contains(':') {
        let i = first_at(line, ':');
        if i < line.len() {
            assert(line.contains(line[i]));
        }
    }
}

proof fn lemma_header_from(headers: Seq<(Seq<char>, Seq<char>)>, name: Seq<char>, i: int, j: int)
    requires
        0 <= i <= j <= headers.len(),
        forall|k: int| i <= k < j ==> lower((#[trigger] headers[k]).0) != lower(name),
        j < headers.len() ==> lower(headers[j].0) == lower(name),
    ensures
        header_value(headers, name, i) == (if j < headers.len() {
            Some(headers[j].1)
        } else {
            None
        }),
    decreases j - i,
{
    if i < j {
        assert(lower(headers[i].0) != lower(name));
        lemma_header_from(headers, name, i + 1, j);
    }
}

/// Looking a header up finds the first one that has the name, in any case,
/// and nothing where there is none.
pub proof fn law_header_lookup(headers: Seq<(Seq<char>, Seq<char>)>, name: Seq<char>, j: int)
    requires
        0 <= j <= headers.len(),
        forall|k: int| 0 <= k < j ==> lower((#[trigger] headers[k]).0) != lower(name),
        j < headers.len() ==> lower(headers[j].0) == lower(name),
    ensures
        j < headers.len() ==> header_value(headers, name, 0) == Some(headers[j].1),
        j == headers.len() ==> header_value(headers, name, 0) is None,
{
    lemma_header_from(headers, name, 0, j);
}

/// The status is the number that is the second word of the status line,
/// whatever the version before it and the reason behind it are.
pub proof fn law_status_line(version: Seq<char>, gap: Seq<char>, n: u16, rest: Seq<char>)
    requires
        version.len() > 0,
        forall|i: int| 0 <= i < version.len() ==> !is_white(#[trigger] version[i]),
        gap.len() > 0 && all_white(gap),
        rest.len() > 0 ==> is_white(rest[0]),
    ensures
        status_of(version + gap + decimal(n as nat) + rest) == Some(n),
{
    let digits = decimal(n as nat);
    let line = version + gap + digits + rest;
    law_decimal_reads_back(n as nat);
    assert(line[0] == version[0]);
    assert(!is_white(version[0]));
    let s = trim_start(line);
    assert(s == line);
    let k = version.len() as int;
    assert(is_white(gap[0]));
    assert(line[k] == gap[0]);
    assert forall|j: int| 0 <= j < k implies !is_white(#[trigger] line[j]) by {
        assert(line[j] == version[j]);
    }
    lemma_until_white(line, k);
    assert(line.take(k).len() == k);
    let tail = line.skip(k);
    assert(tail =~= gap + (digits + rest));
    assert('0' <= digits[0] <= '9');
    assert((digits + rest)[0] == digits[0]);
    lemma_gap(gap, digits + rest);
    let t = digits + rest;
    assert forall|j: int| 0 <= j < digits.len() implies !is_white(#[trigger] t[j]) by {
        assert(t[j] == digits[j]);
        assert('0' <= digits[j] <= '9');
    }
    if rest.len() > 0 {
        assert(t[digits.len() as int] == rest[0]);
    }
    lemma_until_white(t, digits.len() as int);
    assert(t.take(digits.len() as int) =~= digits);
    assert(second_word(line) == digits);
}

proof fn lemma_gap(a: Seq<char>, s: Seq<char>)
    requires
        all_white(a),
        s.len() > 0 && !is_white(s[0]),
    ensures
        trim_start(a + s) == s,
    decreases a.len(),
{
    if a.len() == 0 {
        assert(a + s =~= s);
    } else {
        assert(is_white(a[0]));
        assert((a + s)[0] == a[0]);
        assert((a + s).skip(1) =~= a.skip(1) + s);
        assert forall|i: int| 0 <= i < a.skip(1).len() implies is_white(#[trigger] a.skip(1)[i]) by {
            assert(is_white(a[i + 1]));
        }
        lemma_gap(a.skip(1), s);
    }
}

/// The size of a chunk is the hexadecimal number on its line. White space
/// round it, and anything behind a semicolon, does not count.
pub proof fn law_chunk_size_line(a: Seq<char>, hex: Seq<char>, b: Seq<char>, rest: Seq<char>)
    requires
        all_white(a) && all_white(b),
        is_number(hex, 16),
        number_value(hex, 16) <= u64::MAX,
    ensures
        chunk_size_of(a + hex + b) == Some(number_value(hex, 16) as u64),
        chunk_size_of(a + hex + b + seq![';'] + rest) == Some(number_value(hex, 16) as u64),
{
    assert(digit_value(hex[0], 16) is Some);
    assert(digit_value(hex[hex.len() - 1], 16) is Some);
    assert(hex[0] != '+');
    let empty = Seq::<char>::empty();
    law_trimming(a, hex, b);
    law_trimming(empty, hex, b);
    law_trimming(empty, hex, empty);
    assert(empty + hex + b =~= hex + b);
    assert(empty + hex + empty =~= hex);
    lemma_size_piece(hex, empty, empty);
    assert(hex + empty =~= hex);
    let mid = hex + b + seq![';'];
    assert(a + hex + b + seq![';'] + rest =~= a + mid + rest);
    assert(mid[0] == hex[0]);
    law_trimming_keeps_the_middle(a, mid, rest);
    assert(trim_start(a) + mid + trim_end(rest) =~= hex + b + (seq![';'] + trim_end(rest)));
    lemma_size_piece(hex, b, seq![';'] + trim_end(rest));
}

/// A size is what stands before the first semicolon.
proof fn lemma_size_piece(hex: Seq<char>, b: Seq<char>, tail: Seq<char>)
    requires
        is_number(hex, 16),
        all_white(b),
        tail.len() > 0 ==> tail[0] == ';',
    ensures
        split_on(hex + b + tail, ';')[0] == hex + b,
{
    let all = hex + b + tail;
    lemma_first_piece(all, ';');
    lemma_first_at(all, ';');
    assert forall|j: int| 0 <= j < hex.len() + b.len() implies #[trigger] all[j] != ';' by {
        if j < hex.len() {
            assert(digit_value(hex[j], 16) is Some);
        } else {
            assert(is_white(b[j - hex.len()]));
        }
    }
    let n = (hex.len() + b.len()) as int;
    if tail.len() > 0 {
        assert(all[n] == tail[0]);
    }
    assert(first_at(all, ';') == n);
    assert(all.take(n) =~= hex + b);
}

#[verifier::rlimit(60)]
proof fn lemma_header_line_stands(headers: Seq<(Seq<char>, Seq<char>)>, n: int, i: int)
    requires
        0 <= i < n <= headers.len(),
    ensures
        has_text("\r\n"@ + header_lines(headers, n), "\r\n"@ + headers[i].0 + ": "@ + headers[i].1 + "\r\n"@),
    decreases n,
{
    let line = headers[i].0 + ": "@ + headers[i].1 + "\r\n"@;
    let needle = "\r\n"@ + headers[i].0 + ": "@ + headers[i].1 + "\r\n"@;
    let last = headers[n - 1].0 + ": "@ + headers[n - 1].1 + "\r\n"@;
    let before = header_lines(headers, n - 1);
    let all = "\r\n"@ + header_lines(headers, n);
    assert(header_lines(headers, n) =~= before + last);
    if i == n - 1 {
        lemma_lines_end(headers, n - 1);
        let head = "\r\n"@ + before;
        let start = head.take(head.len() - 2);
        reveal_strlit("\r\n");
        assert(head =~= start + "\r\n"@);
        assert(all =~= start + needle + Seq::<char>::empty());
        law_text_is_found(start, needle, Seq::empty());
    } else {
        lemma_header_line_stands(headers, n - 1, i);
        let t = "\r\n"@ + before;
        crate::text::law_found_text_stands(t, needle);
        let (a, b) = choose|a: Seq<char>, b: Seq<char>| t == #[trigger] (a + needle + b);
        assert(all =~= t + last);
        assert(t + last =~= a + needle + (b + last));
        law_text_is_found(a, needle, b + last);
    }
}

proof fn lemma_lines_end(headers: Seq<(Seq<char>, Seq<char>)>, n: int)
    requires
        0 <= n <= headers.len(),
    ensures
        ({
            let s = "\r\n"@ + header_lines(headers, n);
            s.len() >= 2 && s.skip(s.len() - 2) == "\r\n"@
        }),
{
    reveal_strlit("\r\n");
    let s = "\r\n"@ + header_lines(headers, n);
    assert(s.skip(s.len() - 2) =~= "\r\n"@);
}

proof fn lemma_head_pieces()
    ensures
        " HTTP/1.1\r\nHost: "@ == " HTTP/1.1\r\n"@ + "Host: "@,
        " HTTP/1.1\r\nHost: "@ == " HTTP/1.1"@ + "\r\nHost: "@,
        "\r\nConnection: close\r\nContent-Length: "@ == "\r\nConnection: close\r\n"@ + "Content-Length: "@,
        "\r\nConnection: close\r\nContent-Length: "@ == "\r\nConnection: close"@ + "\r\nContent-Length: "@,
        "\r\nConnection: close\r\nContent-Length: "@ == "\r\n"@ + "Connection: close\r\nContent-Length: "@,
        "\r\n\r\n"@ == "\r\n"@ + "\r\n"@,
        "\r\n"@.len() == 2,
{
    reveal_strlit("\r\n");
    reveal_strlit("\r\n\r\n");
    reveal_strlit(" HTTP/1.1\r\n");
    reveal_strlit(" HTTP/1.1\r\nHost: ");
    reveal_strlit(" HTTP/1.1");
    reveal_strlit("\r\nHost: ");
    reveal_strlit("Host: ");
    reveal_strlit("\r\nConnection: close\r\n");
    reveal_strlit("\r\nConnection: close\r\nContent-Length: ");
    reveal_strlit("Connection: close\r\nContent-Length: ");
    reveal_strlit("Content-Length: ");
    reveal_strlit("\r\nConnection: close");
    reveal_strlit("\r\nContent-Length: ");
    assert(" HTTP/1.1\r\nHost: "@ =~= " HTTP/1.1\r\n"@ + "Host: "@);
    assert(" HTTP/1.1\r\nHost: "@ =~= " HTTP/1.1"@ + "\r\nHost: "@);
    assert("\r\nConnection: close\r\nContent-Length: "@ =~= "\r\nConnection: close\r\n"@ + "Content-Length: "@);
    assert("\r\nConnection: close\r\nContent-Length: "@ =~= "\r\nConnection: close"@ + "\r\nContent-Length: "@);
    assert("\r\nConnection: close\r\nContent-Length: "@ =~= "\r\n"@ + "Connection: close\r\nContent-Length: "@);
    assert("\r\n\r\n"@ =~= "\r\n"@ + "\r\n"@);
}

#[verifier::rlimit(60)]
proof fn lemma_head_line_and_host(path: Seq<char>, host: Seq<char>, len: nat, headers: Seq<(Seq<char>, Seq<char>)>)
    ensures
        has_prefix(request_head(path, host, len, headers), "POST "@ + path + " HTTP/1.1\r\n"@),
        has_text(request_head(path, host, len, headers), "\r\nHost: "@ + host + "\r\n"@),
{
    let head = request_head(path, host, len, headers);
    lemma_head_pieces();
    let end = "\r\n"@;
    let close = "\r\nConnection: close\r\nContent-Length: "@;
    let rest = decimal(len) + end + header_lines(headers, headers.len() as int) + end;
    let first = "POST "@ + path + " HTTP/1.1\r\n"@;
    let behind = "Host: "@ + host + close + rest;
    assert(head =~= first + behind);
    law_text_is_found(Seq::empty(), first, behind);
    let a = "POST "@ + path + " HTTP/1.1"@;
    let b = "Connection: close\r\nContent-Length: "@ + rest;
    let needle = "\r\nHost: "@ + host + end;
    assert(head =~= a + needle + b);
    law_text_is_found(a, needle, b);
}

proof fn lemma_head_close_and_length(path: Seq<char>, host: Seq<char>, len: nat, headers: Seq<(Seq<char>, Seq<char>)>)
    ensures
        has_text(request_head(path, host, len, headers), "\r\nConnection: close\r\n"@),
        has_text(request_head(path, host, len, headers), "\r\nContent-Length: "@ + decimal(len) + "\r\n"@),
{
    let head = request_head(path, host, len, headers);
    lemma_head_pieces();
    let end = "\r\n"@;
    let lines = header_lines(headers, headers.len() as int);
    let rest = decimal(len) + end + lines + end;
    let a = "POST "@ + path + " HTTP/1.1\r\nHost: "@ + host;
    let b = "Content-Length: "@ + rest;
    assert(head =~= a + "\r\nConnection: close\r\n"@ + b);
    law_text_is_found(a, "\r\nConnection: close\r\n"@, b);
    let c = a + "\r\nConnection: close"@;
    let needle = "\r\nContent-Length: "@ + decimal(len) + end;
    assert(head =~= c + needle + (lines + end));
    law_text_is_found(c, needle, lines + end);
}

/// A request begins with a line that names the path, and ends with an empty
/// line. It names the host, says that the connection will be closed and how
/// long the body is, and carries every header that it was given, each on a
/// line of its own.
pub proof fn law_request_head(path: Seq<char>, host: Seq<char>, len: nat, headers: Seq<(Seq<char>, Seq<char>)>, i: int)
    ensures
        ({
            let head = request_head(path, host, len, headers);
            &&& has_prefix(head, "POST "@ + path + " HTTP/1.1\r\n"@)
            &&& head.len() >= 4 && head.skip(head.len() - 4) == "\r\n\r\n"@
            &&& has_text(head, "\r\nHost: "@ + host + "\r\n"@)
            &&& has_text(head, "\r\nConnection: close\r\n"@)
            &&& has_text(head, "\r\nContent-Length: "@ + decimal(len) + "\r\n"@)
            &&& 0 <= i < headers.len() ==> has_text(head, "\r\n"@ + headers[i].0 + ": "@ + headers[i].1 + "\r\n"@)
        }),
{
    let head = request_head(path, host, len, headers);
    let n = headers.len() as int;
    let lines = header_lines(headers, n);
    let end = "\r\n"@;
    lemma_head_pieces();
    lemma_head_line_and_host(path, host, len, headers);
    lemma_head_close_and_length(path, host, len, headers);
    let d = "POST "@ + path + " HTTP/1.1\r\nHost: "@ + host + "\r\nConnection: close\r\nContent-Length: "@ + decimal(
        len,
    );
    let block = end + lines;
    assert(head =~= d + block + end);
    lemma_lines_end(headers, n);
    assert(block.skip(block.len() - 2) == end);
    assert(head.skip(head.len() - 4) =~= block.skip(block.len() - 2) + end);
    if 0 <= i < n {
        lemma_header_line_stands(headers, n, i);
        let needle = end + headers[i].0 + ": "@ + headers[i].1 + end;
        crate::text::law_found_text_stands(block, needle);
        let (x, y) = choose|x: Seq<char>, y: Seq<char>| block == #[trigger] (x + needle + y);
        assert(head =~= (d + x) + needle + (y + end));
        law_text_is_found(d + x, needle, y + end);
    }
}

/// A URL without a port leads to the port of its scheme, one without a path
/// to the root.
pub proof fn law_url_defaults(tls: bool, host: Seq<char>, path: Seq<char>)
    requires
        !host.contains('/') && !host.contains(':'),
        path.len() == 0 || path[0] == '/',
    ensures
        target_of(
            if tls {
                "https://"@
            } else {
                "http://"@
            } + host + path,
        ) == Some(
            TargetModel {
                tls,
                host,
                port: if tls {
                    443
                } else {
                    80
                },
                path: if path.len() == 0 {
                    "/"@
                } else {
                    path
                },
            },
        ),
{
    reveal_strlit("/");
    assert("/"@ =~= seq!['/']);
    let scheme = if tls {
        "https://"@
    } else {
        "http://"@
    };
    let rest = host + path;
    assert(scheme + host + path =~= scheme + rest);
    lemma_scheme(tls, rest);
    lemma_first_at(rest, '/');
    assert forall|j: int| 0 <= j < host.len() implies #[trigger] rest[j] != '/' by {
        assert(host.contains(host[j]));
    }
    if path.len() > 0 {
        assert(rest[host.len() as int] == '/');
    }
    assert(first_at(rest, '/') == host.len());
    assert(rest.take(host.len() as int) =~= host);
    assert(rest.skip(host.len() as int) =~= path);
    lemma_last_at(host, ':');
    if last_at(host, ':') >= 0 {
        assert(host.contains(host[last_at(host, ':')]));
    }
}

/// A URL leads somewhere exactly where its scheme is one of the two.
pub proof fn law_other_schemes_lead_nowhere(url: Seq<char>)
    ensures
        target_of(url) is Some <==> has_prefix(url, "http://"@) || has_prefix(url, "https://"@),
{
}

/// The head of a response, and what follows the last chunk, ends at an empty
/// line, whichever way it is ended, or where the connection is.
pub proof fn law_empty_lines_end_heads(line: Seq<char>)
    ensures
        is_last_line(line) <==> line == Seq::<char>::empty() || line == seq!['\n'] || line == seq!['\r', '\n'],
{
    reveal_strlit("\r\n");
    reveal_strlit("\n");
    assert("\r\n"@ =~= seq!['\r', '\n']);
    assert("\n"@ =~= seq!['\n']);
    if line.len() == 0 {
        assert(line =~= Seq::<char>::empty());
    }
}

/// As much is asked for as there is room for, and no more than is left.
pub proof fn law_asking_for_data(room: usize, left: u64)
    ensures
        want(room, left) <= room,
        want(room, left) <= left,
        want(room, left) == room || want(room, left) == left,
{
}

/// Reading asks for bytes wherever some may still come, never for more than
/// there is room for or than are left, and of a chunked body for the size of
/// the next chunk where the last one is used up. Nothing is asked for once
/// all is there.
pub proof fn law_reading_begins(kind: BodyKind, in_chunk: u64, total: Option<u64>, done: bool, room: usize)
    requires
        kind is ContentLength <==> total is Some,
    ensures
        ({
            let step = first_step(kind, in_chunk, total, done, room);
            &&& done || room == 0 ==> step == BodyStep::Give(0)
            &&& !done && room > 0 ==> match kind {
                BodyKind::ContentLength(_) => {
                    &&& total == Some(0u64) ==> step == BodyStep::Give(0)
                    &&& total != Some(0u64) ==> (step matches BodyStep::Data(n) && 0 < n <= room && n <= total->Some_0
                        && (n == room || n == total->Some_0))
                },
                BodyKind::UntilClose => step == BodyStep::Data(room),
                BodyKind::Chunked => {
                    &&& in_chunk == 0 <==> step == BodyStep::SizeLine
                    &&& in_chunk > 0 ==> (step matches BodyStep::Data(n) && 0 < n <= room && n <= in_chunk && (n == room || n
                        == in_chunk))
                },
            }
        }),
{
}

/// A chunk of some size is read, and one of none is the last: lines follow
/// it, up to an empty one.
pub proof fn law_chunks_are_read(n: u64, room: usize, line: Seq<char>)
    requires
        room > 0,
    ensures
        n == 0 <==> size_step(n, room) is TrailerLine,
        n > 0 ==> (size_step(n, room) matches BodyStep::Data(k) && 0 < k <= n && k <= room),
        trailer_step(line) == BodyStep::Give(0) <==> is_last_line(line),
        trailer_step(line) is TrailerLine <==> !is_last_line(line),
{
}

/// What arrives is handed out. The last bytes of a chunk are handed out once
/// its end was read. A connection that is closed is the end of a body, but
/// not inside a chunk.
pub proof fn law_data_is_handed_out(kind: BodyKind, in_chunk: u64, n: usize)
    ensures
        !(kind is Chunked) ==> data_step(kind, in_chunk, n) == BodyStep::Give(n),
        kind is Chunked && n == 0 ==> data_step(kind, in_chunk, n) == BodyStep::Fail(BodyError::Truncated),
        kind is Chunked && 0 < n < in_chunk ==> data_step(kind, in_chunk, n) == BodyStep::Give(n),
        kind is Chunked && 0 < n && n == in_chunk ==> data_step(kind, in_chunk, n) == BodyStep::ChunkEnd(n),
{
}

} // verus!
