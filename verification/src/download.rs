//! Resumable, MAC-verified file download: everything but the reading and
//! writing. Partial files persist next to the target and resume: the bytes
//! already on disk are plaintext, so that a restart feeds them through the
//! chunked MAC again and asks the server only for the remainder.

use vstd::arithmetic::power2::{lemma2_to64, lemma_pow2_unfold, pow2};
use vstd::prelude::*;
use vstd::string::*;

use crate::cipher::{ctr_at, law_stream_resumes, stream_xor, CtrStream};
use crate::crypto::FileKey;
use crate::mac::{chunked_mac, ChunkedMac, MAC_LIMIT};
use crate::path::{join, joined, law_joining};
use crate::text::{
    contains_text, decimal, decimal_int, digit_char, has_prefix, has_text, law_decimal_reads_back,
    law_splitting_undoes_joining, law_text_is_found, parse_unsigned, push_decimal, push_decimal_int,
    split_on, stands_at, with_between,
};

verus! {

/// The longest range that is asked for at once.
pub const FETCH_CHUNK_SIZE: i64 = 268_435_456;

/// How long the server may stay silent, in seconds.
pub const IDLE_TIMEOUT_SECS: u64 = 120;

/// How long a file may take before a failure is final, in seconds.
pub const RETRY_WINDOW_SECS: u64 = 38_400;

/// The highest attempt number, beyond which pauses stay as they are.
pub const MAX_TRIES: u32 = 8;

/// How often a pause is interrupted to look for a cancellation, in
/// milliseconds.
pub const NAP_MILLIS: u64 = 200;

/// Where a file's transfer URL comes from.
#[derive(Debug)]
pub enum UrlSource {
    /// It is known, with the size.
    Known { url: String, size: i64 },
    /// The server is asked for the node with this handle.
    Node { handle: String },
}

/// One file to place at `local_path`.
pub struct FileJob {
    pub local_path: String,
    pub remote_path: String,
    pub size: i64,
    pub handle: String,
    pub key: FileKey,
    /// Where the transfer URL and size come from, again on a retry.
    pub source: UrlSource,
}

/// Progress and lifecycle callbacks that user interfaces hook into.
pub trait Sink {
    fn skip(&mut self, path: &str) {
    }

    fn start(&mut self, path: &str, remote: &str, size: i64) {
    }

    /// A partial file was found on disk and `from` bytes of it are reused.
    fn resume(&mut self, from: i64, total: i64) {
    }

    /// Absolute progress: `done` counts every byte on disk, those carried
    /// over by a resume too, against the full size. It must stay absolute or
    /// a resumed transfer looks like a restart.
    fn progress(&mut self, done: i64, total: i64) {
    }

    fn verifying(&mut self) {
    }

    fn retry(&mut self, reason: &str, detail: &str, attempt: u32, delay_secs: u64) {
    }

    fn done(&mut self, path: &str) {
    }

    fn error(&mut self, path: &str, message: &str) {
    }
}

/// Why fetching stopped.
#[derive(Debug)]
pub enum FetchErr {
    Cancelled,
    /// Transient: worth another attempt.
    Retry(String),
    /// Permanent: retrying cannot help.
    Fatal(String),
}

/// What a failure says.
pub enum FetchErrModel {
    Cancelled,
    Retry(Seq<char>),
    Fatal(Seq<char>),
}

impl View for FetchErr {
    type V = FetchErrModel;

    open spec fn view(&self) -> FetchErrModel {
        match self {
            FetchErr::Cancelled => FetchErrModel::Cancelled,
            FetchErr::Retry(m) => FetchErrModel::Retry(m@),
            FetchErr::Fatal(m) => FetchErrModel::Fatal(m@),
        }
    }
}

impl FetchErr {
    pub fn message(&self) -> (s: String)
        ensures
            s@ == (match self@ {
                FetchErrModel::Cancelled => "cancelled"@,
                FetchErrModel::Retry(m) => m,
                FetchErrModel::Fatal(m) => m,
            }),
    {
        match self {
            FetchErr::Cancelled => "cancelled".to_owned(),
            FetchErr::Retry(m) => m.clone(),
            FetchErr::Fatal(m) => m.clone(),
        }
    }
}

// ---------------------------------------------------------------------------
// Names and messages
// ---------------------------------------------------------------------------

/// What an optional text says.
pub open spec fn option_text(s: Option<&str>) -> Option<Seq<char>> {
    match s {
        Some(t) => Some(t@),
        None => None,
    }
}

/// Where the partial file of a node is kept.
pub open spec fn partial_path(dir: Option<Seq<char>>, handle: Seq<char>) -> Seq<char> {
    joined(
        match dir {
            Some(d) => d,
            None => "."@,
        },
        ".megatmp."@ + handle,
    )
}

/// Where the partial file of the node with handle `handle` is kept, in the
/// directory of the target.
pub fn tmp_path(dir: Option<&str>, handle: &str) -> (path: String)
    ensures
        path@ == partial_path(option_text(dir), handle@),
{
    let mut name = String::new();
    name.append(".megatmp.");
    name.append(handle);
    assert(name@ =~= ".megatmp."@ + handle@);
    match dir {
        Some(d) => join(d, name.as_str()),
        None => join(".", name.as_str()),
    }
}

/// The address of the bytes from `from` up to `end`.
pub open spec fn range_address(url: Seq<char>, from: int, end: int) -> Seq<char> {
    url + seq!['/'] + decimal_int(from) + seq!['-'] + decimal_int(end - 1)
}

/// The address of the bytes from `from` up to `end`.
pub fn range_url(url: &str, from: i64, end: i64) -> (address: String)
    requires
        0 <= from < end,
    ensures
        address@ == range_address(url@, from as int, end as int),
{
    let mut address = url.to_owned();
    address.push('/');
    push_decimal_int(&mut address, from);
    address.push('-');
    push_decimal_int(&mut address, end - 1);
    assert(address@ =~= range_address(url@, from as int, end as int));
    address
}

/// What a status other than success means.
pub open spec fn status_text(status: u16) -> Seq<char> {
    if status == 509 {
        "Server returned 509 (over quota)"@
    } else if status == 500 {
        "Server returned 500 (probably busy)"@
    } else {
        "Server returned "@ + decimal(status as nat)
    }
}

/// What a status other than success means.
pub fn http_status_msg(status: u16) -> (message: String)
    ensures
        message@ == status_text(status),
{
    match status {
        509 => "Server returned 509 (over quota)".to_owned(),
        500 => "Server returned 500 (probably busy)".to_owned(),
        _ => {
            let mut message = String::new();
            message.append("Server returned ");
            push_decimal(&mut message, status as u64);
            assert(message@ =~= "Server returned "@ + decimal(status as nat));
            message
        },
    }
}

/// A failure in words, by what its message holds.
pub open spec fn reason_of(msg: Seq<char>) -> Seq<char> {
    if has_text(msg, "509"@) {
        "transfer quota exceeded"@
    } else if has_text(msg, "500"@) || has_text(msg, "502"@) || has_text(msg, "503"@) || has_text(msg, "504"@) {
        "server busy"@
    } else if has_text(msg, "no data"@) {
        "no data from server"@
    } else {
        "connection failed"@
    }
}

/// A failure in words.
pub fn retry_reason(msg: &str) -> (reason: String)
    ensures
        reason@ == reason_of(msg@),
{
    if contains_text(msg, "509") {
        "transfer quota exceeded".to_owned()
    } else if contains_text(msg, "500") || contains_text(msg, "502") || contains_text(msg, "503") || contains_text(
        msg,
        "504",
    ) {
        "server busy".to_owned()
    } else if contains_text(msg, "no data") {
        "no data from server".to_owned()
    } else {
        "connection failed".to_owned()
    }
}

/// The message for a server that stays silent.
pub fn idle_message() -> (message: String)
    ensures
        message@ == "no data received for "@ + decimal(IDLE_TIMEOUT_SECS as nat) + seq!['s'],
{
    let mut message = String::new();
    message.append("no data received for ");
    push_decimal(&mut message, IDLE_TIMEOUT_SECS);
    message.push('s');
    assert(message@ =~= "no data received for "@ + decimal(IDLE_TIMEOUT_SECS as nat) + seq!['s']);
    message
}

/// What comes before a file is fetched.
#[derive(Debug, Clone, Copy, PartialEq, Eq, Structural)]
pub enum Preparation {
    /// It is there already: nothing is fetched, and all is well.
    Skip,
    /// Its directory is made.
    MakeDir,
    /// Nothing.
    Fetch,
}

/// What comes before a file is fetched, by whether it exists and which
/// directory it goes to.
pub open spec fn preparation(exists: bool, dir: Option<Seq<char>>) -> Preparation {
    if exists {
        Preparation::Skip
    } else if dir matches Some(d) && d.len() > 0 {
        Preparation::MakeDir
    } else {
        Preparation::Fetch
    }
}

/// Looks at what is on disk before a file is fetched: whether it `exists`,
/// and which directory it goes to.
pub fn prepare(exists: bool, dir: Option<&str>) -> (p: Preparation)
    ensures
        p == preparation(exists, option_text(dir)),
{
    if exists {
        return Preparation::Skip;
    }
    if let Some(d) = dir {
        if !d.is_empty() {
            return Preparation::MakeDir;
        }
    }
    Preparation::Fetch
}

/// How fetching a file ended.
pub enum Ending {
    /// It is complete.
    Done,
    /// The user stopped it: that is no error, the partial file stays.
    Cancelled,
    /// It failed, for this reason.
    Failed(String),
}

/// How fetching a file ended.
pub fn ending(outcome: Result<(), FetchErr>) -> (e: Ending)
    ensures
        match outcome {
            Ok(()) => e is Done,
            Err(FetchErr::Cancelled) => e is Cancelled,
            Err(FetchErr::Retry(m)) => e == Ending::Failed(m),
            Err(FetchErr::Fatal(m)) => e == Ending::Failed(m),
        },
{
    match outcome {
        Ok(()) => Ending::Done,
        Err(FetchErr::Cancelled) => Ending::Cancelled,
        Err(FetchErr::Retry(m)) => Ending::Failed(m),
        Err(FetchErr::Fatal(m)) => Ending::Failed(m),
    }
}

/// The message for a partial file with more in it than the remote file.
pub open spec fn too_large_text(tmp: Seq<char>) -> Seq<char> {
    "unfinished download "@ + tmp + " is larger than the remote file (remove it to fix this)"@
}

/// The message for a range of which `got` of `want` bytes came.
pub open spec fn early_text(got: int, want: int) -> Seq<char> {
    "server closed the connection early ("@ + decimal_int(got) + " of "@ + decimal_int(want) + " bytes)"@
}

// ---------------------------------------------------------------------------
// One file
// ---------------------------------------------------------------------------

/// Where the range ends that is fetched from `pos` on.
pub open spec fn range_end(pos: int, size: int) -> int {
    if size - pos <= FETCH_CHUNK_SIZE {
        size
    } else {
        pos + FETCH_CHUNK_SIZE
    }
}

/// What to do after an attempt at a range.
#[derive(Debug)]
pub enum AttemptStep {
    /// Go on with the next range.
    Next,
    /// Wait, then go on where this attempt stopped.
    Wait { reason: String, detail: String, attempt: u32, delay_secs: u64 },
    /// Give up.
    Stop(FetchErr),
}

/// The pause before attempt number `n`, in seconds.
fn backoff(n: u32) -> (secs: u64)
    requires
        n <= MAX_TRIES,
    ensures
        secs == pow2(n as nat),
        n >= 1 ==> 2 <= secs <= 256,
{
    proof {
        lemma2_to64();
    }
    match n {
        0 => 1,
        1 => 2,
        2 => 4,
        3 => 8,
        4 => 16,
        5 => 32,
        6 => 64,
        7 => 128,
        _ => 256,
    }
}

/// The number of the next attempt, after one that failed: counted on up to
/// the highest, or from one where there was progress.
pub open spec fn next_attempt(tries: u32, progress: bool) -> u32 {
    if progress {
        1
    } else if tries < MAX_TRIES {
        (tries + 1) as u32
    } else {
        MAX_TRIES
    }
}

/// What a download does next, with `len` of `total` bytes on disk.
pub open spec fn step_at(len: int, total: i64, url_due: bool) -> FetchStep {
    if len >= total {
        FetchStep::Complete
    } else if url_due {
        FetchStep::Resolve
    } else {
        FetchStep::Range { from: len as i64, end: range_end(len, total as int) as i64 }
    }
}

/// How much of a partial file of `len` bytes is reused, if it is not larger
/// than the file.
pub open spec fn reused_of(len: nat, total: i64) -> Option<Option<i64>> {
    if len > total {
        None
    } else if len > 0 {
        Some(Some(len as i64))
    } else {
        Some(None)
    }
}

/// A status of success.
pub open spec fn is_success(status: u16) -> bool {
    status == 200 || status == 201
}

/// A file while it is fetched.
pub struct Fetch {
    key: FileKey,
    size: i64,
    mac: ChunkedMac,
    pos: i64,
    from: i64,
    end: i64,
    stream: CtrStream,
    tries: u32,
    stale: bool,
}

/// What a download does next.
#[derive(Debug, Clone, Copy, PartialEq, Eq, Structural)]
pub enum FetchStep {
    /// The file is complete.
    Complete,
    /// Find out the transfer URL and size, again.
    Resolve,
    /// Ask for this range.
    Range { from: i64, end: i64 },
}

impl Fetch {
    /// The plaintext that is on disk.
    pub closed spec fn data(&self) -> Seq<u8> {
        self.mac@
    }

    /// The key that the file is encrypted with.
    pub closed spec fn file_key(&self) -> FileKey {
        self.key
    }

    /// The size of the remote file.
    pub closed spec fn total(&self) -> i64 {
        self.size
    }

    /// The range that is being fetched.
    pub closed spec fn range(&self) -> (int, int) {
        (self.from as int, self.end as int)
    }

    /// How many bytes of the stream were decrypted, from the start of the
    /// file on.
    pub closed spec fn decrypted(&self) -> nat {
        self.stream.pos()
    }

    /// The number of the last attempt that failed, counted since the last
    /// progress.
    pub closed spec fn attempts(&self) -> u32 {
        self.tries
    }

    /// The transfer URL is from before the last attempt that failed: it has
    /// to be found out again.
    pub closed spec fn url_due(&self) -> bool {
        self.stale
    }

    pub closed spec fn wf(&self) -> bool {
        &&& self.mac.wf()
        &&& self.mac.key() == self.key.aes@
        &&& self.mac.nonce() == self.key.nonce@
        &&& self.stream.key() == self.key.aes@
        &&& self.stream.nonce() == self.key.nonce@
        &&& self.pos == self.mac@.len()
        &&& self.mac@.len() <= MAC_LIMIT
        &&& 0 <= self.from <= self.end
        &&& self.from <= self.pos
        &&& self.tries <= MAX_TRIES
    }

    /// Begins a file of `size` bytes, whose transfer URL came with the size.
    pub fn start(key: FileKey, size: i64) -> (f: Fetch)
        ensures
            f.wf(),
            f.file_key() == key,
            f.total() == size,
            f.data() == Seq::<u8>::empty(),
            f.attempts() == 0,
            !f.url_due(),
    {
        Fetch {
            key,
            size,
            mac: ChunkedMac::new(key.aes, key.nonce),
            pos: 0,
            from: 0,
            end: 0,
            stream: ctr_at(key.aes, key.nonce, 0),
            tries: 0,
            stale: false,
        }
    }

    /// The transfer URL was found out again, with the size of the file.
    pub fn on_url(&mut self, size: i64)
        requires
            old(self).wf(),
        ensures
            final(self).wf(),
            !final(self).url_due(),
            final(self).total() == size,
            final(self).data() == old(self).data(),
            final(self).file_key() == old(self).file_key(),
            final(self).range() == old(self).range(),
            final(self).attempts() == old(self).attempts(),
    {
        self.size = size;
        self.stale = false;
    }

    /// How many bytes are on disk.
    pub fn position(&self) -> (pos: i64)
        requires
            self.wf(),
        ensures
            pos == self.data().len(),
    {
        self.pos
    }

    /// Whether `n` bytes more can be taken. No file is long enough for this
    /// to fail.
    pub fn has_room(&self, n: usize) -> (b: bool)
        requires
            self.wf(),
        ensures
            b == (self.data().len() + n <= MAC_LIMIT),
    {
        n as u64 <= MAC_LIMIT - self.pos as u64
    }

    /// Takes bytes that were found in the partial file.
    pub fn feed_partial(&mut self, bytes: &[u8])
        requires
            old(self).wf(),
            old(self).data().len() + bytes@.len() <= MAC_LIMIT,
        ensures
            final(self).wf(),
            final(self).data() == old(self).data() + bytes@,
            final(self).file_key() == old(self).file_key(),
            final(self).total() == old(self).total(),
            final(self).attempts() == old(self).attempts(),
            final(self).url_due() == old(self).url_due(),
    {
        self.mac.update(bytes);
        self.pos = self.pos + bytes.len() as i64;
    }

    /// The partial file, called `tmp`, was read to its end: tells how much
    /// of it is reused, if any.
    pub fn resumed(&self, tmp: &str) -> (r: Result<Option<i64>, FetchErr>)
        requires
            self.wf(),
        ensures
            match r {
                Ok(reused) => reused_of(self.data().len(), self.total()) == Some(reused),
                Err(e) => reused_of(self.data().len(), self.total()) is None && e@ == FetchErrModel::Fatal(
                    too_large_text(tmp@),
                ),
            },
    {
        if self.pos > self.size {
            let mut message = String::new();
            message.append("unfinished download ");
            message.append(tmp);
            message.append(" is larger than the remote file (remove it to fix this)");
            assert(message@ =~= too_large_text(tmp@));
            return Err(FetchErr::Fatal(message));
        }
        if self.pos > 0 {
            Ok(Some(self.pos))
        } else {
            Ok(None)
        }
    }

    /// The next attempt: the range from what is on disk on, with a transfer
    /// URL from after the last attempt that failed. There is none once the
    /// file is complete.
    pub fn next_step(&mut self) -> (step: FetchStep)
        requires
            old(self).wf(),
        ensures
            final(self).wf(),
            final(self).data() == old(self).data(),
            final(self).file_key() == old(self).file_key(),
            final(self).total() == old(self).total(),
            final(self).attempts() == old(self).attempts(),
            final(self).url_due() == old(self).url_due(),
            step == step_at(old(self).data().len() as int, old(self).total(), old(self).url_due()),
            match step {
                FetchStep::Complete => true,
                FetchStep::Resolve => final(self).range() == (
                    old(self).data().len() as int,
                    old(self).data().len() as int,
                ),
                FetchStep::Range { from, end } => {
                    &&& from == old(self).data().len()
                    &&& end == range_end(from as int, old(self).total() as int)
                    &&& final(self).range() == (from as int, end as int)
                    &&& final(self).decrypted() == from
                },
            },
    {
        if self.pos >= self.size {
            return FetchStep::Complete;
        }
        self.from = self.pos;
        if self.stale {
            self.end = self.pos;
            return FetchStep::Resolve;
        }
        let end: i64 = if self.size - self.pos <= FETCH_CHUNK_SIZE {
            self.size
        } else {
            self.pos + FETCH_CHUNK_SIZE
        };
        self.end = end;
        self.stream = ctr_at(self.key.aes, self.key.nonce, self.pos as u64);
        FetchStep::Range { from: self.pos, end }
    }

    /// Looks at the status that came for a range.
    pub fn on_status(&self, status: u16) -> (r: Result<(), FetchErr>)
        ensures
            match r {
                Ok(()) => is_success(status),
                Err(e) => !is_success(status) && e@ == FetchErrModel::Retry(status_text(status)),
            },
    {
        if status != 200 && status != 201 {
            return Err(FetchErr::Retry(http_status_msg(status)));
        }
        Ok(())
    }

    /// Decrypts bytes of the range, in place, before they are written.
    pub fn decrypt(&mut self, bytes: &mut [u8])
        requires
            old(self).wf(),
            old(self).decrypted() == old(self).data().len(),
            old(self).data().len() + old(bytes)@.len() <= MAC_LIMIT,
        ensures
            final(self).wf(),
            final(self).data() == old(self).data(),
            final(self).file_key() == old(self).file_key(),
            final(self).total() == old(self).total(),
            final(self).range() == old(self).range(),
            final(self).attempts() == old(self).attempts(),
            final(self).url_due() == old(self).url_due(),
            final(self).decrypted() == old(self).decrypted() + old(bytes)@.len(),
            final(bytes)@ == stream_xor(
                old(self).file_key().aes@,
                old(self).file_key().nonce@,
                old(self).data().len(),
                old(bytes)@,
            ),
    {
        self.stream.apply_keystream(bytes);
    }

    /// Takes the bytes that were decrypted, once they are on disk.
    pub fn commit(&mut self, bytes: &[u8])
        requires
            old(self).wf(),
            old(self).data().len() + bytes@.len() <= MAC_LIMIT,
            old(self).decrypted() == old(self).data().len() + bytes@.len(),
        ensures
            final(self).wf(),
            final(self).data() == old(self).data() + bytes@,
            final(self).decrypted() == final(self).data().len(),
            final(self).file_key() == old(self).file_key(),
            final(self).total() == old(self).total(),
            final(self).range() == old(self).range(),
            final(self).attempts() == old(self).attempts(),
            final(self).url_due() == old(self).url_due(),
    {
        self.mac.update(bytes);
        self.pos = self.pos + bytes.len() as i64;
    }

    /// The body of the range came to its end.
    pub fn end_range(&self) -> (r: Result<(), FetchErr>)
        requires
            self.wf(),
        ensures
            match r {
                Ok(()) => self.data().len() == self.range().1,
                Err(e) => self.data().len() != self.range().1 && e@ == FetchErrModel::Retry(
                    early_text(self.data().len() - self.range().0, self.range().1 - self.range().0),
                ),
            },
    {
        if self.pos != self.end {
            let mut message = String::new();
            message.append("server closed the connection early (");
            push_decimal_int(&mut message, self.pos - self.from);
            message.append(" of ");
            push_decimal_int(&mut message, self.end - self.from);
            message.append(" bytes)");
            assert(message@ =~= early_text(self.pos - self.from, self.end - self.from));
            return Err(FetchErr::Retry(message));
        }
        Ok(())
    }

    /// An attempt at the range is over. A transient failure is answered with
    /// a pause that doubles each time, up to a limit; progress starts it
    /// anew. After the pause the transfer URL is found out again.
    pub fn after_attempt(&mut self, outcome: Result<(), FetchErr>, cancelled: bool, late: bool) -> (step: AttemptStep)
        requires
            old(self).wf(),
        ensures
            final(self).wf(),
            final(self).data() == old(self).data(),
            final(self).file_key() == old(self).file_key(),
            final(self).total() == old(self).total(),
            final(self).url_due() == (step is Wait || (old(self).url_due() && !(step is Next))),
            match outcome {
                Ok(()) => step is Next && final(self).attempts() == 0,
                Err(FetchErr::Cancelled) => {
                    &&& step matches AttemptStep::Stop(e)
                    &&& e@ == FetchErrModel::Cancelled
                    &&& final(self).attempts() == old(self).attempts()
                },
                Err(FetchErr::Fatal(m)) => {
                    &&& step matches AttemptStep::Stop(e)
                    &&& e@ == FetchErrModel::Fatal(m@)
                    &&& final(self).attempts() == old(self).attempts()
                },
                Err(FetchErr::Retry(m)) => if cancelled {
                    &&& step matches AttemptStep::Stop(e)
                    &&& e@ == FetchErrModel::Cancelled
                    &&& final(self).attempts() == old(self).attempts()
                } else if late {
                    &&& step matches AttemptStep::Stop(e)
                    &&& e@ == FetchErrModel::Fatal("data download failed: "@ + m@)
                    &&& final(self).attempts() == old(self).attempts()
                } else {
                    &&& step matches AttemptStep::Wait { reason, detail, attempt, delay_secs }
                    &&& reason@ == reason_of(m@)
                    &&& detail@ == m@
                    &&& attempt == final(self).attempts()
                    &&& attempt == next_attempt(
                        old(self).attempts(),
                        old(self).data().len() > old(self).range().0,
                    )
                    &&& delay_secs == pow2(attempt as nat)
                    &&& 2 <= delay_secs <= 256
                },
            },
    {
        match outcome {
            Ok(()) => {
                self.tries = 0;
                self.stale = false;
                AttemptStep::Next
            },
            Err(FetchErr::Cancelled) => AttemptStep::Stop(FetchErr::Cancelled),
            Err(FetchErr::Fatal(m)) => AttemptStep::Stop(FetchErr::Fatal(m)),
            Err(FetchErr::Retry(m)) => {
                if cancelled {
                    return AttemptStep::Stop(FetchErr::Cancelled);
                }
                if late {
                    let mut message = String::new();
                    message.append("data download failed: ");
                    message.append(m.as_str());
                    assert(message@ =~= "data download failed: "@ + m@);
                    return AttemptStep::Stop(FetchErr::Fatal(message));
                }
                if self.pos > self.from {
                    self.tries = 0;
                }
                if self.tries < MAX_TRIES {
                    self.tries = self.tries + 1;
                }
                self.stale = true;
                AttemptStep::Wait {
                    reason: retry_reason(m.as_str()),
                    detail: m,
                    attempt: self.tries,
                    delay_secs: backoff(self.tries),
                }
            },
        }
    }

    /// Holds the MAC of what is on disk against the one in the key.
    pub fn verify(self) -> (r: Result<(), FetchErr>)
        requires
            self.wf(),
        ensures
            ({
                let key = self.file_key();
                let mac = chunked_mac(key.aes@, key.nonce@, self.data());
                match r {
                    Ok(()) => mac == key.meta_mac@,
                    Err(e) => mac != key.meta_mac@ && e@ == FetchErrModel::Fatal("MAC mismatch"@),
                }
            }),
    {
        let want = self.key.meta_mac;
        let sum = self.mac.finish();
        if same_eight(&sum, &want) {
            Ok(())
        } else {
            Err(FetchErr::Fatal("MAC mismatch".to_owned()))
        }
    }
}

fn same_eight(a: &[u8; 8], b: &[u8; 8]) -> (r: bool)
    ensures
        r == (a@ == b@),
{
    let mut i: usize = 0;
    while i < 8
        invariant
            i <= 8,
            forall|j: int| 0 <= j < i ==> #[trigger] a@[j] == b@[j],
        decreases 8 - i,
    {
        if a[i] != b[i] {
            return false;
        }
        i += 1;
    }
    assert(a@ =~= b@);
    true
}

// ---------------------------------------------------------------------------
// Pauses
// ---------------------------------------------------------------------------

/// What to do next in a pause.
#[derive(Debug, Clone, Copy, PartialEq, Eq, Structural)]
pub enum NapStep {
    /// Sleep this many milliseconds.
    Sleep(u64),
    /// The pause is over, or it was cancelled.
    Over { cancelled: bool },
}

/// What to do with `left` milliseconds of a pause to go.
pub open spec fn nap(left: u64, cancelled: bool) -> NapStep {
    if cancelled || left == 0 {
        NapStep::Over { cancelled }
    } else if left <= NAP_MILLIS {
        NapStep::Sleep(left)
    } else {
        NapStep::Sleep(NAP_MILLIS)
    }
}

/// A pause that can be cancelled.
pub struct Pause {
    pub left_millis: u64,
}

impl Pause {
    pub fn new(secs: u64) -> (p: Pause)
        requires
            1000 * secs <= u64::MAX,
        ensures
            p.left_millis == 1000 * secs,
    {
        Pause { left_millis: 1000 * secs }
    }

    /// Sleeps in short steps. A cancellation ends the pause.
    pub fn next(&mut self, cancelled: bool) -> (step: NapStep)
        ensures
            step == nap(old(self).left_millis, cancelled),
            final(self).left_millis == old(self).left_millis - match step {
                NapStep::Sleep(ms) => ms as int,
                NapStep::Over { .. } => 0,
            },
    {
        if cancelled || self.left_millis == 0 {
            return NapStep::Over { cancelled };
        }
        let ms: u64 = if self.left_millis <= NAP_MILLIS {
            self.left_millis
        } else {
            NAP_MILLIS
        };
        self.left_millis = self.left_millis - ms;
        NapStep::Sleep(ms)
    }
}

// ---------------------------------------------------------------------------
// Laws
// ---------------------------------------------------------------------------

/// What is on disk is the file decrypted up to there, and stays so: a range
/// that goes on where it ends, decrypted at its own place in the stream,
/// extends it. So a download that was interrupted anywhere ends as one that
/// was not.
pub proof fn law_resumed_download_is_whole(key: FileKey, file: Seq<u8>, data: Seq<u8>, to: int)
    requires
        data.len() <= to <= file.len(),
        data == stream_xor(key.aes@, key.nonce@, 0, file.take(data.len() as int)),
    ensures
        data + stream_xor(key.aes@, key.nonce@, data.len(), file.subrange(data.len() as int, to)) == stream_xor(
            key.aes@,
            key.nonce@,
            0,
            file.take(to),
        ),
{
    let n = data.len() as int;
    assert(file.take(to) =~= file.take(n) + file.subrange(n, to));
    law_stream_resumes(key.aes@, key.nonce@, 0, file.take(n), file.subrange(n, to));
}

/// Pieces, one after the other.
pub open spec fn together(pieces: Seq<Seq<u8>>) -> Seq<u8>
    decreases pieces.len(),
{
    if pieces.len() == 0 {
        Seq::empty()
    } else {
        together(pieces.drop_last()) + pieces.last()
    }
}

/// What is on disk after pieces of the encrypted file came in: each is
/// decrypted where the one before it ended.
pub open spec fn after_pieces(key: FileKey, data: Seq<u8>, pieces: Seq<Seq<u8>>) -> Seq<u8>
    decreases pieces.len(),
{
    if pieces.len() == 0 {
        data
    } else {
        let before = after_pieces(key, data, pieces.drop_last());
        before + stream_xor(key.aes@, key.nonce@, before.len(), pieces.last())
    }
}

/// It does not matter how the encrypted bytes are cut into pieces: what is
/// on disk is what decrypting them in one piece gives.
pub proof fn law_pieces_do_not_matter(key: FileKey, data: Seq<u8>, pieces: Seq<Seq<u8>>)
    ensures
        after_pieces(key, data, pieces) == data + stream_xor(key.aes@, key.nonce@, data.len(), together(pieces)),
    decreases pieces.len(),
{
    if pieces.len() == 0 {
        assert(stream_xor(key.aes@, key.nonce@, data.len(), together(pieces)) =~= Seq::empty());
        assert(data + Seq::<u8>::empty() =~= data);
    } else {
        let rest = pieces.drop_last();
        law_pieces_do_not_matter(key, data, rest);
        let a = stream_xor(key.aes@, key.nonce@, data.len(), together(rest));
        law_stream_resumes(key.aes@, key.nonce@, data.len(), together(rest), pieces.last());
        let b = stream_xor(key.aes@, key.nonce@, data.len() + together(rest).len(), pieces.last());
        assert((data + a).len() == data.len() + together(rest).len());
        assert((data + a) + b =~= data + (a + b));
    }
}

/// The ends of the ranges in which a file of `size` bytes is fetched from
/// `pos` on, when nothing fails.
pub open spec fn range_ends(pos: int, size: int) -> Seq<int>
    decreases size - pos,
{
    if pos >= size {
        Seq::empty()
    } else {
        seq![range_end(pos, size)] + range_ends(range_end(pos, size), size)
    }
}

/// Ranges cover what is left of a file without gap or overlap: each begins
/// where the one before it ends, none is empty or longer than allowed, and
/// the last one ends with the file.
pub proof fn law_ranges_cover(pos: int, size: int)
    requires
        pos < size,
    ensures
        ({
            let ends = range_ends(pos, size);
            &&& ends.len() > 0
            &&& ends.last() == size
            &&& pos < ends[0] <= pos + FETCH_CHUNK_SIZE
            &&& forall|i: int|
                1 <= i < ends.len() ==> ends[i - 1] < #[trigger] ends[i] <= ends[i - 1] + FETCH_CHUNK_SIZE
        }),
    decreases size - pos,
{
    let end = range_end(pos, size);
    let ends = range_ends(pos, size);
    if end < size {
        law_ranges_cover(end, size);
        let rest = range_ends(end, size);
        assert forall|i: int| 1 <= i < ends.len() implies ends[i - 1] < #[trigger] ends[i] <= ends[i - 1]
            + FETCH_CHUNK_SIZE by {
            assert(ends[i] == rest[i - 1]);
            if i > 1 {
                assert(ends[i - 1] == rest[i - 2]);
            }
        }
        assert(ends.last() == rest.last());
    } else {
        assert(range_ends(end, size) =~= Seq::empty());
    }
}

/// The address of a range begins with the transfer URL and a slash. What
/// follows are two numbers with one dash between them: the first and the
/// last byte of the range, the very first byte of the file too.
pub proof fn law_range_address_reads_back(url: Seq<char>, from: int, end: int, max: nat)
    requires
        0 <= from < end,
        end - 1 <= max,
    ensures
        ({
            let s = range_address(url, from, end);
            let tail = s.skip(url.len() as int + 1);
            let numbers = split_on(tail, '-');
            &&& s.len() > url.len() + 1
            &&& s.take(url.len() as int) == url
            &&& s[url.len() as int] == '/'
            &&& numbers.len() == 2
            &&& parse_unsigned(numbers[0], 10, max) == Some(from as nat)
            &&& parse_unsigned(numbers[1], 10, max) == Some((end - 1) as nat)
            &&& forall|i: int| 0 <= i < tail.len() ==> #[trigger] tail[i] == '-' || '0' <= tail[i] <= '9'
        }),
{
    let s = range_address(url, from, end);
    let a = decimal(from as nat);
    let b = decimal((end - 1) as nat);
    law_decimal_reads_back(from as nat);
    law_decimal_reads_back((end - 1) as nat);
    let tail = s.skip(url.len() as int + 1);
    assert(s.take(url.len() as int) =~= url);
    assert(tail =~= a.push('-') + b);
    let parts = seq![a, b];
    assert(parts.drop_last() =~= seq![a]);
    assert(with_between(seq![a], '-') == a);
    assert(with_between(parts, '-') == a.push('-') + b);
    assert forall|i: int| 0 <= i < parts.len() implies !(#[trigger] parts[i]).contains('-') by {
        if parts[i].contains('-') {
            let j = choose|j: int| 0 <= j < parts[i].len() && parts[i][j] == '-';
            assert(i == 0 ==> '0' <= a[j] <= '9');
            assert(i == 1 ==> '0' <= b[j] <= '9');
        }
    }
    law_splitting_undoes_joining(parts, '-');
    assert forall|i: int| 0 <= i < tail.len() implies #[trigger] tail[i] == '-' || '0' <= tail[i] <= '9' by {
        if i < a.len() {
            assert(tail[i] == a[i]);
        } else if i > a.len() {
            assert(tail[i] == b[i - a.len() - 1]);
        }
    }
}

/// A range goes on to the end of the file where that is at most 256 MiB
/// away, and is 256 MiB long otherwise.
pub proof fn law_range_length(pos: int, size: int)
    requires
        pos < size,
    ensures
        range_end(pos, size) <= size,
        range_end(pos, size) - pos <= 256 * 1024 * 1024,
        range_end(pos, size) == size || range_end(pos, size) - pos == 256 * 1024 * 1024,
{
}

proof fn lemma_three_digits(n: nat)
    requires
        100 <= n <= 999,
    ensures
        decimal(n) == seq![digit_char(n / 100), digit_char(n / 10 % 10), digit_char(n % 10)],
{
    reveal_with_fuel(decimal, 3);
    assert(n / 10 / 10 == n / 100);
    assert(decimal(n) =~= seq![digit_char(n / 100), digit_char(n / 10 % 10), digit_char(n % 10)]);
}

/// The message about a status says which one it is.
pub proof fn law_status_messages(status: u16)
    ensures
        has_prefix(status_text(status), "Server returned "@ + decimal(status as nat)),
        status != 509 && status != 500 ==> status_text(status) == "Server returned "@ + decimal(status as nat),
        status == 509 ==> has_text(status_text(status), "over quota"@),
        status == 500 ==> has_text(status_text(status), "busy"@),
{
    reveal_strlit("Server returned ");
    let head = "Server returned "@ + decimal(status as nat);
    if status == 509 {
        lemma_three_digits(509);
        reveal_strlit("Server returned 509 (over quota)");
        reveal_strlit("over quota");
        assert(status_text(509) =~= head + status_text(509).skip(19));
        law_text_is_found(Seq::empty(), head, status_text(509).skip(19));
        assert(status_text(509).subrange(21, 31) =~= "over quota"@);
        assert(stands_at(status_text(509), "over quota"@, 21));
    } else if status == 500 {
        lemma_three_digits(500);
        reveal_strlit("Server returned 500 (probably busy)");
        reveal_strlit("busy");
        assert(status_text(500) =~= head + status_text(500).skip(19));
        law_text_is_found(Seq::empty(), head, status_text(500).skip(19));
        assert(status_text(500).subrange(30, 34) =~= "busy"@);
        assert(stands_at(status_text(500), "busy"@, 30));
    } else {
        assert(head.take(head.len() as int) =~= head);
    }
}

/// Wherever 509 stands in a failure, the quota is the reason; where it does
/// not, and 500, 502, 503 or 504 does, the server is busy.
pub proof fn law_reasons_by_status(a: Seq<char>, b: Seq<char>, code: Seq<char>)
    ensures
        reason_of(a + "509"@ + b) == "transfer quota exceeded"@,
        code == "500"@ || code == "502"@ || code == "503"@ || code == "504"@ ==> reason_of(a + code + b) == (if has_text(
            a + code + b,
            "509"@,
        ) {
            "transfer quota exceeded"@
        } else {
            "server busy"@
        }),
{
    law_text_is_found(a, "509"@, b);
    law_text_is_found(a, code, b);
}

/// A failure that holds no digit 5 is none of the server's: the server was
/// silent where the message says that no data came, and else the connection
/// failed.
pub proof fn law_reasons_without_status(msg: Seq<char>)
    requires
        !msg.contains('5'),
    ensures
        reason_of(msg) == (if exists|a: Seq<char>, b: Seq<char>| msg == #[trigger] (a + "no data"@ + b) {
            "no data from server"@
        } else {
            "connection failed"@
        }),
{
    reveal_strlit("509");
    reveal_strlit("500");
    reveal_strlit("502");
    reveal_strlit("503");
    reveal_strlit("504");
    assert forall|code: Seq<char>, i: int| code.len() > 0 && code[0] == '5' implies !#[trigger] stands_at(msg, code, i) by {
        if stands_at(msg, code, i) {
            assert(msg.subrange(i, i + code.len())[0] == code[0]);
            assert(msg[i] == '5');
        }
    }
    crate::text::law_found_text_stands(msg, "no data"@);
    if exists|a: Seq<char>, b: Seq<char>| msg == #[trigger] (a + "no data"@ + b) {
        let (a, b) = choose|a: Seq<char>, b: Seq<char>| msg == #[trigger] (a + "no data"@ + b);
        law_text_is_found(a, "no data"@, b);
    }
}

/// A partial file that is too large is named in the complaint, and a range
/// that ended early with what came of it.
pub proof fn law_messages_say_what_happened(tmp: Seq<char>, got: int, want: int)
    ensures
        has_text(too_large_text(tmp), tmp),
        has_text(early_text(got, want), seq!['('] + decimal_int(got) + " of "@ + decimal_int(want) + " bytes"@),
{
    law_text_is_found("unfinished download "@, tmp, " is larger than the remote file (remove it to fix this)"@);
    reveal_strlit("server closed the connection early (");
    reveal_strlit("server closed the connection early ");
    reveal_strlit(" bytes)");
    reveal_strlit(" bytes");
    let mid = seq!['('] + decimal_int(got) + " of "@ + decimal_int(want) + " bytes"@;
    assert(early_text(got, want) =~= "server closed the connection early "@ + mid + seq![')']);
    law_text_is_found("server closed the connection early "@, mid, seq![')']);
}

/// Partial files are kept in the directory of the target, or in the current
/// one, hidden, and no two nodes share one.
#[verifier::rlimit(60)]
pub proof fn law_partial_files(dir: Seq<char>, a: Seq<char>, b: Seq<char>)
    ensures
        a != b ==> partial_path(Some(dir), a) != partial_path(Some(dir), b),
        partial_path(Some(dir), a) == joined(dir, seq!['.'] + "megatmp."@ + a),
        partial_path(None, a) == partial_path(Some(seq!['.']), a),
{
    reveal_strlit(".megatmp.");
    reveal_strlit("megatmp.");
    reveal_strlit(".");
    assert("."@ =~= seq!['.']);
    assert(seq!['.'] + "megatmp."@ + a =~= ".megatmp."@ + a);
    let x = ".megatmp."@ + a;
    let y = ".megatmp."@ + b;
    law_joining(dir, x);
    law_joining(dir, y);
    if a != b && partial_path(Some(dir), a) == partial_path(Some(dir), b) {
        let p = partial_path(Some(dir), a);
        assert(x.len() == y.len());
        assert(p.skip(p.len() - x.len()) == x);
        assert(x == y);
        assert(x.skip(9) =~= a);
        assert(y.skip(9) =~= b);
    }
}

/// A file that is there is left alone. Otherwise its directory is made,
/// where it has one.
pub proof fn law_preparation(exists: bool, dir: Option<Seq<char>>)
    ensures
        preparation(exists, dir) == Preparation::Skip <==> exists,
        !exists ==> (preparation(exists, dir) == Preparation::MakeDir <==> dir is Some && dir != Some(Seq::<char>::empty())),
{
    if let Some(d) = dir {
        if d.len() == 0 {
            assert(d =~= Seq::<char>::empty());
        }
    }
}

/// Attempts are counted on as long as nothing arrives, so that each pause is
/// twice the one before, from two seconds up to 256. Once something arrived
/// they are counted from one again.
pub proof fn law_attempts(tries: u32)
    requires
        tries <= MAX_TRIES,
    ensures
        next_attempt(tries, true) == 1,
        tries < 8 ==> next_attempt(tries, false) == tries + 1 && pow2(next_attempt(tries, false) as nat) == 2 * pow2(
            tries as nat,
        ),
        tries >= 8 ==> next_attempt(tries, false) == 8,
        1 <= next_attempt(tries, false) <= 8,
        pow2(1) == 2 && pow2(8) == 256,
{
    lemma2_to64();
    lemma_pow2_unfold((tries + 1) as nat);
}

/// A download is complete exactly where nothing is missing. What is asked
/// for next begins with the first byte that is missing, and goes on to the
/// end of the file or for 256 MiB; but an address from before a failure is
/// never used again.
pub proof fn law_next_range(len: nat, total: i64, url_due: bool)
    requires
        len <= MAC_LIMIT,
    ensures
        step_at(len as int, total, url_due) is Complete <==> len >= total,
        len < total ==> (step_at(len as int, total, url_due) is Resolve <==> url_due),
        step_at(len as int, total, url_due) matches FetchStep::Range { from, end } ==> from == len && from < end <= total
            && (end == total || end - from == 256 * 1024 * 1024),
{
}

/// All of a partial file is reused, unless it is larger than the file: then
/// none of it is.
pub proof fn law_reused(len: nat, total: i64)
    requires
        len <= MAC_LIMIT,
    ensures
        reused_of(len, total) is None <==> len > total,
        reused_of(len, total) matches Some(Some(n)) ==> n == len && n > 0,
        reused_of(len, total) matches Some(None) ==> len == 0,
{
}

/// Two statuses stand for success.
pub proof fn law_success(status: u16)
    ensures
        is_success(status) <==> 200 <= status <= 201,
{
}

/// A pause is slept in pieces of at most a fifth of a second, which add up
/// to it. It is over once nothing is left, or when it is cancelled.
pub proof fn law_naps(left: u64, cancelled: bool)
    ensures
        nap(left, cancelled) matches NapStep::Sleep(ms) ==> !cancelled && 0 < ms <= 200 && ms <= left && (ms == left || ms
            == 200),
        nap(left, cancelled) is Over <==> cancelled || left == 0,
        nap(left, cancelled) matches NapStep::Over { cancelled: c } ==> c == cancelled,
{
}

} // verus!
