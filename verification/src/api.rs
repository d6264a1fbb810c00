//! The server's command interface: JSON commands and replies, retries and
//! the proof-of-work gate.

use vstd::prelude::*;
use vstd::string::*;
use vstd::utf8::*;

use serde_json::Value;

use crate::hashcash::solution;
pub use crate::hashcash::solve_hashcash;
use crate::json::{
    as_int, empty_object, int_value, json_bytes, json_int, json_list, json_of, jsons, read_list,
    set_field, text_value, write_single, Json,
};
use crate::text::{
    all_white, decimal, decimal_int, first_at, has_prefix, has_text, is_white,
    law_decimal_reads_back, law_signed_numbers_read_back, law_text_is_found, law_trimming,
    lemma_first_at, parse_signed, parse_unsigned, push_decimal, push_decimal_int, read_signed,
    string_of, trim, trimmed, utf8_text,
};

verus! {

pub const DEFAULT_API_URL: &'static str = "https://g.api.mega.co.nz/cs";

/// The code with which the server asks to try again.
pub const SRV_EAGAIN: i64 = -3;

// ---------------------------------------------------------------------------
// Server errors
// ---------------------------------------------------------------------------

/// The name of an error code.
pub open spec fn error_name(code: int) -> Option<Seq<char>> {
    if code == -1 {
        Some("EINTERNAL"@)
    } else if code == -2 {
        Some("EARGS"@)
    } else if code == -3 {
        Some("EAGAIN"@)
    } else if code == -4 {
        Some("ERATELIMIT"@)
    } else if code == -5 {
        Some("EFAILED"@)
    } else if code == -6 {
        Some("ETOOMANY"@)
    } else if code == -7 {
        Some("ERANGE"@)
    } else if code == -8 {
        Some("EEXPIRED"@)
    } else if code == -9 {
        Some("ENOENT"@)
    } else if code == -10 {
        Some("ECIRCULAR"@)
    } else if code == -11 {
        Some("EACCESS"@)
    } else if code == -12 {
        Some("EEXIST"@)
    } else if code == -13 {
        Some("EINCOMPLETE"@)
    } else if code == -14 {
        Some("EKEY"@)
    } else if code == -15 {
        Some("ESID"@)
    } else if code == -16 {
        Some("EBLOCKED"@)
    } else if code == -17 {
        Some("EOVERQUOTA"@)
    } else if code == -18 {
        Some("ETEMPUNAVAIL"@)
    } else if code == -19 {
        Some("ETOOMANYCONNECTIONS"@)
    } else {
        None
    }
}

/// The message for an error code.
pub open spec fn error_text(code: int) -> Seq<char> {
    match error_name(code) {
        Some(name) => "server returned error "@ + name,
        None => "server returned error EUNKNOWN ("@ + decimal_int(code) + seq![')'],
    }
}

/// The name of an error code, `EUNKNOWN` if it has none.
pub fn srv_error_name(code: i64) -> (name: &'static str)
    ensures
        name@ == (match error_name(code as int) {
            Some(n) => n,
            None => "EUNKNOWN"@,
        }),
{
    match code {
        -1 => "EINTERNAL",
        -2 => "EARGS",
        -3 => "EAGAIN",
        -4 => "ERATELIMIT",
        -5 => "EFAILED",
        -6 => "ETOOMANY",
        -7 => "ERANGE",
        -8 => "EEXPIRED",
        -9 => "ENOENT",
        -10 => "ECIRCULAR",
        -11 => "EACCESS",
        -12 => "EEXIST",
        -13 => "EINCOMPLETE",
        -14 => "EKEY",
        -15 => "ESID",
        -16 => "EBLOCKED",
        -17 => "EOVERQUOTA",
        -18 => "ETEMPUNAVAIL",
        -19 => "ETOOMANYCONNECTIONS",
        _ => "EUNKNOWN",
    }
}

/// The message for an error code.
pub fn srv_error(code: i64) -> (message: String)
    ensures
        message@ == error_text(code as int),
{
    let mut message = String::new();
    if code < -19 || code > -1 {
        message.append("server returned error EUNKNOWN (");
        push_decimal_int(&mut message, code);
        message.push(')');
        assert(message@ =~= error_text(code as int));
    } else {
        message.append("server returned error ");
        message.append(srv_error_name(code));
        assert(message@ =~= error_text(code as int));
    }
    message
}

// ---------------------------------------------------------------------------
// Commands
// ---------------------------------------------------------------------------

/// A connection to the server: where it is, and the folder whose link is
/// used.
pub struct ApiClient {
    pub url: String,
    pub folder: String,
    /// The number of the next request.
    pub seq: u32,
}

/// The address of request `id`.
pub open spec fn request_address(url: Seq<char>, folder: Seq<char>, id: nat) -> Seq<char> {
    url + "?id="@ + decimal(id) + if folder.len() > 0 {
        "&n="@ + folder
    } else {
        Seq::empty()
    }
}

impl ApiClient {
    pub fn new(url: &str, folder: &str) -> (api: ApiClient)
        ensures
            api.url@ == url@,
            api.folder@ == folder@,
            api.seq == 0,
    {
        ApiClient { url: url.to_owned(), folder: folder.to_owned(), seq: 0 }
    }

    /// The address for the next request. Each gets a number of its own,
    /// until they wrap around.
    pub fn request_url(&mut self) -> (address: String)
        ensures
            address@ == request_address(old(self).url@, old(self).folder@, old(self).seq as nat),
            final(self).url == old(self).url,
            final(self).folder == old(self).folder,
            final(self).seq == (if old(self).seq == u32::MAX {
                0
            } else {
                (old(self).seq + 1) as u32
            }),
    {
        let mut address = self.url.clone();
        address.append("?id=");
        push_decimal(&mut address, self.seq as u64);
        if !self.folder.as_str().is_empty() {
            address.append("&n=");
            address.append(self.folder.as_str());
        }
        assert(address@ =~= request_address(self.url@, self.folder@, self.seq as nat));
        self.seq = if self.seq == u32::MAX {
            0
        } else {
            self.seq + 1
        };
        address
    }
}

/// The command that asks for a transfer, of the node with handle `handle`
/// under the name `by`.
pub open spec fn transfer_command(by: Seq<char>, handle: Seq<char>) -> Json {
    Json::Object(
        Map::empty().insert("a"@, Json::Text("g"@)).insert("g"@, json_int(1)).insert("ssl"@, json_int(0)).insert(
            by,
            Json::Text(handle),
        ),
    )
}

/// The command that asks for the nodes of a folder.
pub open spec fn listing_command() -> Json {
    Json::Object(
        Map::empty().insert("a"@, Json::Text("f"@)).insert("c"@, json_int(1)).insert("r"@, json_int(1)),
    )
}

fn transfer_by(by: &str, handle: &str) -> (cmd: Value)
    ensures
        json_of(cmd) == transfer_command(by@, handle@),
{
    let mut cmd = empty_object();
    set_field(&mut cmd, "a", text_value("g"));
    set_field(&mut cmd, "g", int_value(1));
    set_field(&mut cmd, "ssl", int_value(0));
    set_field(&mut cmd, by, text_value(handle));
    cmd
}

/// The command that asks for the transfer of a linked file.
pub fn file_command(handle: &str) -> (cmd: Value)
    ensures
        json_of(cmd) == transfer_command("p"@, handle@),
{
    transfer_by("p", handle)
}

/// The command that asks for the transfer of a file in a folder.
pub fn node_command(handle: &str) -> (cmd: Value)
    ensures
        json_of(cmd) == transfer_command("n"@, handle@),
{
    transfer_by("n", handle)
}

/// The command that asks for the nodes of a folder.
pub fn folder_command() -> (cmd: Value)
    ensures
        json_of(cmd) == listing_command(),
{
    let mut cmd = empty_object();
    set_field(&mut cmd, "a", text_value("f"));
    set_field(&mut cmd, "c", int_value(1));
    set_field(&mut cmd, "r", int_value(1));
    cmd
}

/// The body of a request: an array of one command.
pub fn request_body(cmd: &Value) -> (r: Result<Vec<u8>, String>)
    ensures
        match r {
            Ok(body) => json_bytes(seq![json_of(*cmd)]) == Ok::<Seq<u8>, Seq<char>>(body@),
            Err(e) => json_bytes(seq![json_of(*cmd)]) == Err::<Seq<u8>, Seq<char>>(e@),
        },
{
    write_single(cmd)
}

// ---------------------------------------------------------------------------
// Replies
// ---------------------------------------------------------------------------

/// What a reply comes to, if it is no error.
pub enum ApiOutcome {
    Value(Value),
    Retry,
}

/// What a reply says, if it is no error.
pub enum OutcomeModel {
    Value(Json),
    Retry,
}

impl View for ApiOutcome {
    type V = OutcomeModel;

    open spec fn view(&self) -> OutcomeModel {
        match self {
            ApiOutcome::Value(v) => OutcomeModel::Value(json_of(*v)),
            ApiOutcome::Retry => OutcomeModel::Retry,
        }
    }
}

/// The text of a reply, trimmed; nothing if it is no text.
pub open spec fn reply_text(data: Seq<u8>) -> Seq<char> {
    if valid_utf8(data) {
        trim(decode_utf8(data))
    } else {
        Seq::empty()
    }
}

/// The outcome of a reply that is an array: its first element. A number
/// there is an error, or asks to try again, as one that stands alone.
pub open spec fn list_outcome(text: Seq<char>, list: Option<Seq<Json>>) -> Result<OutcomeModel, Seq<char>> {
    match list {
        None => Err("invalid API response"@),
        Some(items) => if items.len() == 0 {
            Err("invalid API response"@)
        } else {
            match items[0].integer() {
                Some(code) => if code == SRV_EAGAIN {
                    Ok(OutcomeModel::Retry)
                } else if code < 0 {
                    Err(error_text(code as int))
                } else {
                    Err("unexpected API response "@ + text)
                },
                None => Ok(OutcomeModel::Value(items[0])),
            }
        },
    }
}

/// The outcome of a reply: a number is an error, or asks to try again.
pub open spec fn reply_outcome(text: Seq<char>, list: Option<Seq<Json>>) -> Result<OutcomeModel, Seq<char>> {
    match parse_signed(text, i64::MIN as int, i64::MAX as nat) {
        Some(code) => if code == SRV_EAGAIN {
            Ok(OutcomeModel::Retry)
        } else if code < 0 {
            Err(error_text(code))
        } else {
            Err("unexpected API response "@ + text)
        },
        None => list_outcome(text, list),
    }
}

fn unexpected(text: &str) -> (message: String)
    ensures
        message@ == "unexpected API response "@ + text@,
{
    let mut message = String::new();
    message.append("unexpected API response ");
    message.append(text);
    assert(message@ =~= "unexpected API response "@ + text@);
    message
}

/// The outcome of a reply that is no number and was read as an array.
pub fn outcome_of_list(text: &str, list: Option<Vec<Value>>) -> (r: Result<ApiOutcome, String>)
    ensures
        ({
            let items = match list {
                Some(v) => Some(jsons(v@)),
                None => None,
            };
            match r {
                Ok(out) => list_outcome(text@, items) == Ok::<OutcomeModel, Seq<char>>(out@),
                Err(e) => list_outcome(text@, items) == Err::<OutcomeModel, Seq<char>>(e@),
            }
        }),
{
    match list {
        None => Err("invalid API response".to_owned()),
        Some(elems) => {
            let mut elems = elems;
            if elems.len() == 0 {
                return Err("invalid API response".to_owned());
            }
            let ghost items = jsons(elems@);
            assert(items[0] == json_of(elems@[0]));
            if let Some(code) = as_int(&elems[0]) {
                if code == SRV_EAGAIN {
                    return Ok(ApiOutcome::Retry);
                }
                return if code < 0 {
                    Err(srv_error(code))
                } else {
                    Err(unexpected(text))
                };
            }
            let first = elems.remove(0);
            Ok(ApiOutcome::Value(first))
        },
    }
}

/// Reads a reply: a bare negative number is an error of the request as a
/// whole, an array's first element is the result, or a negative number. In
/// either place the server can ask to try again.
pub fn decode_api_response(data: &[u8]) -> (r: Result<ApiOutcome, String>)
    ensures
        ({
            let text = reply_text(data@);
            match r {
                Ok(out) => reply_outcome(text, json_list(text)) == Ok::<OutcomeModel, Seq<char>>(out@),
                Err(e) => reply_outcome(text, json_list(text)) == Err::<OutcomeModel, Seq<char>>(e@),
            }
        }),
{
    let mut bytes: Vec<u8> = Vec::new();
    bytes.extend_from_slice(data);
    assert(bytes@ =~= data@);
    let chars = match utf8_text(bytes) {
        Some(t) => trimmed(t.as_str()),
        None => Vec::new(),
    };
    assert(chars@ =~= reply_text(data@));
    let text = string_of(&chars);
    if let Some(code) = read_signed(&chars, i64::MIN, i64::MAX) {
        if code == SRV_EAGAIN {
            return Ok(ApiOutcome::Retry);
        }
        return if code < 0 {
            Err(srv_error(code))
        } else {
            Err(unexpected(text.as_str()))
        };
    }
    let list = read_list(text.as_str());
    outcome_of_list(text.as_str(), list)
}

// ---------------------------------------------------------------------------
// One request, with its proof of work
// ---------------------------------------------------------------------------

/// How many times a request is sent before proofs of work are given up.
pub const MAX_POSTS: u8 = 4;

/// Why a request failed.
pub enum RetryableErr {
    /// Worth another attempt.
    Retry(String),
    /// Not worth one.
    Fatal(String),
}

/// What to do with a request.
pub enum PostStep {
    /// Send it, with this proof of work.
    Send(Option<String>),
    /// It is done.
    Done(Result<Vec<u8>, RetryableErr>),
}

/// What a reply to a request comes to: another attempt, with the answer to a
/// challenge, or the end.
pub enum PostModel {
    Send(Seq<char>),
    Done(Seq<u8>),
    Retry(Seq<char>),
    Fatal(Seq<char>),
}

impl PostStep {
    /// The step says `m`.
    pub open spec fn says(&self, m: PostModel) -> bool {
        match (*self, m) {
            (PostStep::Send(Some(t)), PostModel::Send(x)) => t@ == x,
            (PostStep::Done(Ok(b)), PostModel::Done(x)) => b@ == x,
            (PostStep::Done(Err(RetryableErr::Retry(e))), PostModel::Retry(x)) => e@ == x,
            (PostStep::Done(Err(RetryableErr::Fatal(e))), PostModel::Fatal(x)) => e@ == x,
            _ => false,
        }
    }
}

/// What the answer to a challenge says.
pub open spec fn answer_model(answer: Option<Result<String, String>>) -> Option<Result<Seq<char>, Seq<char>>> {
    match answer {
        None => None,
        Some(Ok(t)) => Some(Ok(t@)),
        Some(Err(e)) => Some(Err(e@)),
    }
}

/// A request under way.
pub struct Posting {
    sent: u8,
}

/// What follows a reply to the `n`th attempt, where `answer` is the outcome
/// of the challenge that came with it.
pub open spec fn post_outcome(
    n: int,
    status: u16,
    answer: Option<Result<Seq<char>, Seq<char>>>,
    body: Seq<u8>,
) -> PostModel {
    if status == 402 {
        match answer {
            None => PostModel::Fatal("402 without an X-Hashcash challenge"@),
            Some(Err(e)) => PostModel::Fatal("hashcash challenge: "@ + e),
            Some(Ok(proof_text)) => if n >= MAX_POSTS {
                PostModel::Fatal("too many hashcash retries"@)
            } else {
                PostModel::Send(proof_text)
            },
        }
    } else if status == 500 {
        PostModel::Retry("server returned 500 (probably busy)"@)
    } else if status == 200 || status == 201 {
        PostModel::Done(body)
    } else {
        PostModel::Fatal("server returned "@ + decimal(status as nat))
    }
}

impl Posting {
    /// How many attempts were made.
    pub closed spec fn attempts(&self) -> int {
        self.sent as int
    }

    /// Starts a request: it is sent without a proof of work.
    pub fn start() -> (r: (Posting, PostStep))
        ensures
            r.0.attempts() == 1,
            r.1 == PostStep::Send(None),
    {
        (Posting { sent: 1 }, PostStep::Send(None))
    }

    /// The connection failed before there was a reply.
    pub fn on_failure(&self, message: String) -> (step: PostStep)
        ensures
            step.says(PostModel::Retry(message@)),
    {
        PostStep::Done(Err(RetryableErr::Retry(message)))
    }

    /// Takes a reply, with the outcome of the challenge that came with it.
    pub fn on_answer(&mut self, status: u16, answer: Option<Result<String, String>>, body: Vec<u8>) -> (step: PostStep)
        requires
            1 <= old(self).attempts() <= MAX_POSTS,
        ensures
            step.says(
                post_outcome(
                    old(self).attempts(),
                    status,
                    answer_model(answer),
                    body@,
                ),
            ),
            final(self).attempts() == old(self).attempts() + if step is Send {
                1int
            } else {
                0
            },
            final(self).attempts() <= MAX_POSTS,
    {
        if status == 402 {
            return match answer {
                None => PostStep::Done(
                    Err(RetryableErr::Fatal("402 without an X-Hashcash challenge".to_owned())),
                ),
                Some(Err(e)) => {
                    let mut message = String::new();
                    message.append("hashcash challenge: ");
                    message.append(e.as_str());
                    assert(message@ =~= "hashcash challenge: "@ + e@);
                    PostStep::Done(Err(RetryableErr::Fatal(message)))
                },
                Some(Ok(text)) => if self.sent >= MAX_POSTS {
                    PostStep::Done(Err(RetryableErr::Fatal("too many hashcash retries".to_owned())))
                } else {
                    self.sent = self.sent + 1;
                    PostStep::Send(Some(text))
                },
            };
        }
        if status == 500 {
            return PostStep::Done(
                Err(RetryableErr::Retry("server returned 500 (probably busy)".to_owned())),
            );
        }
        if status == 200 || status == 201 {
            return PostStep::Done(Ok(body));
        }
        let mut message = String::new();
        message.append("server returned ");
        push_decimal(&mut message, status as u64);
        assert(message@ =~= "server returned "@ + decimal(status as nat));
        PostStep::Done(Err(RetryableErr::Fatal(message)))
    }

    /// Takes a reply: a challenge that came with it is solved.
    pub fn on_reply(&mut self, status: u16, challenge: Option<&str>, body: Vec<u8>) -> (step: PostStep)
        requires
            1 <= old(self).attempts() <= MAX_POSTS,
        ensures
            exists|answer: Option<Result<Seq<char>, Seq<char>>>|
                {
                    &&& #[trigger] step.says(post_outcome(old(self).attempts(), status, answer, body@))
                    &&& match (challenge, answer) {
                        (Some(c), Some(a)) => status == 402 ==> solution(c@, a),
                        (None, None) => true,
                        _ => false,
                    }
                },
            final(self).attempts() == old(self).attempts() + if step is Send {
                1int
            } else {
                0
            },
            final(self).attempts() <= MAX_POSTS,
    {
        let ghost n = self.attempts();
        let ghost bytes = body@;
        let answer: Option<Result<String, String>> = match challenge {
            None => None,
            Some(c) => if status == 402 {
                Some(solve_hashcash(c))
            } else {
                Some(Err(String::new()))
            },
        };
        let ghost model = answer_model(answer);
        let step = self.on_answer(status, answer, body);
        assert(step.says(post_outcome(n, status, model, bytes)));
        step
    }
}

// ---------------------------------------------------------------------------
// One call, with its retries
// ---------------------------------------------------------------------------

/// The first pause between attempts, in milliseconds.
pub const FIRST_DELAY: u64 = 250;

/// Once the pause is longer than this, a call is given up.
pub const LAST_DELAY: u64 = 256_000;

/// What to do with a call.
pub enum CallStep {
    /// It is done.
    Return(Result<Value, String>),
    /// Wait this many milliseconds, then send the request again.
    Wait(u64),
}

/// What a request that was sent means for the call.
pub enum Verdict {
    Value(Json),
    Error(Seq<char>),
    Again,
}

/// The verdict on what sending a request gave.
pub open spec fn verdict_on(posted: Result<Vec<u8>, RetryableErr>) -> Verdict {
    match posted {
        Ok(data) => {
            let text = reply_text(data@);
            match reply_outcome(text, json_list(text)) {
                Ok(OutcomeModel::Value(v)) => Verdict::Value(v),
                Ok(OutcomeModel::Retry) => Verdict::Again,
                Err(e) => Verdict::Error(e),
            }
        },
        Err(RetryableErr::Retry(_)) => Verdict::Again,
        Err(RetryableErr::Fatal(e)) => Verdict::Error(e@),
    }
}

/// A call under way.
pub struct Calling {
    delay: u64,
}

/// The length of the pause after `n` pauses, in milliseconds.
pub open spec fn pause(n: nat) -> nat
    decreases n,
{
    if n == 0 {
        FIRST_DELAY as nat
    } else {
        2 * pause((n - 1) as nat)
    }
}

impl Calling {
    /// The length of the pause that is due next, in milliseconds.
    pub closed spec fn due(&self) -> int {
        self.delay as int
    }

    /// The pause that is due is at most twice the last one.
    pub open spec fn wf(&self) -> bool {
        0 < self.due() <= 2 * LAST_DELAY
    }

    pub fn start() -> (c: Calling)
        ensures
            c.wf(),
            c.due() == pause(0),
    {
        Calling { delay: FIRST_DELAY }
    }

    /// Tries again after a pause, twice as long every time, until it would
    /// be too long.
    fn try_again(&mut self) -> (step: CallStep)
        requires
            old(self).wf(),
        ensures
            final(self).wf(),
            if old(self).due() > LAST_DELAY {
                &&& step matches CallStep::Return(Err(e))
                &&& e@ == "server keeps asking us to retry, giving up"@
                &&& final(self).due() == old(self).due()
            } else {
                &&& step matches CallStep::Wait(ms)
                &&& ms == old(self).due()
                &&& final(self).due() == 2 * old(self).due()
            },
    {
        if self.delay > LAST_DELAY {
            return CallStep::Return(Err("server keeps asking us to retry, giving up".to_owned()));
        }
        let ms: u64 = self.delay;
        self.delay = 2 * ms;
        CallStep::Wait(ms)
    }

    /// Takes what sending the request gave.
    pub fn on_posted(&mut self, posted: Result<Vec<u8>, RetryableErr>) -> (step: CallStep)
        requires
            old(self).wf(),
        ensures
            final(self).wf(),
            match verdict_on(posted) {
                Verdict::Value(v) => {
                    &&& step matches CallStep::Return(Ok(x))
                    &&& json_of(x) == v
                    &&& final(self).due() == old(self).due()
                },
                Verdict::Error(m) => {
                    &&& step matches CallStep::Return(Err(e))
                    &&& e@ == m
                    &&& final(self).due() == old(self).due()
                },
                Verdict::Again => if old(self).due() > LAST_DELAY {
                    &&& step matches CallStep::Return(Err(e))
                    &&& e@ == "server keeps asking us to retry, giving up"@
                    &&& final(self).due() == old(self).due()
                } else {
                    &&& step matches CallStep::Wait(ms)
                    &&& ms == old(self).due()
                    &&& final(self).due() == 2 * old(self).due()
                },
            },
    {
        match posted {
            Ok(data) => match decode_api_response(data.as_slice()) {
                Ok(ApiOutcome::Value(v)) => CallStep::Return(Ok(v)),
                Ok(ApiOutcome::Retry) => self.try_again(),
                Err(e) => CallStep::Return(Err(e)),
            },
            Err(RetryableErr::Retry(_)) => self.try_again(),
            Err(RetryableErr::Fatal(e)) => CallStep::Return(Err(e)),
        }
    }
}

// ---------------------------------------------------------------------------
// Laws
// ---------------------------------------------------------------------------

/// Pauses double from a quarter of a second on. Eleven are short enough to
/// be made, so that a call is sent twelve times at most.
pub proof fn law_eleven_pauses(n: nat)
    ensures
        pause(n) <= LAST_DELAY <==> n <= 10,
{
    reveal_with_fuel(pause, 12);
    assert(pause(10) == 256_000);
    assert(pause(11) == 512_000);
    lemma_pauses_grow(n, 10);
    lemma_pauses_grow(10, n);
    lemma_pauses_grow(11, n);
}

proof fn lemma_pauses_grow(a: nat, b: nat)
    ensures
        a <= b ==> pause(a) <= pause(b),
    decreases b,
{
    if a < b {
        lemma_pauses_grow(a, (b - 1) as nat);
    }
}

/// A number alone is never a result: the server asks to try again, or it is
/// an error.
pub proof fn law_bare_numbers_are_no_results(text: Seq<char>, list: Option<Seq<Json>>)
    requires
        parse_signed(text, i64::MIN as int, i64::MAX as nat) is Some,
    ensures
        ({
            let code = parse_signed(text, i64::MIN as int, i64::MAX as nat)->Some_0;
            match reply_outcome(text, list) {
                Ok(out) => out is Retry && code == SRV_EAGAIN,
                Err(e) => code != SRV_EAGAIN,
            }
        }),
{
}

/// The server asks to try again with one number, alone or as the first
/// element of an array, and with nothing else.
pub proof fn law_server_asks_to_retry(text: Seq<char>, list: Option<Seq<Json>>)
    ensures
        reply_outcome(text, list) == Ok::<OutcomeModel, Seq<char>>(OutcomeModel::Retry) <==> match parse_signed(
            text,
            i64::MIN as int,
            i64::MAX as nat,
        ) {
            Some(code) => code == SRV_EAGAIN,
            None => list matches Some(items) && items.len() > 0 && items[0].integer() == Some(SRV_EAGAIN),
        },
{
}

/// A result is the first element of an array, and no number.
pub proof fn law_results_are_no_numbers(text: Seq<char>, list: Option<Seq<Json>>)
    ensures
        reply_outcome(text, list) matches Ok(OutcomeModel::Value(v)) ==> {
            &&& list matches Some(items)
            &&& items.len() > 0
            &&& v == items[0]
            &&& v.integer() is None
        },
{
}

/// The names of the errors, in the order of their numbers.
pub open spec fn error_names() -> Seq<Seq<char>> {
    seq![
        "EINTERNAL"@, "EARGS"@, "EAGAIN"@, "ERATELIMIT"@, "EFAILED"@, "ETOOMANY"@, "ERANGE"@, "EEXPIRED"@, "ENOENT"@,
        "ECIRCULAR"@, "EACCESS"@, "EEXIST"@, "EINCOMPLETE"@, "EKEY"@, "ESID"@, "EBLOCKED"@, "EOVERQUOTA"@,
        "ETEMPUNAVAIL"@, "ETOOMANYCONNECTIONS"@,
    ]
}

/// Errors are numbered downwards from minus one. The message for one that
/// has a name holds the name, that for any other the number.
pub proof fn law_error_names(code: int)
    ensures
        -19 <= code <= -1 ==> error_name(code) == Some(error_names()[-code - 1]),
        !(-19 <= code <= -1) ==> error_name(code) is None,
        -19 <= code <= -1 ==> has_text(error_text(code), error_names()[-code - 1]),
        !(-19 <= code <= -1) ==> has_text(error_text(code), seq!['('] + decimal_int(code) + seq![')']),
{
    if -19 <= code <= -1 {
        let name = error_names()[-code - 1];
        assert(error_name(code) == Some(name));
        law_text_is_found("server returned error "@, name, Seq::empty());
        assert(error_text(code) =~= "server returned error "@ + name + Seq::<char>::empty());
    } else {
        let a = "server returned error EUNKNOWN "@;
        let mid = seq!['('] + decimal_int(code) + seq![')'];
        reveal_strlit("server returned error EUNKNOWN ");
        reveal_strlit("server returned error EUNKNOWN (");
        assert(error_text(code) =~= a + mid + Seq::<char>::empty());
        law_text_is_found(a, mid, Seq::empty());
    }
}

/// The address of a request begins with that of the server. The number of
/// the request follows, and then the folder, if the link leads into one.
pub proof fn law_request_address_reads_back(url: Seq<char>, folder: Seq<char>, id: nat)
    ensures
        ({
            let s = request_address(url, folder, id);
            let tail = s.skip(url.len() as int + 4);
            let and = first_at(tail, '&');
            &&& has_prefix(s, url + "?id="@)
            &&& parse_unsigned(tail.take(and), 10, id) == Some(id)
            &&& folder.len() == 0 ==> and == tail.len()
            &&& folder.len() > 0 ==> tail.skip(and) == "&n="@ + folder
        }),
{
    let s = request_address(url, folder, id);
    let tail = s.skip(url.len() as int + 4);
    let digits = decimal(id);
    let more = if folder.len() > 0 {
        "&n="@ + folder
    } else {
        Seq::empty()
    };
    reveal_strlit("?id=");
    reveal_strlit("&n=");
    law_decimal_reads_back(id);
    assert(s =~= (url + "?id="@) + (digits + more));
    law_text_is_found(Seq::empty(), url + "?id="@, digits + more);
    assert(tail =~= digits + more);
    lemma_first_at(tail, '&');
    let and = first_at(tail, '&');
    assert forall|j: int| 0 <= j < digits.len() implies #[trigger] tail[j] != '&' by {
        assert('0' <= digits[j] <= '9');
    }
    if folder.len() > 0 {
        assert(tail[digits.len() as int] == '&');
    }
    assert(and == digits.len());
    assert(tail.take(and) =~= digits);
    assert(tail.skip(and) =~= more);
}

/// No two requests of a client have one address, until their numbers repeat.
pub proof fn law_requests_differ(url: Seq<char>, folder: Seq<char>, a: nat, b: nat)
    requires
        a != b,
    ensures
        request_address(url, folder, a) != request_address(url, folder, b),
{
    law_request_address_reads_back(url, folder, a);
    law_request_address_reads_back(url, folder, b);
    let s = request_address(url, folder, a);
    let tail = s.skip(url.len() as int + 4);
    let t = tail.take(first_at(tail, '&'));
    if s == request_address(url, folder, b) {
        assert(parse_unsigned(t, 10, a) == Some(a));
        assert(parse_unsigned(t, 10, b) == Some(b));
    }
}

/// A transfer is asked for by `g`, for an address that needs no TLS. A
/// linked file is named under `p`, a node of a folder under `n`. Nothing
/// else is sent.
pub proof fn law_transfer_commands(handle: Seq<char>, key: Seq<char>)
    ensures
        ({
            let file = transfer_command("p"@, handle);
            let node = transfer_command("n"@, handle);
            &&& file.text_field("a"@) == Some("g"@) && node.text_field("a"@) == Some("g"@)
            &&& file.int_field("g"@) == Some(1i64) && node.int_field("g"@) == Some(1i64)
            &&& file.int_field("ssl"@) == Some(0i64) && node.int_field("ssl"@) == Some(0i64)
            &&& file.text_field("p"@) == Some(handle) && file.field("n"@) is None
            &&& node.text_field("n"@) == Some(handle) && node.field("p"@) is None
            &&& key != "a"@ && key != "g"@ && key != "ssl"@ && key != "p"@ && key != "n"@ ==> file.field(key) is None
                && node.field(key) is None
        }),
{
    reveal_strlit("a");
    reveal_strlit("g");
    reveal_strlit("ssl");
    reveal_strlit("p");
    reveal_strlit("n");
    assert("a"@[0] != "g"@[0] && "a"@[0] != "p"@[0] && "a"@[0] != "n"@[0] && "g"@[0] != "p"@[0] && "g"@[0] != "n"@[0]
        && "p"@[0] != "n"@[0]);
    assert("ssl"@.len() == 3 && "a"@.len() == 1 && "g"@.len() == 1 && "p"@.len() == 1 && "n"@.len() == 1);
}

/// The nodes of a folder are asked for by `f`, all of them at once.
pub proof fn law_listing_command(key: Seq<char>)
    ensures
        ({
            let cmd = listing_command();
            &&& cmd.text_field("a"@) == Some("f"@)
            &&& cmd.int_field("c"@) == Some(1i64)
            &&& cmd.int_field("r"@) == Some(1i64)
            &&& key != "a"@ && key != "c"@ && key != "r"@ ==> cmd.field(key) is None
        }),
{
    reveal_strlit("a");
    reveal_strlit("c");
    reveal_strlit("r");
    assert("a"@[0] != "c"@[0] && "a"@[0] != "r"@[0] && "c"@[0] != "r"@[0]);
}

/// The text of a reply is what its bytes spell, without the white space
/// round it. Bytes that are no text spell nothing.
pub proof fn law_reply_text(a: Seq<char>, s: Seq<char>, b: Seq<char>, data: Seq<u8>)
    requires
        all_white(a) && all_white(b),
        s.len() > 0 ==> !is_white(s[0]) && !is_white(s.last()),
    ensures
        reply_text(encode_utf8(a + s + b)) == s,
        !valid_utf8(data) ==> reply_text(data).len() == 0,
{
    law_trimming(a, s, b);
    encode_utf8_valid_utf8(a + s + b);
    encode_utf8_decode_utf8(a + s + b);
}

/// A reply that is a negative number is the error with that number, alone or
/// first in an array, but for the one with which the server asks to try
/// again. A number from zero on is no reply at all.
pub proof fn law_numbers_are_errors(code: i64, items: Seq<Json>, list: Option<Seq<Json>>)
    requires
        items.len() > 0,
        items[0].integer() == Some(code),
    ensures
        ({
            let text = decimal_int(code as int);
            let alone = reply_outcome(text, list);
            let first = list_outcome(text, Some(items));
            &&& code == -3 ==> alone == Ok::<OutcomeModel, Seq<char>>(OutcomeModel::Retry) && first == alone
            &&& code < 0 && code != -3 ==> alone == Err::<OutcomeModel, Seq<char>>(error_text(code as int)) && first == alone
            &&& code >= 0 ==> alone == Err::<OutcomeModel, Seq<char>>("unexpected API response "@ + text) && first == alone
        }),
{
    law_signed_numbers_read_back(code as int, i64::MIN as int, i64::MAX as nat);
}

/// The first element of an array is the result, if it is no number; what
/// follows it does not count. Text that is neither a number nor an array, or
/// an array without elements, is refused.
pub proof fn law_first_element_is_the_result(text: Seq<char>, list: Option<Seq<Json>>)
    requires
        parse_signed(text, i64::MIN as int, i64::MAX as nat) is None,
    ensures
        list matches Some(items) && items.len() > 0 && items[0].integer() is None ==> reply_outcome(text, list) == Ok::<
            OutcomeModel,
            Seq<char>,
        >(OutcomeModel::Value(list->Some_0[0])),
        list is None || (list matches Some(items) && items.len() == 0) ==> reply_outcome(text, list) == Err::<
            OutcomeModel,
            Seq<char>,
        >("invalid API response"@),
{
}

/// A body is handed on exactly for the statuses of success. The answer to a
/// challenge is sent exactly where one was asked for and found, four times
/// at most. A busy server is worth another attempt; all else is final, and
/// says which status it was.
pub proof fn law_what_follows_a_reply(
    n: int,
    status: u16,
    answer: Option<Result<Seq<char>, Seq<char>>>,
    body: Seq<u8>,
    text: Seq<char>,
)
    ensures
        ({
            let m = post_outcome(n, status, answer, body);
            &&& m is Done <==> 200 <= status <= 201
            &&& m is Done ==> m->Done_0 == body
            &&& m == PostModel::Send(text) <==> status == 402 && n < 4 && answer == Some(Ok::<Seq<char>, Seq<char>>(text))
            &&& m is Retry <==> status == 500
            &&& m is Fatal && status != 402 ==> has_text(m->Fatal_0, decimal(status as nat))
            &&& status == 402 && (answer matches Some(Err(e))) ==> has_text(m->Fatal_0, answer->Some_0->Err_0)
        }),
{
    law_text_is_found("server returned "@, decimal(status as nat), Seq::empty());
    assert("server returned "@ + decimal(status as nat) + Seq::<char>::empty() =~= "server returned "@ + decimal(
        status as nat,
    ));
    if let Some(Err(e)) = answer {
        law_text_is_found("hashcash challenge: "@, e, Seq::empty());
        assert("hashcash challenge: "@ + e + Seq::<char>::empty() =~= "hashcash challenge: "@ + e);
    }
}

/// A call goes on where the connection failed or the server is busy, and
/// ends with the message of anything worse.
pub proof fn law_failed_requests(message: String)
    ensures
        verdict_on(Err(RetryableErr::Retry(message))) is Again,
        verdict_on(Err(RetryableErr::Fatal(message))) == Verdict::Error(message@),
{
}

/// The first pause is a quarter of a second, and each is twice the one
/// before. The longest that is made is 256 seconds.
pub proof fn law_pauses_double(n: nat)
    ensures
        pause(0) == 250,
        pause(n + 1) == 2 * pause(n),
        n <= 10 ==> pause(n) <= 256_000 && pause(n) <= LAST_DELAY,
        n > 10 ==> pause(n) > 256_000 && pause(n) > LAST_DELAY,
{
    law_eleven_pauses(n);
}

} // verus!
