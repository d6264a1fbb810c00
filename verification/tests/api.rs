use megadl::api::{
    decode_api_response, file_command, folder_command, node_command, request_body, solve_hashcash, srv_error,
    srv_error_name, ApiClient, ApiOutcome, CallStep, Calling, PostStep, Posting, RetryableErr, DEFAULT_API_URL,
};
use megadl::crypto::{b64decode, b64encode};
use megadl::hashcash::{read_challenge, threshold};
use serde_json::Value;
use sha2::{Digest, Sha256};

fn value(text: &str) -> Value {
    serde_json::from_str(text).unwrap()
}

fn decoded(data: &[u8]) -> Result<Option<Value>, String> {
    match decode_api_response(data)? {
        ApiOutcome::Value(v) => Ok(Some(v)),
        ApiOutcome::Retry => Ok(None),
    }
}

#[test]
fn replies_are_decoded() {
    assert_eq!(decoded(b"[{\"g\":\"u\"}]"), Ok(Some(value("{\"g\":\"u\"}"))));
    assert_eq!(decoded(b" [\"x\", -9] \n"), Ok(Some(value("\"x\""))));
    assert_eq!(decoded(b"[1.5]"), Ok(Some(value("1.5"))));
    assert_eq!(decoded(b"-3"), Ok(None));
    assert_eq!(decoded(b" -3\n"), Ok(None));
    assert_eq!(decoded(b"[-3]"), Ok(None));
    assert_eq!(decoded(b"[-3, {}]"), Ok(None));
}

#[test]
fn error_replies_are_told() {
    let err = |s: &str| Err::<Option<Value>, String>(s.to_string());
    assert_eq!(decoded(b"-9"), err("server returned error ENOENT"));
    assert_eq!(decoded(b"[-9]"), err("server returned error ENOENT"));
    assert_eq!(decoded(b"-77"), err("server returned error EUNKNOWN (-77)"));
    assert_eq!(decoded(b"0"), err("unexpected API response 0"));
    assert_eq!(decoded(b"[ 7 ]"), err("unexpected API response [ 7 ]"));
    assert_eq!(decoded(b"[]"), err("invalid API response"));
    assert_eq!(decoded(b"{}"), err("invalid API response"));
    assert_eq!(decoded(b""), err("invalid API response"));
    assert_eq!(decoded(b"\xff[1]"), err("invalid API response"));
}

#[test]
fn errors_have_names() {
    let names = [
        "EINTERNAL", "EARGS", "EAGAIN", "ERATELIMIT", "EFAILED", "ETOOMANY", "ERANGE", "EEXPIRED", "ENOENT", "ECIRCULAR",
        "EACCESS", "EEXIST", "EINCOMPLETE", "EKEY", "ESID", "EBLOCKED", "EOVERQUOTA", "ETEMPUNAVAIL",
        "ETOOMANYCONNECTIONS",
    ];
    for (i, name) in names.iter().enumerate() {
        let code = -1 - i as i64;
        assert_eq!(srv_error_name(code), *name);
        assert_eq!(srv_error(code), format!("server returned error {name}"));
    }
    for code in [0, 1, -20, i64::MIN] {
        assert_eq!(srv_error_name(code), "EUNKNOWN");
        assert_eq!(srv_error(code), format!("server returned error EUNKNOWN ({code})"));
    }
}

#[test]
fn requests_are_numbered() {
    let mut api = ApiClient::new(DEFAULT_API_URL, "");
    assert_eq!(api.request_url(), "https://g.api.mega.co.nz/cs?id=0");
    assert_eq!(api.request_url(), "https://g.api.mega.co.nz/cs?id=1");
    let mut api = ApiClient::new("u", "FOLDER");
    assert_eq!(api.request_url(), "u?id=0&n=FOLDER");
    api.seq = u32::MAX;
    assert_eq!(api.request_url(), "u?id=4294967295&n=FOLDER");
    assert_eq!(api.request_url(), "u?id=0&n=FOLDER");
}

#[test]
fn commands_are_written() {
    let body = |cmd: Value| serde_json::from_slice::<Value>(&request_body(&cmd).unwrap()).unwrap();
    assert_eq!(body(file_command("H\"1")), value("[{\"a\":\"g\",\"g\":1,\"ssl\":0,\"p\":\"H\\\"1\"}]"));
    assert_eq!(body(node_command("H2")), value("[{\"a\":\"g\",\"g\":1,\"ssl\":0,\"n\":\"H2\"}]"));
    assert_eq!(body(folder_command()), value("[{\"a\":\"f\",\"c\":1,\"r\":1}]"));
    assert_eq!(request_body(&folder_command()).unwrap(), b"[{\"a\":\"f\",\"c\":1,\"r\":1}]");
}

fn done(step: PostStep) -> Result<Vec<u8>, (bool, String)> {
    match step {
        PostStep::Done(Ok(b)) => Ok(b),
        PostStep::Done(Err(RetryableErr::Retry(m))) => Err((true, m)),
        PostStep::Done(Err(RetryableErr::Fatal(m))) => Err((false, m)),
        PostStep::Send(_) => panic!("sent again"),
    }
}

#[test]
fn statuses_end_a_request() {
    let reply = |status| {
        let (mut p, first) = Posting::start();
        assert!(matches!(first, PostStep::Send(None)));
        done(p.on_reply(status, None, b"body".to_vec()))
    };
    assert_eq!(reply(200), Ok(b"body".to_vec()));
    assert_eq!(reply(201), Ok(b"body".to_vec()));
    assert_eq!(reply(500), Err((true, "server returned 500 (probably busy)".into())));
    assert_eq!(reply(404), Err((false, "server returned 404".into())));
    assert_eq!(reply(402), Err((false, "402 without an X-Hashcash challenge".into())));
    assert_eq!(done(Posting::start().0.on_failure("broken".into())), Err((true, "broken".into())));
    let (mut p, _) = Posting::start();
    assert_eq!(done(p.on_reply(402, Some("2:1:2:3"), Vec::new())), Err((false, "hashcash challenge: unsupported challenge \"2:1:2:3\"".into())));
}

#[test]
fn a_request_is_sent_four_times_at_most() {
    let (mut p, _) = Posting::start();
    for i in 0..3 {
        match p.on_answer(402, Some(Ok(format!("proof {i}"))), Vec::new()) {
            PostStep::Send(Some(t)) => assert_eq!(t, format!("proof {i}")),
            _ => panic!("not sent"),
        }
    }
    assert_eq!(done(p.on_answer(402, Some(Ok("proof".into())), Vec::new())), Err((false, "too many hashcash retries".into())));
}

#[test]
fn a_call_waits_eleven_times() {
    let mut c = Calling::start();
    let mut expected = 250;
    for i in 0..11 {
        let posted = match i % 3 {
            0 => Ok(b"-3".to_vec()),
            1 => Ok(b"[-3]".to_vec()),
            _ => Err(RetryableErr::Retry("x".into())),
        };
        match c.on_posted(posted) {
            CallStep::Wait(ms) => assert_eq!(ms, expected),
            CallStep::Return(_) => panic!("gave up"),
        }
        expected *= 2;
    }
    match c.on_posted(Ok(b"-3".to_vec())) {
        CallStep::Return(Err(e)) => assert_eq!(e, "server keeps asking us to retry, giving up"),
        _ => panic!("went on"),
    }
}

#[test]
fn a_call_returns_what_came() {
    let returned = |posted| match Calling::start().on_posted(posted) {
        CallStep::Return(r) => r,
        CallStep::Wait(_) => panic!("waits"),
    };
    assert_eq!(returned(Ok(b"[{}]".to_vec())), Ok(value("{}")));
    assert_eq!(returned(Ok(b"-2".to_vec())), Err("server returned error EARGS".into()));
    assert_eq!(returned(Err(RetryableErr::Fatal("no".into()))), Err("no".into()));
}

#[test]
fn challenges_are_read() {
    let token = b64encode(&[1u8; 48]);
    let c = read_challenge(&format!("1:180:junk:{token}")).unwrap();
    assert_eq!((c.easiness, c.token_text.as_str(), c.token), (180, token.as_str(), vec![1u8; 48]));
    let err = |s: &str| match read_challenge(s) {
        Ok(_) => panic!("taken"),
        Err(e) => e,
    };
    for s in ["", "1:2:3", "1:2:3:4:5", "2:1:j:t", "1:\n:j"] {
        assert_eq!(err(s), format!("unsupported challenge {s:?}"));
    }
    for e in ["", "x", "-1", "256", "99999999999"] {
        assert_eq!(err(&format!("1:{e}:j:{token}")), "bad easiness");
    }
    assert_eq!(err("1:9:j:AAAA"), "bad token");
    assert_eq!(err("1:9:j:*"), "invalid base64 byte 42");
}

#[test]
fn thresholds_are_shifted() {
    for e in 0..=255u32 {
        assert_eq!(threshold(e as u8), ((e & 63) << 1 | 1) << ((e >> 6) * 7 + 3));
    }
}

#[test]
fn hashcash_is_solved() {
    let token = b64encode(&[7u8; 48]);
    let answer = solve_hashcash(&format!("1:255:junk:{token}")).unwrap();
    let parts: Vec<&str> = answer.split(':').collect();
    assert_eq!(parts.len(), 3);
    assert_eq!((parts[0], parts[1]), ("1", token.as_str()));
    let prefix = b64decode(parts[2]).unwrap();
    let found = u32::from_le_bytes([prefix[0], prefix[1], prefix[2], prefix[3]]);
    let mut buf = vec![7u8; 4 + 48 * 262144];
    for n in 1..=found {
        buf[..4].copy_from_slice(&n.to_le_bytes());
        let sum = Sha256::digest(&buf);
        let head = u32::from_be_bytes([sum[0], sum[1], sum[2], sum[3]]);
        assert_eq!(head <= 127 << 24, n == found);
    }
}
