use megadl::crypto::{ctr_at, ChunkedMac, FileKey};
use megadl::download::{
    ending, http_status_msg, idle_message, prepare, range_url, retry_reason, tmp_path, AttemptStep, Ending, Fetch,
    FetchErr, FetchStep, NapStep, Pause, Preparation, Sink, FETCH_CHUNK_SIZE,
};

fn sealed(plain: &[u8]) -> (FileKey, Vec<u8>) {
    let aes = [11u8; 16];
    let nonce = [3u8; 8];
    let mut mac = ChunkedMac::new(aes, nonce);
    mac.update(plain);
    let mut cipher = plain.to_vec();
    ctr_at(aes, nonce, 0).apply_keystream(&mut cipher);
    (FileKey { aes, nonce, meta_mac: mac.finish() }, cipher)
}

fn noise(len: usize) -> Vec<u8> {
    (0..len).map(|i| (i * i / 7 + i) as u8).collect()
}

/// Fetches what is missing, `step` bytes at a time, and stops after `stop`
/// bytes of a range.
fn fetch(f: &mut Fetch, disk: &mut Vec<u8>, cipher: &[u8], step: usize, stop: usize) -> Result<(), FetchErr> {
    let FetchStep::Range { from, end } = f.next_step() else { return Ok(()) };
    let (from, end) = (from as usize, end as usize);
    assert_eq!(from, disk.len());
    let till = end.min(from.saturating_add(stop));
    for part in cipher[from..till].chunks(step) {
        let mut buf = part.to_vec();
        assert!(f.has_room(buf.len()));
        f.decrypt(&mut buf);
        disk.extend_from_slice(&buf);
        f.commit(&buf);
    }
    assert_eq!(f.position() as usize, disk.len());
    f.end_range()
}

fn text(e: FetchErr) -> (u8, String) {
    match e {
        FetchErr::Cancelled => (0, e.message()),
        FetchErr::Retry(_) => (1, e.message()),
        FetchErr::Fatal(_) => (2, e.message()),
    }
}

#[test]
fn a_file_is_decrypted_and_verified() {
    let plain = noise(300_001);
    let (key, cipher) = sealed(&plain);
    let mut f = Fetch::start(key, plain.len() as i64);
    assert!(f.resumed("t").unwrap_or(Some(-1)).is_none());
    let mut disk = Vec::new();
    assert!(fetch(&mut f, &mut disk, &cipher, 7777, usize::MAX).is_ok());
    assert_eq!(f.next_step(), FetchStep::Complete);
    assert_eq!(disk, plain);
    assert!(f.verify().is_ok());
}

#[test]
fn an_interrupted_file_is_resumed() {
    let plain = noise(200_000);
    let (key, cipher) = sealed(&plain);
    for cut in [1usize, 15, 16, 4096, 131_072, 199_999] {
        let mut f = Fetch::start(key, plain.len() as i64);
        let mut disk = Vec::new();
        let early = fetch(&mut f, &mut disk, &cipher, 5000, cut).unwrap_err();
        assert_eq!(text(early), (1, format!("server closed the connection early ({cut} of 200000 bytes)")));
        // The program is started anew.
        let mut f = Fetch::start(key, plain.len() as i64);
        for part in disk.clone().chunks(1000) {
            f.feed_partial(part);
        }
        assert!(matches!(f.resumed("t"), Ok(Some(n)) if n == cut as i64));
        assert!(fetch(&mut f, &mut disk, &cipher, 333, usize::MAX).is_ok());
        assert_eq!(disk, plain);
        assert!(f.verify().is_ok());
    }
}

#[test]
fn a_damaged_file_is_noticed() {
    let plain = noise(1000);
    let (key, cipher) = sealed(&plain);
    let mut f = Fetch::start(key, 1000);
    let mut bad = cipher.clone();
    bad[999] ^= 1;
    assert!(fetch(&mut f, &mut Vec::new(), &bad, 1000, 1000).is_ok());
    assert_eq!(text(f.verify().unwrap_err()), (2, "MAC mismatch".into()));
}

#[test]
fn a_partial_file_can_be_too_large() {
    let (key, _) = sealed(b"abc");
    let mut f = Fetch::start(key, 3);
    f.feed_partial(b"abcd");
    let e = f.resumed("dir/.megatmp.H").err().unwrap();
    assert_eq!(
        text(e),
        (2, "unfinished download dir/.megatmp.H is larger than the remote file (remove it to fix this)".into())
    );
}

#[test]
fn an_empty_file_asks_for_nothing() {
    let (key, _) = sealed(b"");
    let mut f = Fetch::start(key, 0);
    assert_eq!(f.next_step(), FetchStep::Complete);
    assert!(f.verify().is_ok());
}

#[test]
fn ranges_are_bounded() {
    let (key, _) = sealed(b"");
    let mut f = Fetch::start(key, FETCH_CHUNK_SIZE);
    assert_eq!(f.next_step(), FetchStep::Range { from: 0, end: FETCH_CHUNK_SIZE });
    let mut f = Fetch::start(key, FETCH_CHUNK_SIZE + 5);
    assert_eq!(f.next_step(), FetchStep::Range { from: 0, end: 268_435_456 });
    let mut f = Fetch::start(key, i64::MAX);
    f.feed_partial(b"12345");
    assert_eq!(f.next_step(), FetchStep::Range { from: 5, end: 268_435_461 });
    assert_eq!(range_url("http://u", 5, 268_435_461), "http://u/5-268435460");
}

#[test]
fn pauses_double_until_something_comes() {
    let (key, cipher) = sealed(&noise(100));
    let mut f = Fetch::start(key, 100);
    assert_eq!(f.next_step(), FetchStep::Range { from: 0, end: 100 });
    for i in 1..=10u32 {
        let n = i.min(8);
        match f.after_attempt(Err(FetchErr::Retry("503".into())), false, false) {
            AttemptStep::Wait { reason, detail, attempt, delay_secs } => {
                assert_eq!((reason.as_str(), detail.as_str()), ("server busy", "503"));
                assert_eq!((attempt, delay_secs), (n, 1 << n));
            }
            _ => panic!("no pause"),
        }
        // The URL can't be found out either.
        assert_eq!(f.next_step(), FetchStep::Resolve);
    }
    f.on_url(100);
    let early = fetch(&mut f, &mut Vec::new(), &cipher, 10, 10);
    match f.after_attempt(early, false, false) {
        AttemptStep::Wait { attempt, delay_secs, .. } => assert_eq!((attempt, delay_secs), (1, 2)),
        _ => panic!("no pause"),
    }
}

#[test]
fn attempts_end_a_download() {
    let (key, _) = sealed(&noise(100));
    let mut f = Fetch::start(key, 100);
    let mut stopped = |outcome, cancelled, late| match f.after_attempt(outcome, cancelled, late) {
        AttemptStep::Stop(e) => Some(text(e)),
        AttemptStep::Next => None,
        AttemptStep::Wait { .. } => panic!("waits"),
    };
    assert_eq!(stopped(Ok(()), true, true), None);
    assert_eq!(stopped(Err(FetchErr::Cancelled), false, false), Some((0, "cancelled".into())));
    assert_eq!(stopped(Err(FetchErr::Fatal("f".into())), true, true), Some((2, "f".into())));
    assert_eq!(stopped(Err(FetchErr::Retry("r".into())), true, true), Some((0, "cancelled".into())));
    assert_eq!(stopped(Err(FetchErr::Retry("r".into())), false, true), Some((2, "data download failed: r".into())));
}

#[test]
fn statuses_are_looked_at() {
    let (key, _) = sealed(b"");
    let f = Fetch::start(key, 0);
    assert!(f.on_status(200).is_ok() && f.on_status(201).is_ok());
    assert_eq!(text(f.on_status(509).err().unwrap()), (1, "Server returned 509 (over quota)".into()));
    assert_eq!(text(f.on_status(500).err().unwrap()), (1, "Server returned 500 (probably busy)".into()));
    assert_eq!(http_status_msg(404), "Server returned 404");
}

#[test]
fn reasons_are_told() {
    assert_eq!(retry_reason(&http_status_msg(509)), "transfer quota exceeded");
    for s in [500, 502, 503, 504] {
        assert_eq!(retry_reason(&http_status_msg(s)), "server busy");
    }
    assert_eq!(idle_message(), "no data received for 120s");
    assert_eq!(retry_reason(&idle_message()), "no data from server");
    assert_eq!(retry_reason("reset"), "connection failed");
    assert_eq!(retry_reason("no data 509"), "transfer quota exceeded");
}

#[test]
fn partial_files_lie_beside_the_target() {
    assert_eq!(tmp_path(Some("a/b"), "H"), "a/b/.megatmp.H");
    assert_eq!(tmp_path(Some(""), "H"), ".megatmp.H");
    assert_eq!(tmp_path(None, "H"), "./.megatmp.H");
}

#[test]
fn pauses_are_slept_in_steps() {
    let mut p = Pause::new(2);
    let mut total = 0;
    loop {
        match p.next(false) {
            NapStep::Sleep(ms) => {
                assert_eq!(ms, 200);
                total += ms;
            }
            NapStep::Over { cancelled } => {
                assert!(!cancelled);
                break;
            }
        }
    }
    assert_eq!(total, 2000);
    let mut p = Pause { left_millis: 250 };
    assert_eq!(p.next(false), NapStep::Sleep(200));
    assert_eq!(p.next(false), NapStep::Sleep(50));
    assert_eq!(p.next(true), NapStep::Over { cancelled: true });
    assert_eq!(Pause::new(9).next(true), NapStep::Over { cancelled: true });
}

struct Silent;

impl Sink for Silent {}

#[test]
fn sinks_need_not_listen() {
    let mut s = Silent;
    s.skip("p");
    s.start("p", "r", 1);
    s.resume(1, 2);
    s.progress(1, 2);
    s.verifying();
    s.retry("r", "d", 1, 2);
    s.done("p");
    s.error("p", "m");
}

#[test]
fn files_that_exist_are_skipped() {
    assert_eq!(prepare(true, Some("dir")), Preparation::Skip);
    assert_eq!(prepare(false, Some("dir")), Preparation::MakeDir);
    assert_eq!(prepare(false, Some("")), Preparation::Fetch);
    assert_eq!(prepare(false, None), Preparation::Fetch);
}

#[test]
fn a_cancelled_file_did_not_fail() {
    assert!(matches!(ending(Ok(())), Ending::Done));
    assert!(matches!(ending(Err(FetchErr::Cancelled)), Ending::Cancelled));
    assert!(matches!(ending(Err(FetchErr::Retry("r".into()))), Ending::Failed(m) if m == "r"));
    assert!(matches!(ending(Err(FetchErr::Fatal("f".into()))), Ending::Failed(m) if m == "f"));
}

#[test]
fn urls_are_found_out_again_on_a_retry() {
    let plain = noise(100);
    let (key, cipher) = sealed(&plain);
    let mut f = Fetch::start(key, 100);
    let mut disk = Vec::new();
    let early = fetch(&mut f, &mut disk, &cipher, 10, 30);
    assert!(matches!(f.after_attempt(early, false, false), AttemptStep::Wait { .. }));
    assert_eq!(f.next_step(), FetchStep::Resolve);
    assert_eq!(f.next_step(), FetchStep::Resolve);
    f.on_url(100);
    assert_eq!(f.next_step(), FetchStep::Range { from: 30, end: 100 });
    let rest = fetch(&mut f, &mut disk, &cipher, 10, 100);
    assert!(matches!(f.after_attempt(rest, false, false), AttemptStep::Next));
    assert_eq!(f.next_step(), FetchStep::Complete);
    assert_eq!(disk, plain);
    assert!(f.verify().is_ok());
}
