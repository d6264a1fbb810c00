use megadl::download::{FileJob, UrlSource};
use megadl::crypto::FileKey;
use megadl::order::rank;
use megadl::term::{after_escape, first_byte, FirstByte, Key};
use megadl::tui::{
    apply, file_count, find, needs_choice, resume_note, retry_note, Action, Batch, BatchStep, Event, Item, Job, Mode, Queue,
    QueueStep, Status, Ui,
};
use megadl::view::{bar_width_for, count_items, modal, render, truncate, width_for, Gauge};
use megadl::Entry;

type App = Ui<u32, i64>;

fn typed(ui: &mut App, text: &str) {
    for c in text.chars() {
        assert!(matches!(ui.on_key(Key::Char(c)), Action::Nothing));
    }
}

fn added(ui: &mut App, name: &str) -> Job {
    ui.on_chosen(Some(vec![]), 1, name.into(), format!("url {name}"), "dest".into()).unwrap()
}

fn status(ui: &App, i: usize) -> String {
    match &ui.items[i].status {
        Status::Queued => "queued".into(),
        Status::Active { done, total, rate, note } => format!("{done}/{total} {rate} {note}"),
        Status::Verifying => "verifying".into(),
        Status::Done => "done".into(),
        Status::Error(m) => format!("error {m}"),
    }
}

#[test]
fn keys_are_read_from_bytes() {
    let key = |b| match first_byte(b) {
        FirstByte::Key(k) => Some(k),
        _ => None,
    };
    assert_eq!(key(3), Some(Key::CtrlC));
    assert_eq!((key(b'\r'), key(b'\n')), (Some(Key::Enter), Some(Key::Enter)));
    assert_eq!((key(0x7f), key(8)), (Some(Key::Backspace), Some(Key::Backspace)));
    assert_eq!((key(b'\t'), key(b' ')), (Some(Key::Tab), Some(Key::Space)));
    assert_eq!((key(b'a'), key(1)), (Some(Key::Char('a')), Some(Key::Char('\u{1}'))));
    assert!(matches!(first_byte(0x1b), FirstByte::Escape));
    assert!(matches!(first_byte(0x80), FirstByte::Nothing));
    assert!(matches!(first_byte(0xff), FirstByte::Nothing));
    assert_eq!(after_escape(None), Some(Key::Esc));
    assert_eq!(after_escape(Some((b'O', b'A'))), Some(Key::Esc));
    assert_eq!(after_escape(Some((b'[', b'A'))), Some(Key::Up));
    assert_eq!(after_escape(Some((b'[', b'B'))), Some(Key::Down));
    assert_eq!(after_escape(Some((b'[', b'C'))), Some(Key::Right));
    assert_eq!(after_escape(Some((b'[', b'D'))), Some(Key::Left));
    assert_eq!(after_escape(Some((b'[', b'Z'))), None);
}

#[test]
fn a_link_is_asked_for() {
    let mut ui: App = Ui::new();
    ui.on_key(Key::Char('a'));
    typed(&mut ui, "linkx");
    ui.on_key(Key::Backspace);
    ui.on_key(Key::Space);
    assert!(matches!(&ui.mode, Mode::AskUrl { buf } if buf == "link"));
    ui.on_key(Key::Enter);
    assert!(matches!(&ui.mode, Mode::AskDest { url, buf } if url == "link" && buf.is_empty()));
    match ui.on_key(Key::Enter) {
        Action::Resolve { url, dest } => assert_eq!((url.as_str(), dest.as_str()), ("link", ".")),
        _ => panic!("not resolved"),
    }
    assert!(matches!(&ui.mode, Mode::Message(m) if m == "resolving link\u{2026}"));
    ui.on_key(Key::Char('x'));
    assert!(matches!(ui.mode, Mode::List));

    ui.on_key(Key::Char('a'));
    ui.on_key(Key::Enter);
    assert!(matches!(ui.mode, Mode::List));
    ui.on_key(Key::Char('a'));
    ui.on_key(Key::Esc);
    assert!(matches!(ui.mode, Mode::List));
    ui.on_key(Key::Char('a'));
    typed(&mut ui, "u");
    ui.on_key(Key::Enter);
    typed(&mut ui, "\u{a0}dir/x ");
    match ui.on_key(Key::Enter) {
        Action::Resolve { url, dest } => assert_eq!((url.as_str(), dest.as_str()), ("u", "dir/x")),
        _ => panic!("not resolved"),
    }
}

#[test]
fn chosen_links_are_queued() {
    let mut ui: App = Ui::new();
    let job = ui.on_chosen(Some(vec!["A".into(), "B".into()]), 9, "n".into(), "u".into(), "d".into()).unwrap();
    assert_eq!((job.id, job.url.as_str(), job.dest.as_str()), (1, "u", "d"));
    assert_eq!(job.selected, vec!["A", "B"]);
    assert_eq!((ui.items[0].id, ui.items[0].files, ui.items[0].name.as_str()), (1, 2, "n"));
    assert_eq!(status(&ui, 0), "queued");
    assert_eq!(added(&mut ui, "m").id, 2);
    assert_eq!((ui.cursor, ui.items[1].files), (1, 1));
    assert!(ui.on_chosen(None, 9, "n".into(), "u".into(), "d".into()).is_none());
    assert!(matches!(ui.mode, Mode::List));
    assert!(ui.on_chosen(Some(vec![]), 0, "n".into(), "u".into(), "d".into()).is_none());
    assert!(matches!(&ui.mode, Mode::Message(m) if m == "\x1b[33mnothing selected\x1b[0m  (any key)"));
    assert_eq!(ui.items.len(), 2);
    ui.on_resolve_error("bad");
    assert!(matches!(&ui.mode, Mode::Message(m) if m == "\x1b[31mbad\x1b[0m  (any key)"));
}

#[test]
fn the_list_is_walked() {
    let mut ui: App = Ui::new();
    for n in ["a", "b", "c"] {
        added(&mut ui, n);
    }
    assert_eq!(ui.cursor, 2);
    ui.on_key(Key::Down);
    assert_eq!(ui.cursor, 2);
    ui.on_key(Key::Up);
    ui.on_key(Key::Char('k'));
    ui.on_key(Key::Up);
    assert_eq!(ui.cursor, 0);
    ui.on_key(Key::Char('j'));
    assert_eq!(ui.cursor, 1);
    assert!(matches!(ui.on_key(Key::Char('q')), Action::Quit));
    assert!(matches!(ui.on_key(Key::CtrlC), Action::Quit));
}

#[test]
fn items_that_run_are_not_removed() {
    let mut ui: App = Ui::new();
    assert!(matches!(ui.on_key(Key::Char('d')), Action::Nothing));
    for n in ["a", "b", "c"] {
        added(&mut ui, n);
    }
    ui.on_event(Event::Started { id: 2, name: "b2".into(), rate: 0 });
    assert!(matches!(ui.on_key(Key::Char('d')), Action::Unqueue(3)));
    assert_eq!((ui.cursor, ui.items.len()), (1, 2));
    assert!(matches!(ui.on_key(Key::Char('d')), Action::Nothing));
    ui.on_event(Event::Verifying { id: 2 });
    assert!(matches!(ui.on_key(Key::Char('d')), Action::Nothing));
    ui.on_event(Event::Finished { id: 2 });
    assert!(matches!(ui.on_key(Key::Char('d')), Action::Unqueue(2)));
    assert_eq!((ui.cursor, ui.items.len(), ui.items[0].name.as_str()), (0, 1, "a"));
}

#[test]
fn events_reach_their_item() {
    let mut ui: App = Ui::new();
    added(&mut ui, "a");
    added(&mut ui, "b");
    ui.on_event(Event::Note { id: 2, note: "early".into() });
    assert_eq!(status(&ui, 1), "queued");
    ui.on_event(Event::Started { id: 2, name: "B".into(), rate: 0 });
    assert_eq!((status(&ui, 1).as_str(), ui.items[1].name.as_str()), ("0/0 0 ", "B"));
    ui.on_event(Event::Note { id: 2, note: "hm".into() });
    ui.on_event(Event::Progress { id: 2, done: 5, total: 9, rate: 3, sample: Some(77) });
    assert_eq!((status(&ui, 1).as_str(), ui.items[1].last_sample), ("5/9 3 hm", Some(77)));
    ui.on_event(Event::Progress { id: 2, done: -5, total: 9, rate: 4, sample: None });
    assert_eq!((status(&ui, 1).as_str(), ui.items[1].last_sample), ("0/9 4 hm", None));
    ui.on_event(Event::Verifying { id: 2 });
    assert_eq!(status(&ui, 1), "verifying");
    ui.on_event(Event::Progress { id: 2, done: 1, total: 9, rate: 4, sample: None });
    assert_eq!(status(&ui, 1), "1/9 4 ");
    ui.on_event(Event::Failed { id: 2, message: "m".into() });
    assert_eq!(status(&ui, 1), "error m");
    ui.on_event(Event::Finished { id: 9 });
    assert_eq!((status(&ui, 0).as_str(), status(&ui, 1).as_str()), ("queued", "error m"));
    apply(&mut ui.items, Event::Finished { id: 1 });
    assert_eq!(status(&ui, 0), "done");
    assert_eq!((find(&ui.items, 2), find(&ui.items, 3)), (Some(1), None));
}

#[test]
fn the_queue_keeps_its_order() {
    let job = |id| Job { id, url: String::new(), dest: String::new(), selected: vec![] };
    let mut q = Queue::new();
    assert!(matches!(q.pop(false), QueueStep::Wait));
    assert!(matches!(q.pop(true), QueueStep::Quit));
    for id in [1, 2, 3, 4] {
        q.push(job(id));
    }
    q.remove(2);
    q.remove(9);
    let mut out = Vec::new();
    assert!(matches!(q.pop(true), QueueStep::Quit));
    while let QueueStep::Work(j) = q.pop(false) {
        out.push(j.id);
    }
    assert_eq!(out, vec![1, 3, 4]);
}

fn file(size: i64) -> FileJob {
    FileJob {
        local_path: String::new(),
        remote_path: String::new(),
        size,
        handle: String::new(),
        key: FileKey { aes: [0; 16], nonce: [0; 8], meta_mac: [0; 8] },
        source: UrlSource::Node { handle: String::new() },
    }
}

#[test]
fn one_bar_goes_over_all_files() {
    let jobs = [file(10), file(20), file(5)];
    let mut b = Batch::new(7, &jobs);
    assert_eq!((b.id, b.grand_total, b.at(3)), (7, 35, 3));
    for i in 0..3 {
        assert!(matches!(b.step(&jobs), BatchStep::Sync(n) if n == i));
        b.on_synced(&jobs, true);
    }
    assert_eq!(b.completed, 35);
    assert!(matches!(b.step(&jobs), BatchStep::Finished));
    let mut b = Batch::new(7, &jobs);
    b.on_synced(&jobs, true);
    assert_eq!(b.at(4), 14);
    b.on_synced(&jobs, false);
    assert!(matches!(b.step(&jobs), BatchStep::Stopped));
    assert!(matches!(Batch::new(1, &[]).step(&[]), BatchStep::Finished));
}

#[test]
fn notes_are_written() {
    assert_eq!(resume_note(1536), "resuming at 1.5 KiB");
    assert_eq!(retry_note("server busy", 3, 8), "server busy \u{b7} retry 3 in 8s");
}

#[test]
fn folders_with_several_files_are_picked_from() {
    let e = |is_dir| Entry {
        index: 1,
        path: String::new(),
        name: String::new(),
        is_dir,
        size: 0,
        handle: String::new(),
        parent: None,
    };
    assert_eq!(file_count(&[e(true), e(false), e(false)]), 2);
    assert!(needs_choice(true, 2));
    assert!(!needs_choice(true, 1) && !needs_choice(false, 2));
}

#[test]
fn widths_are_bounded() {
    assert_eq!((width_for(10), width_for(100), width_for(500)), (48, 100, 160));
    assert_eq!((bar_width_for(48), bar_width_for(20), bar_width_for(160)), (14, 10, 60));
}

#[test]
fn long_messages_are_cut() {
    assert_eq!(truncate("abcdef", 6), "abcdef");
    assert_eq!(truncate("abcdef", 5), "abcd\u{2026}");
    assert_eq!(truncate("abcdef", 1), "\u{2026}");
    assert_eq!(truncate("abcdef", 0), "abcdef");
    assert_eq!(truncate("\u{e9}\u{e9}\u{e9}", 2), "\u{e9}\u{2026}");
}

#[test]
fn input_is_framed() {
    let text = modal("label", "abcdefghijkl", 12, "hint");
    let lines: Vec<&str> = text.split("\r\n").collect();
    assert_eq!(lines[0], "\x1b[38;5;44m\u{256d}\u{2500} \x1b[1mlabel\x1b[0m \x1b[38;5;44m\u{2500}\u{256e}\x1b[0m");
    assert_eq!(lines[1], "\x1b[38;5;44m\u{2502}\x1b[0m ghijkl\x1b[38;5;44m\u{2588}\x1b[0m \x1b[38;5;44m\u{2502}\x1b[0m");
    assert_eq!(lines[2], format!("\x1b[38;5;44m\u{2570}{}\u{256f}\x1b[0m", "\u{2500}".repeat(10)));
    assert_eq!(lines[3], " \x1b[90mhint\x1b[0m");
    assert_eq!(lines.len(), 5);
}

fn gauge() -> Gauge {
    Gauge { bar: "BAR".into(), percent: " 50".into(), speed: "fast".into() }
}

#[test]
fn the_screen_shows_every_state() {
    let mut ui: App = Ui::new();
    for n in ["a", "b", "c", "d", "e"] {
        added(&mut ui, n);
    }
    ui.items[1].files = 3;
    ui.on_event(Event::Started { id: 2, name: "b".into(), rate: 0 });
    ui.on_event(Event::Note { id: 2, note: "note".into() });
    ui.on_event(Event::Progress { id: 2, done: 512, total: 1024, rate: 0, sample: None });
    ui.on_event(Event::Verifying { id: 3 });
    ui.on_event(Event::Finished { id: 4 });
    ui.on_event(Event::Failed { id: 5, message: "broken".into() });
    let c = count_items(&ui.items);
    assert_eq!((c.active, c.done, c.failed), (2, 1, 1));
    let gauges: Vec<Gauge> = (0..5).map(|_| gauge()).collect();
    let out = render(&ui, &gauges, 80, 40);
    assert!(out.starts_with("\x1b[H\x1b[2J\x1b[38;5;44m\u{256d}"));
    assert!(out.contains(&format!(
        "download manager\x1b[0m{}\x1b[90m2 active \u{b7} 1 done \u{b7} 1 failed\x1b[0m \x1b[38;5;44m\u{2502}\x1b[0m\r\n",
        " ".repeat(14)
    )));
    assert!(out.contains("\r\n   \x1b[90m\u{22ef}\x1b[0m \x1b[90ma\x1b[0m\r\n     \x1b[90mwaiting \u{b7} \u{2192} dest\x1b[0m\r\n"));
    assert!(out.contains("\x1b[38;5;44m\u{25bc}\x1b[0m b\x1b[0m\x1b[90m (3 files)\x1b[0m\r\n     \x1b[38;5;44mBAR\x1b[0m  50%  \x1b[90m512 B / 1.0 KiB  fast\x1b[0m\r\n     \x1b[33mnote\x1b[0m\r\n"));
    assert!(out.contains("\x1b[33m\u{2726}\x1b[0m c\x1b[0m\r\n     \x1b[33mverifying integrity (MAC)\u{2026}\x1b[0m\r\n"));
    let full = "\u{2588}".repeat(46);
    assert!(out.contains(&format!("     \x1b[32m{full}\x1b[0m \x1b[90mcomplete \u{2192} dest\x1b[0m\r\n")));
    assert!(out.contains("\r\n \x1b[38;5;44m\u{25b8}\x1b[0m \x1b[31m\u{2717}\x1b[0m \x1b[31me\x1b[0m\r\n     \x1b[31mbroken\x1b[0m\r\n"));
    assert!(out.ends_with("\x1b[1mq\x1b[0m\x1b[90m quit\x1b[0m\r\n"));
    // Only what fits is shown.
    let out = render(&ui, &gauges, 80, 13);
    assert!(out.contains("\u{25bc}") && !out.contains("\u{2726}"));
    let out = render(&ui, &gauges, 80, 0);
    assert!(out.contains("waiting") && !out.contains("\u{25bc}"));
}

#[test]
fn an_empty_screen_tells_what_to_do() {
    let mut ui: App = Ui::new();
    let none: Vec<Gauge> = vec![];
    assert!(render(&ui, &none, 80, 24).contains("queue is empty"));
    ui.on_key(Key::Char('a'));
    assert!(render(&ui, &none, 80, 24).contains("paste a mega.nz link"));
    typed(&mut ui, "u");
    ui.on_key(Key::Enter);
    assert!(render(&ui, &none, 80, 24).contains("destination directory"));
    ui.on_resolve_error("why");
    assert!(render(&ui, &none, 80, 24).ends_with("\r\n \x1b[31mwhy\x1b[0m  (any key)\r\n"));
}

#[test]
fn items_are_ranked_stably() {
    let keys: Vec<Vec<u8>> = ["b", "", "ab", "b", "a", "\u{e9}", "a", "abc"].iter().map(|s| s.as_bytes().to_vec()).collect();
    let mut expected: Vec<usize> = (0..keys.len()).collect();
    expected.sort_by(|x, y| keys[*x].cmp(&keys[*y]));
    assert_eq!(rank(&keys), expected);
    assert_eq!(rank(&vec![]), Vec::<usize>::new());
    let items: Vec<Item<u32, i64>> = vec![];
    assert_eq!(find(&items, 0), None);
}
