use megadl::picker::{descendants, mark_of, pick, rows_from_listing, toggle, visible_len, Mark, Picker, Row};
use megadl::term::Key;
use megadl::term::Key::{Backspace, Char, CtrlC, Down, Enter, Left, Space, Tab, Up};
use megadl::Entry;

/// /root, /root/a.bin, /root/sub, /root/sub/b.bin, /root/sub/c.bin
fn tree() -> Vec<Row> {
    let spec: &[(&str, usize, bool)] = &[
        ("root", 0, true),
        ("a.bin", 1, false),
        ("sub", 1, true),
        ("b.bin", 2, false),
        ("c.bin", 2, false),
    ];
    spec.iter()
        .enumerate()
        .map(|(i, (label, depth, is_dir))| Row {
            label: label.to_string(),
            depth: *depth,
            is_dir: *is_dir,
            size: 10,
            handle: format!("h{i}"),
        })
        .collect()
}

#[test]
fn descendants_span_the_subtree() {
    let rows = tree();
    assert_eq!(descendants(&rows, 0), 1..5); // root covers everything
    assert_eq!(descendants(&rows, 2), 3..5); // sub covers b and c
    assert_eq!(descendants(&rows, 1), 2..2); // a file has none
}

#[test]
fn toggling_a_dir_clears_then_sets_its_files() {
    let rows = tree();
    let mut chosen: Vec<bool> = rows.iter().map(|r| !r.is_dir).collect();
    assert_eq!(mark_of(&rows, &chosen, 0), Mark::On);

    toggle(&rows, &mut chosen, 0); // everything off
    assert_eq!(chosen, vec![false; 5]);
    assert_eq!(mark_of(&rows, &chosen, 0), Mark::Off);

    toggle(&rows, &mut chosen, 2); // just sub's files back on
    assert_eq!(chosen, vec![false, false, false, true, true]);
    assert_eq!(mark_of(&rows, &chosen, 2), Mark::On);
    assert_eq!(mark_of(&rows, &chosen, 0), Mark::Partial);
}

#[test]
fn toggling_one_file_makes_its_parent_partial() {
    let rows = tree();
    let mut chosen: Vec<bool> = rows.iter().map(|r| !r.is_dir).collect();
    toggle(&rows, &mut chosen, 3);
    assert!(!chosen[3]);
    assert_eq!(mark_of(&rows, &chosen, 2), Mark::Partial);
}

#[test]
fn scripted_keys_return_only_checked_files() {
    let rows = tree();
    // space (clear root) → down,down,down (to b.bin) → space → enter
    let mut script = vec![Key::Enter, Key::Space, Key::Down, Key::Down, Key::Down, Key::Space];
    script.reverse();
    let picked = pick(&rows, "t", &script).unwrap();
    assert_eq!(picked, vec!["h3".to_string()]);
}

#[test]
fn cancelling_returns_none() {
    let rows = tree();
    let script = vec![Key::Esc];
    assert!(pick(&rows, "t", &script).is_none());
}

#[test]
fn everything_is_picked_at_first() {
    let rows = tree();
    assert_eq!(pick(&rows, "t", &[Key::Enter]).unwrap(), vec!["h1", "h3", "h4"]);
}

#[test]
fn keys_move_and_choose() {
    let rows = tree();
    assert_eq!(pick(&rows, "t", &[Char('n'), Enter]).unwrap(), Vec::<String>::new());
    assert_eq!(pick(&rows, "t", &[Char('n'), Char('a'), Enter]).unwrap(), vec!["h1", "h3", "h4"]);
    assert_eq!(pick(&rows, "t", &[Char('n'), Char('G'), Space, Enter]).unwrap(), vec!["h4"]);
    assert_eq!(pick(&rows, "t", &[Char('n'), Char('G'), Down, Char('k'), Space, Enter]).unwrap(), vec!["h3"]);
    assert_eq!(pick(&rows, "t", &[Char('n'), Char('G'), Char('g'), Up, Char('j'), Space, Enter]).unwrap(), vec!["h1"]);
    assert_eq!(pick(&rows, "t", &[Tab, Left, Backspace, Char('x'), Enter]).unwrap(), vec!["h1", "h3", "h4"]);
    assert!(pick(&rows, "t", &[Char('q'), Enter]).is_none());
    assert!(pick(&rows, "t", &[CtrlC, Enter]).is_none());
    assert!(pick(&rows, "t", &[Space]).is_none());
    assert_eq!(pick(&[], "t", &[]).unwrap(), Vec::<String>::new());
}

#[test]
fn toggling_twice_restores() {
    let rows = tree();
    for i in 0..rows.len() {
        let before: Vec<bool> = rows.iter().map(|r| !r.is_dir).collect();
        let mut chosen = before.clone();
        toggle(&rows, &mut chosen, i);
        assert_ne!(chosen, before);
        toggle(&rows, &mut chosen, i);
        assert_eq!(chosen, before);
    }
}

#[test]
fn an_empty_directory_is_off() {
    let rows = vec![Row { label: "d".into(), depth: 0, is_dir: true, size: 0, handle: "h".into() }];
    let mut chosen = vec![false];
    assert_eq!(mark_of(&rows, &chosen, 0), Mark::Off);
    toggle(&rows, &mut chosen, 0);
    assert_eq!(chosen, vec![false]);
}

#[test]
fn the_window_follows_the_cursor() {
    let rows: Vec<Row> = (0..20)
        .map(|i| Row { label: format!("f{i}"), depth: 0, is_dir: false, size: 1, handle: format!("h{i}") })
        .collect();
    let mut p = Picker::new(&rows, "t");
    assert_eq!(p.scroll(24), 18);
    assert_eq!(p.scroll(0), 3);
    p.on_key(Key::Char('G'));
    assert_eq!(p.scroll(10), 4);
    assert_eq!((p.cursor, p.top), (19, 16));
    p.on_key(Key::Char('g'));
    p.scroll(10);
    assert_eq!((p.cursor, p.top), (0, 0));
}

#[test]
fn escape_sequences_are_not_seen() {
    assert_eq!(visible_len(""), 0);
    assert_eq!(visible_len("\x1b[32m[x]\x1b[0m ab"), 6);
    assert_eq!(visible_len("\u{e9}\u{2500}"), 2);
    assert_eq!(visible_len("a\x1b[1"), 1);
    assert_eq!(visible_len("\x1b[2Jab"), 2);
    assert_eq!(visible_len("a\x1b[?25hmm\x1b[Hb"), 4);
    assert_eq!(visible_len("a\x1b7b\x1b8c"), 3);
    assert_eq!(visible_len("m\x1b"), 1);
}

#[test]
fn the_screen_is_drawn() {
    let rows = tree();
    let mut p = Picker::new(&rows, "title");
    p.on_key(Key::Down);
    p.on_key(Key::Space);
    let rule = "\u{2500}".repeat(40);
    let blank = |n: usize| " ".repeat(n);
    let expected = format!(
        "\x1b[H\x1b[2J\x1b[1;36mtitle\x1b[0m\r\n\x1b[90m2 file(s) selected \u{b7} 20 B\x1b[0m\r\n\x1b[90m{rule}\x1b[0m\r\n{}{}{}\x1b[90m{rule}\x1b[0m\r\n \x1b[1mspace\x1b[0m toggle  \x1b[1ma\x1b[0m all  \x1b[1mn\x1b[0m none  \x1b[1m\u{2191}\u{2193}/jk\x1b[0m move  \x1b[1menter\x1b[0m download  \x1b[1mq\x1b[0m cancel\r\n",
        format!(" \x1b[33m[~]\x1b[0m \x1b[1;34mroot/\x1b[0m{}\x1b[90m\x1b[0m\r\n", blank(40 - 9 - 3)),
        format!("\x1b[7m \x1b[0m[ ]   a.bin{}\x1b[90m10 B\x1b[0m\r\n", blank(40 - 11 - 4 - 3)),
        format!(" \x1b[32m[x]\x1b[0m   \x1b[1;34msub/\x1b[0m{}\x1b[90m\x1b[0m\r\n", blank(40 - 10 - 3)),
    );
    assert_eq!(p.draw(0, 3), expected);
}

#[test]
fn rows_come_from_a_listing() {
    let entry = |path: &str, is_dir| Entry {
        index: 1,
        path: path.into(),
        name: "n".into(),
        is_dir,
        size: 7,
        handle: "h".into(),
        parent: None,
    };
    let rows = rows_from_listing(&[entry("/r", true), entry("/r/a/b", false), entry("x", false)]);
    assert_eq!(rows.iter().map(|r| r.depth).collect::<Vec<_>>(), vec![0, 2, 0]);
    assert_eq!((rows[1].label.as_str(), rows[1].is_dir, rows[1].size, rows[1].handle.as_str()), ("n", false, 7, "h"));
}
