use megadl::cli::{
    after_file, check_files, check_picked, choice_prompt, choice_summary, choose_by_number, destination,
    makes_destination, parse_args, replay_command, retry_line, selection, shell_quote, skip_line, start_line, Args, Parsed,
    Selection,
};
use megadl::Entry;

fn strings(list: &[&str]) -> Vec<String> {
    list.iter().map(|s| s.to_string()).collect()
}

fn run(list: &[&str]) -> Args {
    match parse_args(&strings(list)) {
        Ok(Parsed::Run(a)) => a,
        _ => panic!("not run"),
    }
}

fn refused(list: &[&str]) -> String {
    match parse_args(&strings(list)) {
        Err(e) => e,
        Ok(_) => panic!("taken"),
    }
}

fn entry(index: usize, name: &str, is_dir: bool, size: i64) -> Entry {
    Entry {
        index,
        path: format!("/top/{name}"),
        name: name.into(),
        is_dir,
        size,
        handle: format!("H{index}"),
        parent: None,
    }
}

#[test]
fn options_are_read() {
    let a = run(&["u1", "--path=a=b", "--no-progress", "--print-names", "--choose-files", "u2"]);
    assert_eq!(a.urls, vec!["u1", "u2"]);
    assert_eq!(a.path.as_deref(), Some("a=b"));
    assert!(a.no_progress && a.print_names && a.choose_files);
    assert_eq!(a.files, None);
    let a = run(&["--files=A,,B,", "--path=x", "--path=", "u"]);
    assert_eq!(a.files, Some(strings(&["A", "B"])));
    assert_eq!(a.path.as_deref(), Some(""));
    assert!(!a.no_progress && !a.print_names && !a.choose_files);
    assert_eq!(run(&["--files=", "u"]).files, Some(vec![]));
}

#[test]
fn options_can_end_the_program() {
    assert!(matches!(parse_args(&strings(&["-h", "--bad"])), Ok(Parsed::Help)));
    assert!(matches!(parse_args(&strings(&["u", "--help"])), Ok(Parsed::Help)));
    assert!(matches!(parse_args(&strings(&["--version"])), Ok(Parsed::Version)));
    assert_eq!(refused(&["--bad", "-h"]), "unknown option: --bad");
    assert_eq!(refused(&["u", "-"]), "unknown option: -");
    assert_eq!(refused(&["u", "--path"]), "unknown option: --path");
    assert_eq!(refused(&[]), "no URL given");
    assert_eq!(refused(&["--no-progress"]), "no URL given");
}

#[test]
fn links_need_files() {
    assert_eq!(check_files(&[entry(1, "d", true, 0)]), Err("link has no files".into()));
    assert_eq!(check_files(&[]), Err("link has no files".into()));
    assert_eq!(check_files(&[entry(1, "d", true, 0), entry(2, "f", false, 0)]), Ok(()));
}

#[test]
fn picks_are_checked() {
    assert_eq!(check_picked(None), Err("cancelled".into()));
    assert_eq!(check_picked(Some(vec![])), Err("nothing selected".into()));
    assert_eq!(check_picked(Some(strings(&["A"]))), Ok(strings(&["A"])));
}

#[test]
fn files_are_offered_by_number() {
    let list = [entry(1, "d", true, 0), entry(2, "f", false, 1536), entry(12345, "g", false, 7)];
    let expected = format!(
        "Files in this link:\n  {:>4}  {:>10}  {}\n  {:>4}  {:>10}  {}\nEnter numbers to download (blank = all): ",
        2, "1.5 KiB", "/top/f", 12345, "7 B", "/top/g"
    );
    assert_eq!(choice_prompt(&list), expected);
}

#[test]
fn files_are_chosen_by_number() {
    let list = [entry(1, "d", true, 0), entry(2, "f", false, 1), entry(3, "g", false, 1)];
    assert_eq!(choose_by_number(&list, " \n"), Ok(vec![]));
    assert_eq!(choose_by_number(&list, "3, 2\n"), Ok(strings(&["H3", "H2"])));
    assert_eq!(choose_by_number(&list, "2 2"), Ok(strings(&["H2", "H2"])));
    assert_eq!(choose_by_number(&list, ","), Ok(vec![]));
    assert_eq!(choose_by_number(&list, "+3"), Ok(strings(&["H3"])));
    assert_eq!(choose_by_number(&list, "1"), Err("no such file: 1".into()));
    assert_eq!(choose_by_number(&list, "2,9"), Err("no such file: 9".into()));
    assert_eq!(choose_by_number(&list, "2 x 9"), Err("not a number: x".into()));
    assert_eq!(choose_by_number(&list, "-1"), Err("not a number: -1".into()));
    assert_eq!(choose_by_number(&list, "99999999999999999999"), Err("not a number: 99999999999999999999".into()));
}

#[test]
fn a_failed_file_ends_the_link() {
    assert_eq!(after_file(true, false, "p"), Ok(true));
    assert_eq!(after_file(true, true, "p"), Ok(false));
    assert_eq!(after_file(false, true, "p"), Ok(false));
    assert_eq!(after_file(false, false, "a/p"), Err("failed to download a/p".into()));
}

#[test]
fn arguments_are_quoted() {
    assert_eq!(shell_quote("a/b.c-d_e=f:9"), "a/b.c-d_e=f:9");
    assert_eq!(shell_quote(""), "''");
    assert_eq!(shell_quote("a b"), "'a b'");
    assert_eq!(shell_quote("it's"), "'it'\\''s'");
    assert_eq!(shell_quote("https://x#y"), "'https://x#y'");
    assert_eq!(shell_quote("\u{e9}"), "'\u{e9}'");
}

#[test]
fn a_choice_can_be_replayed() {
    let a = run(&["--choose-files", "--path=my dir", "--print-names", "--no-progress", "u"]);
    let cmd = replay_command("megadl", &a, &strings(&["A", "B"]), "https://mega.nz/folder/x#k");
    assert_eq!(cmd, "megadl --files=A,B --path='my dir' --print-names --no-progress 'https://mega.nz/folder/x#k'");
    let again = run(&["--files=A,B", "--path=my dir", "--print-names", "--no-progress", "https://mega.nz/folder/x#k"]);
    assert_eq!(again.files, Some(strings(&["A", "B"])));
    assert_eq!(again.path, a.path);
    assert_eq!((again.print_names, again.no_progress), (true, true));
    assert_eq!(replay_command("m x", &run(&["u"]), &strings(&["A"]), "u"), "'m x' --files=A u");
}

#[test]
fn a_choice_is_summed_up() {
    let list: Vec<Entry> = (1..=12).map(|i| entry(i, &format!("f{i}"), false, 512)).collect();
    let picked = strings(&["H2", "H1", "nobody"]);
    assert_eq!(
        choice_summary(&list, &picked, "cmd"),
        "\nSelected 3 file(s), 1.0 KiB:\n  - f2\n  - f1\n\nTo resume this download with the current selection, you can just run this command:\n\n  cmd\n\n"
    );
    let all: Vec<String> = (1..=12).map(|i| format!("H{i}")).collect();
    let text = choice_summary(&list, &all, "cmd");
    assert!(text.contains("  - f10\n  \u{2026} and 2 more\n\n"));
    assert!(!text.contains("f11"));
}

#[test]
fn selections_come_from_the_command_line_first() {
    assert!(matches!(selection(&run(&["u"])), Selection::All));
    assert!(matches!(selection(&run(&["--choose-files", "u"])), Selection::Ask));
    let a = run(&["--choose-files", "--files=A,B", "u"]);
    assert!(matches!(selection(&a), Selection::Given(list) if *list == strings(&["A", "B"])));
    let a = run(&["--files=", "u"]);
    assert!(matches!(selection(&a), Selection::Given(list) if list.is_empty()));
}

#[test]
fn destinations_are_made_for_folders() {
    let here = run(&["u"]);
    let there = run(&["--path=x", "u"]);
    assert_eq!((destination(&here), destination(&there)), (".", "x"));
    assert!(makes_destination(&there, false, true));
    assert!(!makes_destination(&there, true, true));
    assert!(!makes_destination(&there, false, false));
    assert!(!makes_destination(&here, false, true));
}

#[test]
fn lines_are_written() {
    assert_eq!(skip_line("a/b"), "megadl: skipping existing file a/b");
    assert_eq!(start_line("a/b", 2048), "Downloading a/b (2.0 KiB)");
    assert_eq!(retry_line("server busy", 2, 4), "megadl: server busy, retrying in 4s (attempt 2)");
}
