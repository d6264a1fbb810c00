use megadl::link::{can_parse, parse_link, Kind};

const KEY43: &str = "012345678901234567890123456789012345678901a";
const KEY22: &str = "0123456789012345678901";

#[test]
fn file_hash_bang() {
    let l = parse_link("https://mega.nz/#!AAAAAAAA!012345678901234567890123456789012345678901a").unwrap();
    assert_eq!(l.kind, Kind::File);
    assert_eq!(l.handle, "AAAAAAAA");
}

#[test]
fn file_new_style() {
    let l = parse_link("https://mega.nz/file/AAAAAAAA#012345678901234567890123456789012345678901a").unwrap();
    assert_eq!(l.kind, Kind::File);
}

#[test]
fn folder_new_style() {
    let l = parse_link("https://mega.nz/folder/AAAAAAAA#0123456789012345678901").unwrap();
    assert_eq!(l.kind, Kind::Folder);
    assert!(l.specific.is_none());
}

#[test]
fn folder_deep_link() {
    let l = parse_link("https://mega.nz/folder/AAAAAAAA#0123456789012345678901/file/BBBBBBBB").unwrap();
    assert_eq!(l.kind, Kind::Folder);
    assert_eq!(l.specific.as_deref(), Some("BBBBBBBB"));
}

#[test]
fn rejects_garbage() {
    assert!(parse_link("https://example.com/").is_err());
}

#[test]
fn every_spelling_of_a_file_link_is_read() {
    for host in ["mega.nz", "mega.co.nz", "MEGA.NZ"] {
        for key_len in 43..=45 {
            let key = "k".repeat(key_len);
            for url in [format!("https://{host}/#!AbCd-_12!{key}"), format!("HTTPS://{host}/file/AbCd-_12#{key}")] {
                let l = parse_link(&url).unwrap();
                assert_eq!(l.kind, Kind::File);
                assert_eq!(l.handle, "AbCd-_12");
                assert_eq!(l.key, key);
                assert_eq!(l.specific, None);
            }
        }
    }
}

#[test]
fn every_spelling_of_a_folder_link_is_read() {
    for url in [format!("https://mega.nz/#F!AAAAAAAA!{KEY22}"), format!("https://mega.co.nz/folder/AAAAAAAA#{KEY22}")] {
        let l = parse_link(&url).unwrap();
        assert_eq!((l.kind, l.handle.as_str(), l.key.as_str(), l.specific), (Kind::Folder, "AAAAAAAA", KEY22, None));
    }
    for url in [
        format!("https://mega.nz/#F!AAAAAAAA!{KEY22}!NNNNNNNN"),
        format!("https://mega.nz/#F!AAAAAAAA!{KEY22}?NNNNNNNN"),
        format!("https://mega.nz/folder/AAAAAAAA#{KEY22}/file/NNNNNNNN"),
        format!("https://mega.nz/folder/AAAAAAAA#{KEY22}/folder/NNNNNNNN"),
    ] {
        let l = parse_link(&url).unwrap();
        assert_eq!(l.key, KEY22);
        assert_eq!(l.specific.as_deref(), Some("NNNNNNNN"));
    }
}

#[test]
fn padding_counts_as_key() {
    let l = parse_link(&format!("https://mega.nz/file/AAAAAAAA#{KEY43}==")).unwrap();
    assert_eq!(l.key, format!("{KEY43}=="));
}

#[test]
fn links_are_trimmed_and_percent_decoded() {
    let l = parse_link(&format!("  https://mega.nz/%23%21AAAAAAAA%21{KEY43}\n")).unwrap();
    assert_eq!(l.handle, "AAAAAAAA");
    assert_eq!(l.key, KEY43);
    // Half an escape stays as it is.
    assert_eq!(parse_link("%4").unwrap_err(), "invalid mega download link: %4");
    assert_eq!(parse_link("%41%zz").unwrap_err(), "invalid mega download link: A%zz");
    // What would be no text stays as it is.
    assert_eq!(parse_link("%ff").unwrap_err(), "invalid mega download link: %ff");
    assert_eq!(parse_link("%c3%a9").unwrap_err(), "invalid mega download link: \u{e9}");
}

#[test]
fn malformed_links_are_refused() {
    for url in [
        String::new(),
        format!("http://mega.nz/file/AAAAAAAA#{KEY43}"),
        format!("https://mega.nz/file/AAAAAAA#{KEY43}"),
        format!("https://mega.nz/file/AAAAAAAAA#{KEY43}"),
        format!("https://mega.nz/file/AAAAAAAA!{KEY43}"),
        format!("https://mega.nz/file/AAAAAAAA#{KEY22}"),
        format!("https://mega.nz/file/AAAAAAAA#{KEY43}aaa"),
        format!("https://mega.nz/file/AAAAAAAA#{KEY43}/"),
        format!("https://mega.nz/folder/AAAAAAAA#{KEY22}=" ),
        format!("https://mega.nz/folder/AAAAAAAA#{KEY22}/file/NNNNNNN"),
        format!("https://mega.nz/folder/AAAAAAAA#{KEY22}/other/NNNNNNNN"),
        format!("https://mega.nz/#F!AAAAAAAA!{KEY22}!short"),
        format!("https://mega.nz/#F!AAAAAAAA!{KEY22}/file/NNNNNNNN"),
    ] {
        assert!(can_parse(&url));
        assert_eq!(parse_link(&url).unwrap_err(), format!("invalid mega download link: {url}"));
    }
}

#[test]
fn characters_across_a_cut_are_told() {
    assert!(can_parse("https://mega.nz/"));
    assert!(can_parse("h\u{e9}"));
    assert!(!can_parse("https:/\u{e9}"));
    assert!(can_parse("https://\u{e9}"));
    assert!(!can_parse("https://mega.nz\u{e9}"));
    assert!(!can_parse("https://mega.nz/#\u{e9}"));
    assert!(!can_parse("https://mega.nz/#!\u{e9}\u{e9}x"));
    assert!(can_parse("https://mega.nz/#!a\u{e9}"));
}
