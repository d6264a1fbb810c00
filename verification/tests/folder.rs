use aes::cipher::generic_array::GenericArray;
use aes::cipher::{BlockEncrypt, KeyInit};
use aes::Aes128;
use megadl::crypto::b64encode;
use megadl::download::UrlSource;
use megadl::folder::{folder_key, listed_nodes, open_folder, FolderFs, RawFNode};
use megadl::picker::{descendants, pick, rows_from_listing};
use megadl::plan::{plan_folder_nodes, resolve_file, resolve_folder};
use megadl::term::Key;
use megadl::{default_dest_name, dest_path_for, resolve, Pending, Resolved};
use serde_json::Value;

const MASTER: [u8; 16] = [42u8; 16];

fn encrypted(key: &[u8], data: &[u8]) -> Vec<u8> {
    let cipher = Aes128::new(GenericArray::from_slice(key));
    let mut out = Vec::new();
    for block in data.chunks(16) {
        let mut b = GenericArray::clone_from_slice(block);
        cipher.encrypt_block(&mut b);
        out.extend_from_slice(&b);
    }
    out
}

fn attributes(key: &[u8], name: &str) -> String {
    let mut data = format!("MEGA{{\"n\":{}}}", serde_json::to_string(name).unwrap()).into_bytes();
    while data.len() % 16 != 0 {
        data.push(0);
    }
    let mut prev = vec![0u8; 16];
    let mut out = Vec::new();
    for block in data.chunks(16) {
        let mixed: Vec<u8> = prev.iter().zip(block).map(|(a, b)| a ^ b).collect();
        prev = encrypted(key, &mixed);
        out.extend_from_slice(&prev);
    }
    b64encode(&out)
}

/// A node, wrapped with the share key `share` of the node with handle `by`.
fn wrapped(h: &str, p: &str, name: &str, is_dir: bool, by: &str, share: &[u8]) -> Option<RawFNode> {
    let seed = h.bytes().fold(1u8, |a, b| a.wrapping_mul(31).wrapping_add(b));
    let key: Vec<u8> = (0..if is_dir { 16u8 } else { 32 }).map(|i| seed.wrapping_add(i * 7)).collect();
    let attr_key: Vec<u8> = if is_dir { key.clone() } else { (0..16).map(|i| key[i] ^ key[i + 16]).collect() };
    Some(RawFNode {
        h: h.into(),
        p: p.into(),
        a: attributes(&attr_key, name),
        k: format!("other:x/{by}:{}", b64encode(&encrypted(share, &key))),
        sk: String::new(),
        t: if is_dir { 1 } else { 0 },
        s: 100,
    })
}

fn node(h: &str, p: &str, name: &str, is_dir: bool) -> Option<RawFNode> {
    wrapped(h, p, name, is_dir, "ROOT", &MASTER)
}

fn sample() -> Vec<Option<RawFNode>> {
    vec![
        node("ROOT", "elsewhere", "top", true),
        node("SUB", "ROOT", "sub", true),
        None,
        node("B", "SUB", "b.bin", false),
        node("A", "ROOT", "sub.txt", false),
        node("C", "SUB", "a/c", false),
        node("LOST", "NOWHERE", "lost", false),
        node("DEEP", "SUB", "deep", true),
        node("D", "DEEP", "\u{e9}", false),
    ]
}

fn opened(raws: &[Option<RawFNode>], specific: Option<&str>) -> Result<FolderFs, String> {
    open_folder(raws, &b64encode(&MASTER), specific)
}

fn paths(fs: &FolderFs) -> Vec<&str> {
    fs.nodes.iter().map(|n| n.path.as_str()).collect()
}

fn error<T>(r: Result<T, String>) -> String {
    match r {
        Ok(_) => panic!("no error"),
        Err(e) => e,
    }
}

fn resolved(raws: &[Option<RawFNode>]) -> Resolved {
    let url = format!("https://mega.nz/folder/FFFFFFFF#{}", b64encode(&MASTER));
    match resolve(&url, "api").unwrap() {
        Pending::Folder { key, specific, api } => resolve_folder(key, specific, api, raws).unwrap(),
        Pending::File { .. } => panic!("not a folder"),
    }
}

#[test]
fn a_folder_is_decrypted_and_sorted() {
    let fs = opened(&sample(), None).unwrap();
    assert_eq!(fs.root, 0);
    assert_eq!(
        paths(&fs),
        vec![
            "/top",
            "/top/sub.txt",
            "/top/sub",
            "/top/sub/a_c",
            "/top/sub/b.bin",
            "/top/sub/deep",
            "/top/sub/deep/\u{e9}",
        ]
    );
    assert_eq!(fs.nodes.iter().map(|n| n.parent).collect::<Vec<_>>(), vec![None, Some(0), Some(0), Some(2), Some(2), Some(2), Some(5)]);
    assert_eq!(fs.nodes[0].parent_handle, "");
    assert_eq!(fs.nodes[3].parent_handle, "SUB");
    assert_eq!(fs.nodes[4].name, "b.bin");
    assert!(fs.nodes[2].is_dir && !fs.nodes[4].is_dir);
    assert_eq!(fs.nodes[4].size, 100);
    assert_eq!(fs.nodes[4].key.len(), 32);
    assert_eq!(fs.by_handle.get("DEEP"), Some(&5));
    assert_eq!(fs.by_handle.get("LOST"), None);
}

#[test]
fn a_deep_link_opens_a_subtree() {
    let fs = opened(&sample(), Some("SUB")).unwrap();
    assert_eq!(paths(&fs), vec!["/sub", "/sub/a_c", "/sub/b.bin", "/sub/deep", "/sub/deep/\u{e9}"]);
    assert_eq!((fs.root, fs.nodes[0].parent, fs.nodes[0].parent_handle.as_str()), (0, None, ""));
    let fs = opened(&sample(), Some("A")).unwrap();
    assert_eq!(paths(&fs), vec!["/sub.txt"]);
    assert_eq!(error(opened(&sample(), Some("ZZZ"))), "node not found: ZZZ");
}

#[test]
fn what_is_wrong_with_a_folder_is_told() {
    assert_eq!(error(open_folder(&sample(), "AAAA", None)), "invalid folder key");
    assert_eq!(error(open_folder(&sample(), "A*", None)), "invalid base64 byte 42");
    assert_eq!(error(opened(&[], None)), "folder listing returned no nodes");
    assert_eq!(error(opened(&[None], None)), "no decryptable nodes in folder");
    assert_eq!(error(open_folder(&sample(), &b64encode(&[1u8; 16]), None)), "no decryptable nodes in folder");
    assert_eq!(folder_key(&b64encode(&MASTER)).unwrap(), MASTER.to_vec());
    assert_eq!(folder_key("AAAA").unwrap_err(), "invalid folder key");
}

#[test]
fn nodes_that_cannot_be_read_are_left_out() {
    let mut raws = sample();
    for (h, change) in [("X1", 0), ("X2", 1), ("X3", 2), ("X4", 3), ("X5", 4), ("X6", 5), ("X7", 6)] {
        let mut n = node(h, "ROOT", "x", false).unwrap();
        match change {
            0 => n.t = 2,
            1 => n.a = String::new(),
            2 => n.k = String::new(),
            3 => n.k = "unknown:AAAA".into(),
            4 => n.k = format!("ROOT:{}", "A".repeat(46)),
            5 => n.k = "ROOT:".into(),
            _ => n.t = 1,
        }
        raws.push(Some(n));
    }
    raws.push(node("X8", "ROOT", "..", false));
    assert_eq!(paths(&opened(&raws, None).unwrap()), paths(&opened(&sample(), None).unwrap()));
}

#[test]
fn share_keys_unwrap_nodes() {
    let share = [9u8; 16];
    let mut dir = node("SHARED", "ROOT", "shared", true).unwrap();
    dir.sk = b64encode(&encrypted(&MASTER, &share));
    let raws = vec![
        node("ROOT", "", "top", true),
        wrapped("EARLY", "SHARED", "early", false, "SHARED", &share),
        Some(dir),
        wrapped("LATE", "SHARED", "late", false, "SHARED", &share),
    ];
    // A share key counts from the node on that brings it.
    assert_eq!(paths(&opened(&raws, None).unwrap()), vec!["/top", "/top/shared", "/top/shared/late"]);
}

#[test]
fn of_equal_handles_the_last_counts() {
    let raws = vec![
        node("ROOT", "", "top", true),
        node("D", "ROOT", "one", true),
        node("D", "ROOT", "two", true),
        node("F", "D", "f", false),
    ];
    let fs = opened(&raws, None).unwrap();
    assert_eq!(paths(&fs), vec!["/top", "/top/one", "/top/two", "/top/two/f"]);
    assert_eq!(fs.by_handle.get("D"), Some(&2));
}

#[test]
fn cycles_are_dropped() {
    let raws = vec![
        node("ROOT", "", "top", true),
        node("X", "Y", "x", true),
        node("Y", "X", "y", true),
        node("S", "S", "self", true),
    ];
    assert_eq!(paths(&opened(&raws, None).unwrap()), vec!["/top"]);
}

#[test]
fn files_of_a_subtree_are_listed() {
    let fs = opened(&sample(), None).unwrap();
    assert_eq!(fs.files_under(0), vec![1, 3, 4, 6]);
    assert_eq!(fs.files_under(2), vec![3, 4, 6]);
    assert_eq!(fs.files_under(5), vec![6]);
    assert_eq!(fs.files_under(4), vec![4]);
}

#[test]
fn folders_of_one_name_keep_their_own_files() {
    let raws = vec![
        node("ROOT", "", "top", true),
        node("D1", "ROOT", "same", true),
        node("D2", "ROOT", "same", true),
        node("F1", "D1", "f", false),
        node("F2", "D2", "f", false),
    ];
    let fs = opened(&raws, None).unwrap();
    assert_eq!(paths(&fs), vec!["/top", "/top/same", "/top/same", "/top/same/f", "/top/same/f"]);
    assert_eq!(fs.nodes.iter().map(|n| n.handle.as_str()).collect::<Vec<_>>(), vec!["ROOT", "D1", "D2", "F1", "F2"]);
    assert_eq!(fs.files_under(1), vec![3]);
    assert_eq!(fs.files_under(2), vec![4]);
}

#[test]
fn paths_are_taken_from_the_root() {
    let fs = opened(&sample(), None).unwrap();
    assert_eq!(fs.rel_to_root(0), "top");
    assert_eq!(fs.rel_to_root(4), "sub/b.bin");
    for i in 1..fs.nodes.len() {
        assert_eq!(fs.nodes[i].path, format!("/top/{}", fs.rel_to_root(i)));
    }
}

#[test]
fn rows_of_a_folder_are_its_subtrees() {
    let r = resolved(&sample());
    let rows = rows_from_listing(&r.listing());
    assert_eq!(rows.iter().map(|x| x.depth).collect::<Vec<_>>(), vec![0, 1, 1, 2, 2, 2, 3]);
    assert_eq!(descendants(&rows, 0), 1..7);
    assert_eq!(descendants(&rows, 2), 3..7);
    assert_eq!(descendants(&rows, 5), 6..7);
}

#[test]
fn download_replies_are_read() {
    let fs = opened(&sample(), None).unwrap();
    let read = |text: &str| fs.download_url(&serde_json::from_str::<Value>(text).unwrap());
    assert_eq!(read("{\"g\":\"http://x\",\"s\":5}").unwrap(), ("http://x".to_string(), 5));
    assert_eq!(read("{\"g\":\"http://x\",\"s\":0}").unwrap().1, 0);
    for bad in ["{}", "{\"g\":\"\",\"s\":5}", "{\"g\":\"u\",\"s\":-1}", "{\"g\":\"u\"}", "{\"g\":1,\"s\":5}", "[]", "{\"g\":\"u\",\"s\":1.5}"] {
        assert_eq!(read(bad).unwrap_err(), "can't determine download url");
    }
}

#[test]
fn listings_are_picked_out_of_replies() {
    let value = |text: &str| serde_json::from_str::<Value>(text).unwrap();
    assert_eq!(listed_nodes(&value("{\"f\":[1,\"x\"]}")).unwrap(), &vec![value("1"), value("\"x\"")]);
    for bad in ["{}", "{\"f\":[]}", "{\"f\":{}}", "3"] {
        assert_eq!(listed_nodes(&value(bad)).unwrap_err(), "folder listing returned no nodes");
    }
}

fn handles(r: &Resolved, selected: &[&str]) -> Vec<String> {
    let selected: Vec<String> = selected.iter().map(|s| s.to_string()).collect();
    r.plan("out", false, &selected).unwrap().into_iter().map(|j| j.handle).collect()
}

#[test]
fn an_empty_selection_plans_everything() {
    let r = resolved(&sample());
    assert_eq!(handles(&r, &[]), vec!["A", "C", "B", "D"]);
    let jobs = r.plan("out", true, &[]).unwrap();
    assert_eq!(jobs[2].local_path, "out/sub/b.bin");
    assert_eq!(jobs[2].remote_path, "/top/sub/b.bin");
    assert_eq!(jobs[2].size, 100);
    match &jobs[2].source {
        UrlSource::Node { handle } => assert_eq!(handle, "B"),
        UrlSource::Known { .. } => panic!("known"),
    }
    assert_eq!(default_dest_name(&r), "top");
}

#[test]
fn a_selection_is_sorted_and_pruned() {
    let r = resolved(&sample());
    assert_eq!(handles(&r, &["B"]), vec!["B"]);
    assert_eq!(handles(&r, &["D", "A", "", "D", "nobody"]), vec!["A", "D"]);
    assert_eq!(handles(&r, &["DEEP", "SUB"]), vec!["C", "B", "D"]);
    assert_eq!(handles(&r, &["nobody"]), Vec::<String>::new());
    let Resolved::Folder { fs, .. } = &r else { panic!("folder") };
    let selected: Vec<String> = ["D", "DEEP", "nobody", "A", "nobody", ""].iter().map(|s| s.to_string()).collect();
    let (chosen, lost) = plan_folder_nodes(fs, &selected);
    assert_eq!(chosen, vec![1, 5]);
    assert_eq!(lost, vec!["nobody"]);
    assert_eq!(r.missing_handles(&selected), vec!["nobody"]);
}

#[test]
fn no_handle_is_planned_twice() {
    let raws = vec![
        node("ROOT", "", "top", true),
        node("F", "ROOT", "one", false),
        node("F", "ROOT", "two", false),
    ];
    let r = resolved(&raws);
    assert_eq!(handles(&r, &[]), vec!["F"]);
    assert_eq!(r.plan("", false, &[]).unwrap()[0].local_path, "one");
}

#[test]
fn listings_number_their_entries() {
    let r = resolved(&sample());
    let l = r.listing();
    assert_eq!(l.len(), 7);
    assert_eq!((l[0].index, l[0].path.as_str(), l[0].parent.as_deref()), (1, "/top", None));
    assert_eq!((l[4].index, l[4].name.as_str(), l[4].parent.as_deref()), (5, "b.bin", Some("SUB")));
}

fn file_link(key: &[u8]) -> String {
    format!("https://mega.nz/file/HHHHHHHH#{}", b64encode(key))
}

#[test]
fn file_links_are_resolved() {
    let raw: Vec<u8> = (0..32).map(|i| i * 3).collect();
    let aes: Vec<u8> = (0..16).map(|i| raw[i] ^ raw[i + 16]).collect();
    let finish = |reply: &str| {
        let Pending::File { handle, key, api } = resolve(&file_link(&raw), "api").unwrap() else { panic!("file") };
        assert_eq!(key.aes.to_vec(), aes);
        resolve_file(handle, key, api, &serde_json::from_str(reply).unwrap())
    };
    let at = attributes(&aes, "x/y");
    let r = finish(&format!("{{\"g\":\"http://u\",\"s\":9,\"at\":\"{at}\"}}")).unwrap();
    assert_eq!(default_dest_name(&r), "x_y");
    let l = r.listing();
    assert_eq!((l.len(), l[0].index, l[0].path.as_str(), l[0].handle.as_str()), (1, 1, "/x_y", "HHHHHHHH"));
    let jobs = r.plan("dir", true, &["ignored".to_string()]).unwrap();
    assert_eq!((jobs.len(), jobs[0].local_path.as_str(), jobs[0].size), (1, "dir/x_y", 9));
    match &jobs[0].source {
        UrlSource::Known { url, size } => assert_eq!((url.as_str(), *size), ("http://u", 9)),
        UrlSource::Node { .. } => panic!("node"),
    }
    assert_eq!(r.plan("name", false, &[]).unwrap()[0].local_path, "name");
    assert_eq!(r.missing_handles(&["ignored".to_string()]), Vec::<String>::new());
    for bad in ["{}".to_string(), format!("{{\"g\":\"\",\"s\":9,\"at\":\"{at}\"}}"), format!("{{\"g\":\"u\",\"s\":-9,\"at\":\"{at}\"}}"), "{\"g\":\"u\",\"s\":9}".into()] {
        assert_eq!(error(finish(&bad)), "incomplete file info from server");
    }
    assert_eq!(error(finish("{\"g\":\"u\",\"s\":9,\"at\":\"AAAA\"}")), "invalid key");
    let dots = attributes(&aes, "..");
    assert_eq!(error(finish(&format!("{{\"g\":\"u\",\"s\":9,\"at\":\"{dots}\"}}"))), "invalid remote file name \"..\"");
}

#[test]
fn links_with_bad_keys_are_refused() {
    assert_eq!(error(resolve("nothing", "api")), "invalid mega download link: nothing");
    // 44 characters are 33 bytes.
    assert_eq!(error(resolve(&file_link(&[0u8; 33]), "api")), "can't retrieve file key");
    let Ok(Pending::Folder { key, specific, api }) =
        resolve("https://mega.nz/folder/FFFFFFFF#AAAAAAAAAAAAAAAAAAAAAA/file/NNNNNNNN", "where") else { panic!("folder") };
    assert_eq!((key.as_str(), specific.as_deref()), ("AAAAAAAAAAAAAAAAAAAAAA", Some("NNNNNNNN")));
    assert_eq!((api.url.as_str(), api.folder.as_str()), ("where", "FFFFFFFF"));
}

#[test]
fn destinations_are_joined() {
    assert_eq!(dest_path_for("a", "b"), "a/b");
    assert_eq!(dest_path_for("a/", "b"), "a/b");
    assert_eq!(dest_path_for("", "b"), "b");
    assert_eq!(dest_path_for("a", "/b"), "/b");
    for (dir, name) in [("x/y", "n"), (".", "n"), ("/", "n"), ("x//", "n/m"), ("x", "")] {
        let expected = std::path::Path::new(dir).join(name);
        assert_eq!(dest_path_for(dir, name), expected.to_str().unwrap());
    }
}

#[test]
fn what_is_picked_is_planned() {
    let r = resolved(&sample());
    let rows = rows_from_listing(&r.listing());
    // Everything off, then the directory "sub" on, then "b.bin" off.
    let keys = [Key::Char('n'), Key::Down, Key::Down, Key::Space, Key::Down, Key::Down, Key::Space, Key::Enter];
    let picked = pick(&rows, "t", &keys).unwrap();
    assert_eq!(picked, vec!["C", "D"]);
    let jobs = r.plan("out", true, &picked).unwrap();
    assert_eq!(jobs.iter().map(|j| j.handle.as_str()).collect::<Vec<_>>(), vec!["C", "D"]);
    let all = pick(&rows, "t", &[Key::Enter]).unwrap();
    assert_eq!(r.plan("out", true, &all).unwrap().len(), r.plan("out", true, &[]).unwrap().len());
}

#[test]
fn planned_paths_stay_below_the_destination() {
    let raws = vec![
        node("ROOT", "", "top", true),
        node("D", "ROOT", "../..", true),
        node("F", "D", "/etc/passwd", false),
        node("G", "D", "..", false),
    ];
    let r = resolved(&raws);
    let jobs = r.plan("out/", true, &[]).unwrap();
    assert_eq!(jobs.iter().map(|j| j.local_path.as_str()).collect::<Vec<_>>(), vec!["out/.._../_etc_passwd"]);
}

#[test]
fn it_does_not_matter_how_a_selection_is_written() {
    let r = resolved(&sample());
    let once = handles(&r, &["D", "SUB", "A"]);
    assert_eq!(once, vec!["A", "C", "B", "D"]);
    assert_eq!(handles(&r, &["A", "SUB", "D"]), once);
    assert_eq!(handles(&r, &["SUB", "A", "SUB", "", "A", "D"]), once);
    // What lies below a chosen directory adds nothing.
    assert_eq!(handles(&r, &["SUB", "A"]), once);
    assert_eq!(handles(&r, &["SUB", "DEEP", "A", "B"]), once);
    assert_eq!(handles(&r, &["ROOT"]), handles(&r, &[]));
    assert_eq!(handles(&r, &["ROOT", "A"]), handles(&r, &[]));
}
