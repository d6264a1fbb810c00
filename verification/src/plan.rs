//! From a link to the files to download: resolving a link, listing what it
//! leads to, and planning which files to fetch.

use vstd::hash_set::StringHashSet;
use vstd::prelude::*;
use vstd::string::*;
use vstd::utf8::*;

use serde_json::Value;

use crate::api::{
    file_command, folder_command, law_listing_command, law_transfer_commands, listing_command,
    transfer_command, ApiClient,
};
use crate::base64::{
    b64_decoded, b64_text, b64decode, law_decode_undoes_encode, law_length_of_text,
};
use crate::crypto::{
    attributes_name, decrypt_attrs, key_length_error, safe_name, sanitize_name, unpack_file_key,
    unpacks_to, FileKey,
};
use crate::download::{FileJob, UrlSource};
use crate::folder::{
    comes_from, files_below, folder_key, handles, is_name, is_pathed, is_plain, is_rooted,
    is_unambiguous, is_under, key_of, keys_after, last_with, law_files_below,
    law_open_folder_comes_from_listing, law_open_folder_has_keys, law_open_folder_is_tree,
    law_parents_have_the_handle, law_paths_are_made_of_names, lemma_last_with,
    lemma_last_with_found, lemma_sorted_position, lemma_strictly_sorted,
    node_parents, node_sort_key, open_folder, opened, parents_are_dirs, path_from_root,
    raw_models, sort_key, sort_text, tree_parents, FolderFs, FolderModel, RawFNode, RawModel,
};
use crate::json::{int_field, json_of, text_field, Json};
use crate::link::{
    all_b64, all_key, cuts_cleanly, is_b64, is_host, law_deep_links, law_file_links,
    law_folder_links, link_of, link_text, parse_link, Kind,
};
use crate::order::{
    is_ranking, key_bytes, law_ranking, lemma_bytes_irreflexive, lemma_ranking_is_permutation,
    positions, rank, ranking, sorts_before,
};
use crate::path::{join, joined};
use crate::picker::law_subtrees_are_runs;
use crate::text::{
    decimal, has_text, law_text_is_found, lemma_first_at, lemma_first_piece, split_on, texts,
};
use crate::tree::{at_or_above, climbs, lemma_climbs_is_above, parents_in_range};

verus! {

// ---------------------------------------------------------------------------
// Resolving
// ---------------------------------------------------------------------------

/// What is known of a linked file.
pub struct FileInfo {
    pub name: String,
    pub size: i64,
    pub url: String,
    pub key: FileKey,
}

/// A link that was resolved: a single file, or an open folder.
pub enum Resolved {
    File { info: FileInfo, handle: String, api: ApiClient },
    Folder { fs: FolderFs, api: ApiClient },
}

/// A link that was parsed, and waits for the server's reply.
pub enum Pending {
    File { handle: String, key: FileKey, api: ApiClient },
    Folder { key: String, specific: Option<String>, api: ApiClient },
}

/// The key in a file link, or what is wrong with it.
pub open spec fn file_key_of(text: Seq<char>) -> Result<Seq<u8>, Seq<char>> {
    match b64_decoded(text) {
        Err(e) => Err(e),
        Ok(k) => if k.len() != 32 {
            Err("can't retrieve file key"@)
        } else {
            Ok(k)
        },
    }
}

/// The key in a folder link, or what is wrong with it.
pub open spec fn folder_key_of(text: Seq<char>) -> Result<Seq<u8>, Seq<char>> {
    match b64_decoded(text) {
        Err(e) => Err(e),
        Ok(k) => if k.len() != 16 {
            Err("invalid folder key"@)
        } else {
            Ok(k)
        },
    }
}

/// A client that has made no request.
pub open spec fn is_fresh(api: ApiClient, url: Seq<char>, folder: Seq<char>) -> bool {
    api.url@ == url && api.folder@ == folder && api.seq == 0
}

/// What a link waits for: the file with a handle, or the folder with one,
/// at one of its nodes or as a whole.
pub enum PendingModel {
    File { handle: Seq<char>, key: Seq<u8> },
    Folder { folder: Seq<char>, key: Seq<char>, specific: Option<Seq<char>> },
}

/// What a text waits for as a link, or what is wrong with it.
pub open spec fn pending_of(text: Seq<char>) -> Result<PendingModel, Seq<char>> {
    match link_of(text) {
        None => Err("invalid mega download link: "@ + text),
        Some(l) => match l.kind {
            Kind::File => match file_key_of(l.key) {
                Err(x) => Err(x),
                Ok(key) => Ok(PendingModel::File { handle: l.handle, key }),
            },
            Kind::Folder => match folder_key_of(l.key) {
                Err(x) => Err(x),
                Ok(_) => Ok(PendingModel::Folder { folder: l.handle, key: l.key, specific: l.specific }),
            },
        },
    }
}

impl Pending {
    /// The link waits for `m`, with a client for `api_url` that has made no
    /// request.
    pub open spec fn says(&self, m: PendingModel, api_url: Seq<char>) -> bool {
        match (*self, m) {
            (Pending::File { handle, key, api }, PendingModel::File { handle: h, key: k }) => handle@ == h
                && unpacks_to(k, key) && is_fresh(api, api_url, Seq::empty()),
            (Pending::Folder { key, specific, api }, PendingModel::Folder { folder, key: k, specific: s }) => key@ == k
                && is_fresh(api, api_url, folder) && match (specific, s) {
                (Some(a), Some(b)) => a@ == b,
                (None, None) => true,
                _ => false,
            },
            _ => false,
        }
    }
}

/// Parses a link and checks its key. What is left to do takes a call of the
/// server.
pub fn resolve(raw_url: &str, api_url: &str) -> (r: Result<Pending, String>)
    requires
        cuts_cleanly(link_text(raw_url@)),
    ensures
        match pending_of(link_text(raw_url@)) {
            Ok(m) => r matches Ok(p) && p.says(m, api_url@),
            Err(x) => r matches Err(e) && e@ == x,
        },
{
    let l = match parse_link(raw_url) {
        Ok(l) => l,
        Err(e) => return Err(e),
    };
    match l.kind {
        Kind::File => {
            let raw = match b64decode(l.key.as_str()) {
                Ok(k) => k,
                Err(e) => return Err(e),
            };
            if raw.len() != 32 {
                return Err("can't retrieve file key".to_owned());
            }
            let key = match unpack_file_key(raw.as_slice()) {
                Ok(k) => k,
                Err(e) => return Err(e),
            };
            proof {
                reveal_strlit("");
                assert(""@ =~= Seq::<char>::empty());
            }
            Ok(Pending::File { handle: l.handle, key, api: ApiClient::new(api_url, "") })
        },
        Kind::Folder => {
            if let Err(e) = folder_key(l.key.as_str()) {
                return Err(e);
            }
            let api = ApiClient::new(api_url, l.handle.as_str());
            Ok(Pending::Folder { key: l.key, specific: l.specific, api })
        },
    }
}

/// What a linked file's reply says of it.
pub struct InfoModel {
    pub name: Seq<char>,
    pub size: i64,
    pub url: Seq<char>,
}

/// Reads a linked file's reply.
pub open spec fn info_of(aes: Seq<u8>, reply: Json) -> Result<InfoModel, Seq<char>> {
    let url = match reply.text_field("g"@) {
        Some(t) => t,
        None => Seq::empty(),
    };
    let at = match reply.text_field("at"@) {
        Some(t) => t,
        None => Seq::empty(),
    };
    let size = match reply.int_field("s"@) {
        Some(n) => n as int,
        None => -1,
    };
    if size < 0 || url.len() == 0 || at.len() == 0 {
        Err("incomplete file info from server"@)
    } else {
        match attributes_name(aes, at) {
            Err(_) => Err("invalid key"@),
            Ok(n) => match safe_name(n) {
                Err(e) => Err(e),
                Ok(name) => Ok(InfoModel { name, size: size as i64, url }),
            },
        }
    }
}

/// Reads a linked file's reply.
pub fn read_file_info(key: FileKey, reply: &Value) -> (r: Result<FileInfo, String>)
    ensures
        match r {
            Ok(info) => info_of(key.aes@, json_of(*reply)) == Ok::<InfoModel, Seq<char>>(
                InfoModel { name: info.name@, size: info.size, url: info.url@ },
            ) && info.key == key,
            Err(e) => info_of(key.aes@, json_of(*reply)) == Err::<InfoModel, Seq<char>>(e@),
        },
{
    let size: i64 = match int_field(reply, "s") {
        Some(n) => n,
        None => -1,
    };
    if size < 0 {
        return Err("incomplete file info from server".to_owned());
    }
    let url = match text_field(reply, "g") {
        Some(t) => t,
        None => return Err("incomplete file info from server".to_owned()),
    };
    let at = match text_field(reply, "at") {
        Some(t) => t,
        None => return Err("incomplete file info from server".to_owned()),
    };
    if url.is_empty() || at.is_empty() {
        return Err("incomplete file info from server".to_owned());
    }
    let name = match decrypt_attrs(&key.aes, at) {
        Ok(n) => n,
        Err(_) => return Err("invalid key".to_owned()),
    };
    match sanitize_name(name.as_str()) {
        Ok(name) => Ok(FileInfo { name, size, url: url.to_owned(), key }),
        Err(e) => Err(e),
    }
}

/// The command for a linked file with this handle, or for a folder.
pub open spec fn command_for(handle: Option<Seq<char>>) -> Json {
    match handle {
        Some(h) => transfer_command("p"@, h),
        None => listing_command(),
    }
}

impl Pending {
    /// The command to call the server with.
    pub fn command(&self) -> (cmd: Value)
        ensures
            json_of(cmd) == command_for(
                match self {
                    Pending::File { handle, .. } => Some(handle@),
                    Pending::Folder { .. } => None,
                },
            ),
    {
        match self {
            Pending::File { handle, .. } => file_command(handle.as_str()),
            Pending::Folder { .. } => folder_command(),
        }
    }
}

/// Ends resolving a file, with the server's reply.
pub fn resolve_file(handle: String, key: FileKey, api: ApiClient, reply: &Value) -> (r: Result<Resolved, String>)
    ensures
        match info_of(key.aes@, json_of(*reply)) {
            Ok(m) => {
                &&& r matches Ok(Resolved::File { info, handle: h, api: a })
                &&& info.name@ == m.name
                &&& info.size == m.size
                &&& info.url@ == m.url
                &&& info.key == key
                &&& h == handle
                &&& a == api
            },
            Err(x) => r matches Err(e) && e@ == x,
        },
{
    match read_file_info(key, reply) {
        Ok(info) => Ok(Resolved::File { info, handle, api }),
        Err(e) => Err(e),
    }
}

/// Ends resolving a folder, with the nodes that the server listed.
pub fn resolve_folder(
    key: String,
    specific: Option<String>,
    api: ApiClient,
    raw_nodes: &[Option<RawFNode>],
) -> (r: Result<Resolved, String>)
    ensures
        ({
            let wanted = match specific {
                Some(h) => Some(h@),
                None => None,
            };
            match opened(raw_models(raw_nodes@), key@, wanted) {
                Ok(m) => {
                    &&& r matches Ok(Resolved::Folder { fs, api: a })
                    &&& fs@ == m
                    &&& fs.wf()
                    &&& a == api
                },
                Err(x) => r matches Err(e) && e@ == x,
            }
        }),
{
    let opened_fs = match &specific {
        Some(h) => open_folder(raw_nodes, key.as_str(), Some(h.as_str())),
        None => open_folder(raw_nodes, key.as_str(), None),
    };
    match opened_fs {
        Ok(fs) => Ok(Resolved::Folder { fs, api }),
        Err(e) => Err(e),
    }
}

// ---------------------------------------------------------------------------
// Listing
// ---------------------------------------------------------------------------

/// One entry of a listed link: a file or a folder, with everything needed to
/// queue it for download.
#[derive(Debug, Clone)]
pub struct Entry {
    pub index: usize,
    pub path: String,
    pub name: String,
    pub is_dir: bool,
    pub size: i64,
    pub handle: String,
    pub parent: Option<String>,
}

/// What an entry says.
pub struct EntryModel {
    pub index: int,
    pub path: Seq<char>,
    pub name: Seq<char>,
    pub is_dir: bool,
    pub size: i64,
    pub handle: Seq<char>,
    pub parent: Option<Seq<char>>,
}

impl View for Entry {
    type V = EntryModel;

    open spec fn view(&self) -> EntryModel {
        EntryModel {
            index: self.index as int,
            path: self.path@,
            name: self.name@,
            is_dir: self.is_dir,
            size: self.size,
            handle: self.handle@,
            parent: match self.parent {
                Some(p) => Some(p@),
                None => None,
            },
        }
    }
}

/// What entries say.
pub open spec fn entry_models(entries: Seq<Entry>) -> Seq<EntryModel> {
    entries.map_values(|e: Entry| e@)
}

/// The entry for a linked file.
pub open spec fn file_entry(name: Seq<char>, size: i64, handle: Seq<char>) -> EntryModel {
    EntryModel { index: 1, path: seq!['/'] + name, name, is_dir: false, size, handle, parent: None }
}

/// The entry for node `i` of a folder. They are numbered from one on.
pub open spec fn node_entry(f: FolderModel, i: int) -> EntryModel {
    EntryModel {
        index: i + 1,
        path: f.nodes[i].path,
        name: f.nodes[i].name,
        is_dir: f.nodes[i].is_dir,
        size: f.nodes[i].size,
        handle: f.nodes[i].handle,
        parent: if i == f.root {
            None
        } else {
            Some(f.nodes[i].parent_handle)
        },
    }
}

/// The entries of a folder.
pub open spec fn folder_entries(f: FolderModel) -> Seq<EntryModel> {
    Seq::new(f.nodes.len(), |i: int| node_entry(f, i))
}

fn slash_and(name: &str) -> (path: String)
    ensures
        path@ == seq!['/'] + name@,
{
    let mut path = String::new();
    path.push('/');
    path.append(name);
    assert(path@ =~= seq!['/'] + name@);
    path
}

fn list_folder(fs: &FolderFs) -> (entries: Vec<Entry>)
    ensures
        entry_models(entries@) == folder_entries(fs@),
{
    let ghost all = folder_entries(fs@);
    let mut entries: Vec<Entry> = Vec::new();
    let mut i: usize = 0;
    while i < fs.nodes.len()
        invariant
            i <= fs.nodes@.len(),
            all == folder_entries(fs@),
            entries@.len() == i,
            forall|j: int| 0 <= j < i ==> (#[trigger] entries@[j])@ == all[j],
        decreases fs.nodes@.len() - i,
    {
        let n = &fs.nodes[i];
        assert(fs@.nodes[i as int] == n@);
        let parent = if i == fs.root {
            None
        } else {
            Some(n.parent_handle.clone())
        };
        let entry = Entry {
            index: i + 1,
            path: n.path.clone(),
            name: n.name.clone(),
            is_dir: n.is_dir,
            size: n.size,
            handle: n.handle.clone(),
            parent,
        };
        assert(entry@ == node_entry(fs@, i as int));
        entries.push(entry);
        i += 1;
    }
    assert(entry_models(entries@) =~= all);
    entries
}

impl Resolved {
    /// The nodes of a folder are well-formed.
    pub open spec fn wf(&self) -> bool {
        match self {
            Resolved::File { .. } => true,
            Resolved::Folder { fs, .. } => fs.wf(),
        }
    }

    /// The entries to choose from.
    pub fn listing(&self) -> (entries: Vec<Entry>)
        ensures
            entry_models(entries@) == (match self {
                Resolved::File { info, handle, .. } => seq![file_entry(info.name@, info.size, handle@)],
                Resolved::Folder { fs, .. } => folder_entries(fs@),
            }),
    {
        match self {
            Resolved::File { info, handle, .. } => {
                let mut entries: Vec<Entry> = Vec::new();
                entries.push(
                    Entry {
                        index: 1,
                        path: slash_and(info.name.as_str()),
                        name: info.name.clone(),
                        is_dir: false,
                        size: info.size,
                        handle: handle.clone(),
                        parent: None,
                    },
                );
                assert(entry_models(entries@) =~= seq![file_entry(info.name@, info.size, handle@)]);
                entries
            },
            Resolved::Folder { fs, .. } => list_folder(fs),
        }
    }
}

/// The name under which a link's contents are saved.
pub fn default_dest_name(resolved: &Resolved) -> (name: String)
    requires
        resolved.wf(),
    ensures
        name@ == (match resolved {
            Resolved::File { info, .. } => info.name@,
            Resolved::Folder { fs, .. } => fs@.nodes[fs@.root].name,
        }),
{
    match resolved {
        Resolved::File { info, .. } => info.name.clone(),
        Resolved::Folder { fs, .. } => {
            assert(fs@.nodes[fs.root as int] == fs.nodes@[fs.root as int]@);
            fs.nodes[fs.root].name.clone()
        },
    }
}

/// Where `name` is saved below `dir`.
pub fn dest_path_for(dir: &str, name: &str) -> (path: String)
    ensures
        path@ == joined(dir@, name@),
{
    join(dir, name)
}

// ---------------------------------------------------------------------------
// Choosing nodes
// ---------------------------------------------------------------------------

/// The `k`th of the chosen handles counts: it is not empty, and was not
/// chosen before.
pub open spec fn counts(sel: Seq<Seq<char>>, k: int) -> bool {
    sel[k].len() > 0 && !sel.take(k).contains(sel[k])
}

/// The nodes with the first `k` of the chosen handles.
pub open spec fn found(sel: Seq<Seq<char>>, hs: Seq<Seq<char>>, k: int) -> Seq<int>
    decreases k,
{
    if k <= 0 {
        Seq::empty()
    } else {
        let before = found(sel, hs, k - 1);
        if counts(sel, k - 1) && last_with(hs, sel[k - 1]) is Some {
            before.push(last_with(hs, sel[k - 1])->Some_0)
        } else {
            before
        }
    }
}

/// Those of the first `k` chosen handles that no node has.
pub open spec fn missing(sel: Seq<Seq<char>>, hs: Seq<Seq<char>>, k: int) -> Seq<Seq<char>>
    decreases k,
{
    if k <= 0 {
        Seq::empty()
    } else {
        let before = missing(sel, hs, k - 1);
        if counts(sel, k - 1) && last_with(hs, sel[k - 1]) is None {
            before.push(sel[k - 1])
        } else {
            before
        }
    }
}

/// The sort keys of some nodes of a folder.
pub open spec fn path_keys(f: FolderModel, list: Seq<int>) -> Seq<Seq<u8>> {
    Seq::new(
        list.len(),
        |j: int| encode_utf8(sort_text(f.nodes[list[j]].is_dir, f.nodes[list[j]].path)),
    )
}

/// Some nodes of a folder, sorted by path.
pub open spec fn by_path(f: FolderModel, list: Seq<int>) -> Seq<int> {
    let order = ranking(path_keys(f, list));
    Seq::new(order.len(), |k: int| list[order[k]])
}

/// `i`, or one of at most `steps` parents above it, is in the list.
pub open spec fn listed_above(up: Seq<Option<int>>, list: Seq<int>, i: int, steps: nat) -> bool
    decreases steps,
{
    list.contains(i) || (steps > 0 && match up[i] {
        Some(p) => listed_above(up, list, p, (steps - 1) as nat),
        None => false,
    })
}

/// A node above `i` is in the list.
pub open spec fn is_covered(f: FolderModel, list: Seq<int>, i: int) -> bool {
    match f.nodes[i].parent {
        Some(p) => listed_above(node_parents(f.nodes), list, p, f.nodes.len()),
        None => false,
    }
}

/// Those of the first `k` nodes of a list above which the list has none.
pub open spec fn uncovered(f: FolderModel, list: Seq<int>, k: int) -> Seq<int>
    decreases k,
{
    if k <= 0 {
        Seq::empty()
    } else {
        let before = uncovered(f, list, k - 1);
        if is_covered(f, list, list[k - 1]) {
            before
        } else {
            before.push(list[k - 1])
        }
    }
}

/// The nodes that a selection comes to: the root if it is empty; else the
/// nodes with the chosen handles, sorted by path, without those that lie
/// below another one.
pub open spec fn chosen_nodes(f: FolderModel, sel: Seq<Seq<char>>) -> Seq<int> {
    if sel.len() == 0 {
        seq![f.root]
    } else {
        let list = by_path(f, found(sel, handles(f.nodes), sel.len() as int));
        uncovered(f, list, list.len() as int)
    }
}

/// Every number is that of a node.
pub open spec fn in_range(list: Seq<int>, n: int) -> bool {
    forall|j: int| 0 <= j < list.len() ==> 0 <= #[trigger] list[j] < n
}

/// The last node with a handle.
fn node_with(fs: &FolderFs, h: &str) -> (r: Option<usize>)
    requires
        fs.wf(),
    ensures
        match r {
            Some(i) => last_with(handles(fs@.nodes), h@) == Some(i as int) && i < fs.nodes@.len(),
            None => last_with(handles(fs@.nodes), h@) is None,
        },
{
    proof {
        lemma_last_with(handles(fs@.nodes), h@);
        assert(fs.by_handle@.contains_key(h@) || !fs.by_handle@.contains_key(h@));
    }
    match fs.by_handle.get(h) {
        Some(i) => Some(*i),
        None => None,
    }
}

/// The set holds the handles of the list that are not empty.
spec fn holds_seen(seen: Set<Seq<char>>, list: Seq<Seq<char>>) -> bool {
    forall|h: Seq<char>| #[trigger] seen.contains(h) <==> h.len() > 0 && list.contains(h)
}

/// Finds the chosen nodes, and the handles that no node has.
fn find_nodes(fs: &FolderFs, selected: &[String]) -> (r: (Vec<usize>, Vec<String>))
    requires
        fs.wf(),
    ensures
        positions(r.0@) == found(texts(selected@), handles(fs@.nodes), selected@.len() as int),
        texts(r.1@) == missing(texts(selected@), handles(fs@.nodes), selected@.len() as int),
        forall|j: int| 0 <= j < r.0@.len() ==> #[trigger] r.0@[j] < fs.nodes@.len(),
{
    let ghost sel = texts(selected@);
    let ghost hs = handles(fs@.nodes);
    let mut seen = StringHashSet::new();
    let mut nodes: Vec<usize> = Vec::new();
    let mut lost: Vec<String> = Vec::new();
    let mut k: usize = 0;
    assert(positions(nodes@) =~= Seq::empty());
    assert(texts(lost@) =~= Seq::empty());
    while k < selected.len()
        invariant
            fs.wf(),
            k <= selected@.len(),
            sel == texts(selected@),
            hs == handles(fs@.nodes),
            holds_seen(seen@, sel.take(k as int)),
            positions(nodes@) == found(sel, hs, k as int),
            texts(lost@) == missing(sel, hs, k as int),
            forall|j: int| 0 <= j < nodes@.len() ==> #[trigger] nodes@[j] < fs.nodes@.len(),
        decreases selected@.len() - k,
    {
        let ghost before = sel.take(k as int);
        let ghost after = sel.take(k + 1);
        let ghost nodes0 = nodes@;
        let ghost lost0 = lost@;
        let ghost seen0 = seen@;
        let h = selected[k].as_str();
        assert(sel[k as int] == h@);
        if !h.is_empty() && !seen.contains(h) {
            assert(counts(sel, k as int)) by {
                assert(!seen0.contains(h@));
            }
            seen.insert(h.to_owned());
            match node_with(fs, h) {
                Some(i) => {
                    nodes.push(i);
                    assert(positions(nodes@) =~= positions(nodes0).push(i as int));
                },
                None => {
                    lost.push(h.to_owned());
                    assert(texts(lost@) =~= texts(lost0).push(h@));
                },
            }
        } else {
            assert(!counts(sel, k as int));
        }
        assert forall|x: Seq<char>| #[trigger] seen@.contains(x) <==> x.len() > 0 && after.contains(x) by {
            assert(seen0.contains(x) <==> x.len() > 0 && before.contains(x));
            assert(after =~= before.push(h@));
            if before.contains(x) {
                let j = choose|j: int| 0 <= j < before.len() && before[j] == x;
                assert(after[j] == x);
            }
            if after.contains(x) && x != h@ {
                let j = choose|j: int| 0 <= j < after.len() && after[j] == x;
                assert(before[j] == x);
            }
            if x == h@ {
                assert(after[k as int] == x);
            }
        }
        k += 1;
    }
    (nodes, lost)
}

/// Sorts nodes of a folder by path.
fn sort_by_path(fs: &FolderFs, list: &Vec<usize>) -> (sorted: Vec<usize>)
    requires
        forall|j: int| 0 <= j < list@.len() ==> #[trigger] list@[j] < fs.nodes@.len(),
    ensures
        positions(sorted@) == by_path(fs@, positions(list@)),
        forall|j: int| 0 <= j < sorted@.len() ==> #[trigger] sorted@[j] < fs.nodes@.len(),
{
    let ghost all = path_keys(fs@, positions(list@));
    let mut keys: Vec<Vec<u8>> = Vec::new();
    let mut j: usize = 0;
    while j < list.len()
        invariant
            j <= list@.len(),
            forall|a: int| 0 <= a < list@.len() ==> #[trigger] list@[a] < fs.nodes@.len(),
            all == path_keys(fs@, positions(list@)),
            keys@.len() == j,
            forall|a: int| 0 <= a < j ==> (#[trigger] keys@[a])@ == all[a],
        decreases list@.len() - j,
    {
        let i: usize = list[j];
        assert(fs@.nodes[i as int] == fs.nodes@[i as int]@);
        keys.push(sort_key(fs.nodes[i].is_dir, fs.nodes[i].path.as_str()));
        j += 1;
    }
    assert(key_bytes(keys@) =~= all);
    let order = rank(&keys);
    let ghost r = ranking(all);
    assert(is_ranking(all, r));
    let mut sorted: Vec<usize> = Vec::new();
    let mut k: usize = 0;
    while k < order.len()
        invariant
            k <= order@.len() == list@.len(),
            positions(order@) == r,
            forall|a: int| 0 <= a < r.len() ==> 0 <= #[trigger] r[a] < list@.len(),
            forall|a: int| 0 <= a < list@.len() ==> #[trigger] list@[a] < fs.nodes@.len(),
            sorted@.len() == k,
            forall|a: int| 0 <= a < k ==> #[trigger] sorted@[a] == list@[r[a]],
        decreases order@.len() - k,
    {
        assert(r[k as int] == order@[k as int]);
        sorted.push(list[order[k]]);
        k += 1;
    }
    assert(positions(sorted@) =~= by_path(fs@, positions(list@)));
    sorted
}

/// Marks the nodes that are in a list.
fn mark_nodes(list: &Vec<usize>, n: usize) -> (marks: Vec<bool>)
    requires
        forall|j: int| 0 <= j < list@.len() ==> #[trigger] list@[j] < n,
    ensures
        marks@.len() == n,
        forall|i: int| 0 <= i < n ==> #[trigger] marks@[i] == positions(list@).contains(i),
{
    let ghost all = positions(list@);
    let mut marks: Vec<bool> = Vec::new();
    let mut i: usize = 0;
    while i < n
        invariant
            i <= n,
            marks@.len() == i,
            forall|a: int| 0 <= a < i ==> !#[trigger] marks@[a],
        decreases n - i,
    {
        marks.push(false);
        i += 1;
    }
    let mut j: usize = 0;
    while j < list.len()
        invariant
            j <= list@.len(),
            all == positions(list@),
            marks@.len() == n,
            forall|a: int| 0 <= a < list@.len() ==> #[trigger] list@[a] < n,
            forall|a: int| 0 <= a < j ==> marks@[#[trigger] list@[a] as int],
            forall|i: int| 0 <= i < n && #[trigger] marks@[i] ==> all.contains(i),
        decreases list@.len() - j,
    {
        let at: usize = list[j];
        assert(all[j as int] == at);
        marks.set(at, true);
        j += 1;
    }
    assert forall|i: int| 0 <= i < n implies #[trigger] marks@[i] == all.contains(i) by {
        if all.contains(i) {
            let a = choose|a: int| 0 <= a < all.len() && all[a] == i;
            assert(list@[a] == i);
        }
    }
    marks
}

/// Whether a node above `i` is marked.
fn marked_above(fs: &FolderFs, marks: &Vec<bool>, i: usize, Ghost(list): Ghost<Seq<int>>) -> (b: bool)
    requires
        fs.wf(),
        i < fs.nodes@.len(),
        marks@.len() == fs.nodes@.len(),
        forall|i: int| 0 <= i < marks@.len() ==> #[trigger] marks@[i] == list.contains(i),
    ensures
        b == is_covered(fs@, list, i as int),
{
    let ghost up = node_parents(fs@.nodes);
    assert(fs@.nodes[i as int] == fs.nodes@[i as int]@);
    let mut at: usize = match fs.nodes[i].parent {
        Some(p) => p,
        None => return false,
    };
    assert(up[i as int] == Some(at as int));
    let mut left: usize = fs.nodes.len();
    while !marks[at]
        invariant
            fs.wf(),
            up == node_parents(fs@.nodes),
            at < fs.nodes@.len() == marks@.len(),
            forall|i: int| 0 <= i < marks@.len() ==> #[trigger] marks@[i] == list.contains(i),
            is_covered(fs@, list, i as int) == listed_above(up, list, at as int, left as nat),
        decreases left,
    {
        assert(fs@.nodes[at as int] == fs.nodes@[at as int]@);
        assert(up[at as int] == fs@.nodes[at as int].parent);
        if left == 0 {
            return false;
        }
        match fs.nodes[at].parent {
            Some(p) => {
                at = p;
                left -= 1;
            },
            None => return false,
        }
    }
    true
}

/// Drops nodes that have an ancestor in the list.
pub fn prune_children(fs: &FolderFs, nodes: &Vec<usize>) -> (kept: Vec<usize>)
    requires
        fs.wf(),
        forall|j: int| 0 <= j < nodes@.len() ==> #[trigger] nodes@[j] < fs.nodes@.len(),
    ensures
        positions(kept@) == uncovered(fs@, positions(nodes@), nodes@.len() as int),
        forall|j: int| 0 <= j < kept@.len() ==> #[trigger] kept@[j] < fs.nodes@.len(),
{
    let ghost list = positions(nodes@);
    let marks = mark_nodes(nodes, fs.nodes.len());
    let mut kept: Vec<usize> = Vec::new();
    let mut k: usize = 0;
    assert(positions(kept@) =~= Seq::empty());
    while k < nodes.len()
        invariant
            fs.wf(),
            k <= nodes@.len(),
            list == positions(nodes@),
            marks@.len() == fs.nodes@.len(),
            forall|i: int| 0 <= i < marks@.len() ==> #[trigger] marks@[i] == list.contains(i),
            forall|j: int| 0 <= j < nodes@.len() ==> #[trigger] nodes@[j] < fs.nodes@.len(),
            positions(kept@) == uncovered(fs@, list, k as int),
            forall|j: int| 0 <= j < kept@.len() ==> #[trigger] kept@[j] < fs.nodes@.len(),
        decreases nodes@.len() - k,
    {
        let i: usize = nodes[k];
        assert(list[k as int] == i);
        let ghost before = kept@;
        if !marked_above(fs, &marks, i, Ghost(list)) {
            kept.push(i);
            assert(positions(kept@) =~= positions(before).push(i as int));
        }
        k += 1;
    }
    kept
}

/// The nodes that a selection comes to, and the chosen handles that no node
/// has.
pub fn plan_folder_nodes(fs: &FolderFs, selected: &[String]) -> (r: (Vec<usize>, Vec<String>))
    requires
        fs.wf(),
    ensures
        positions(r.0@) == chosen_nodes(fs@, texts(selected@)),
        texts(r.1@) == missing(texts(selected@), handles(fs@.nodes), selected@.len() as int),
        forall|j: int| 0 <= j < r.0@.len() ==> #[trigger] r.0@[j] < fs.nodes@.len(),
{
    if selected.len() == 0 {
        let mut chosen: Vec<usize> = Vec::new();
        chosen.push(fs.root);
        assert(positions(chosen@) =~= seq![fs.root as int]);
        let lost: Vec<String> = Vec::new();
        assert(texts(lost@) =~= Seq::empty());
        return (chosen, lost);
    }
    let (nodes, lost) = find_nodes(fs, selected);
    let sorted = sort_by_path(fs, &nodes);
    (prune_children(fs, &sorted), lost)
}

// ---------------------------------------------------------------------------
// Planning
// ---------------------------------------------------------------------------

/// The files in the subtrees of the first `k` chosen nodes.
pub open spec fn files_of(f: FolderModel, chosen: Seq<int>, k: int) -> Seq<int>
    decreases k,
{
    if k <= 0 {
        Seq::empty()
    } else {
        files_of(f, chosen, k - 1) + files_below(f, chosen[k - 1], f.nodes.len() as int)
    }
}

/// No earlier file of the list has the handle of the `k`th.
pub open spec fn is_new(f: FolderModel, list: Seq<int>, k: int) -> bool {
    forall|j: int| 0 <= j < k ==> f.nodes[#[trigger] list[j]].handle != f.nodes[list[k]].handle
}

/// Among the first `k` files of a list, those whose handle is new.
pub open spec fn without_repeats(f: FolderModel, list: Seq<int>, k: int) -> Seq<int>
    decreases k,
{
    if k <= 0 {
        Seq::empty()
    } else {
        let before = without_repeats(f, list, k - 1);
        if is_new(f, list, k - 1) {
            before.push(list[k - 1])
        } else {
            before
        }
    }
}

/// The files that a selection comes to, none twice.
pub open spec fn planned_files(f: FolderModel, sel: Seq<Seq<char>>) -> Seq<int> {
    let chosen = chosen_nodes(f, sel);
    let list = files_of(f, chosen, chosen.len() as int);
    without_repeats(f, list, list.len() as int)
}

/// `job` fetches node `i` of a folder to its place below `dest`.
pub open spec fn is_node_job(job: FileJob, f: FolderModel, dest: Seq<char>, i: int) -> bool {
    &&& job.local_path@ == joined(dest, path_from_root(f, i))
    &&& job.remote_path@ == f.nodes[i].path
    &&& job.size == f.nodes[i].size
    &&& job.handle@ == f.nodes[i].handle
    &&& f.nodes[i].key.len() == 32
    &&& unpacks_to(f.nodes[i].key, job.key)
    &&& job.source matches UrlSource::Node { handle }
    &&& handle@ == f.nodes[i].handle
}

/// `job` fetches a linked file to `dest`, or below it if it is a directory.
pub open spec fn is_link_job(job: FileJob, info: FileInfo, handle: Seq<char>, dest: Seq<char>, dest_is_dir: bool) -> bool {
    &&& job.local_path@ == (if dest_is_dir {
        joined(dest, info.name@)
    } else {
        dest
    })
    &&& job.remote_path@ == seq!['/'] + info.name@
    &&& job.size == info.size
    &&& job.handle@ == handle
    &&& job.key == info.key
    &&& job.source matches UrlSource::Known { url, size }
    &&& url@ == info.url@
    &&& size == info.size
}

/// The jobs fetch the files `files` of a folder.
pub open spec fn are_node_jobs(jobs: Seq<FileJob>, f: FolderModel, dest: Seq<char>, files: Seq<int>) -> bool {
    &&& jobs.len() == files.len()
    &&& forall|k: int| 0 <= k < jobs.len() ==> is_node_job(#[trigger] jobs[k], f, dest, files[k])
}

/// The `k`th file is the first with a key of the wrong length.
pub open spec fn is_first_bad_key(f: FolderModel, files: Seq<int>, k: int) -> bool {
    &&& 0 <= k < files.len()
    &&& f.nodes[files[k]].key.len() != 32
    &&& forall|j: int| 0 <= j < k ==> f.nodes[#[trigger] files[j]].key.len() == 32
}

/// `message` complains about the first file with a key of the wrong length.
pub open spec fn is_key_complaint(f: FolderModel, files: Seq<int>, message: Seq<char>) -> bool {
    exists|k: int|
        #[trigger] is_first_bad_key(f, files, k) && message == key_length_error(f.nodes[files[k]].key.len())
}

fn node_job(fs: &FolderFs, i: usize, dest_dir: &str) -> (r: Result<FileJob, String>)
    requires
        fs.wf(),
        i < fs.nodes@.len(),
    ensures
        match r {
            Ok(job) => is_node_job(job, fs@, dest_dir@, i as int),
            Err(e) => fs@.nodes[i as int].key.len() != 32 && e@ == key_length_error(fs@.nodes[i as int].key.len()),
        },
{
    assert(fs@.nodes[i as int] == fs.nodes@[i as int]@);
    let rel = fs.rel_to_root(i);
    let local_path = join(dest_dir, rel.as_str());
    let key = match unpack_file_key(fs.nodes[i].key.as_slice()) {
        Ok(k) => k,
        Err(e) => return Err(e),
    };
    Ok(
        FileJob {
            local_path,
            remote_path: fs.nodes[i].path.clone(),
            size: fs.nodes[i].size,
            handle: fs.nodes[i].handle.clone(),
            key,
            source: UrlSource::Node { handle: fs.nodes[i].handle.clone() },
        },
    )
}

/// The handles of the files in a list.
spec fn holds_handles(added: Set<Seq<char>>, f: FolderModel, list: Seq<int>) -> bool {
    forall|h: Seq<char>|
        #[trigger] added.contains(h) <==> exists|j: int| 0 <= j < list.len() && f.nodes[#[trigger] list[j]].handle == h
}

proof fn lemma_repeats_prefix(f: FolderModel, list: Seq<int>, longer: Seq<int>, k: int)
    requires
        0 <= k <= list.len() <= longer.len(),
        longer.take(list.len() as int) == list,
    ensures
        without_repeats(f, list, k) == without_repeats(f, longer, k),
    decreases k,
{
    assert forall|j: int| 0 <= j < list.len() implies #[trigger] list[j] == longer[j] by {
        assert(longer.take(list.len() as int)[j] == longer[j]);
    }
    if k > 0 {
        lemma_repeats_prefix(f, list, longer, k - 1);
        assert(is_new(f, list, k - 1) == is_new(f, longer, k - 1)) by {
            if is_new(f, list, k - 1) {
                assert forall|j: int| 0 <= j < k - 1 implies f.nodes[#[trigger] longer[j]].handle != f.nodes[longer[k
                    - 1]].handle by {
                    assert(list[j] == longer[j]);
                }
            }
            if is_new(f, longer, k - 1) {
                assert forall|j: int| 0 <= j < k - 1 implies f.nodes[#[trigger] list[j]].handle != f.nodes[list[k
                    - 1]].handle by {
                    assert(list[j] == longer[j]);
                }
            }
        }
    }
}

proof fn lemma_one_more(f: FolderModel, list: Seq<int>, i: int)
    ensures
        ({
            let longer = list.push(i);
            without_repeats(f, longer, longer.len() as int) == if is_new(f, longer, list.len() as int) {
                without_repeats(f, list, list.len() as int).push(i)
            } else {
                without_repeats(f, list, list.len() as int)
            }
        }),
{
    let longer = list.push(i);
    assert(longer.take(list.len() as int) =~= list);
    lemma_repeats_prefix(f, list, longer, list.len() as int);
}

/// What is planned stays planned when the list grows.
proof fn lemma_repeats_grow(f: FolderModel, list: Seq<int>, k: int)
    requires
        0 <= k <= list.len(),
    ensures
        ({
            let part = without_repeats(f, list, k);
            let all = without_repeats(f, list, list.len() as int);
            part.len() <= all.len() && all.take(part.len() as int) == part
        }),
    decreases list.len() - k,
{
    let part = without_repeats(f, list, k);
    let all = without_repeats(f, list, list.len() as int);
    if k < list.len() {
        lemma_repeats_grow(f, list, k + 1);
        let more = without_repeats(f, list, k + 1);
        assert(all.take(part.len() as int) =~= more.take(part.len() as int)) by {
            assert forall|j: int| 0 <= j < part.len() implies all[j] == more[j] by {
                assert(all.take(more.len() as int)[j] == more[j]);
            }
        }
        assert(more.take(part.len() as int) =~= part);
    } else {
        assert(all.take(part.len() as int) =~= part);
    }
}

/// A complaint about part of the list is one about all of it.
proof fn lemma_complaint_grows(f: FolderModel, part: Seq<int>, all: Seq<int>, message: Seq<char>)
    requires
        part.len() <= all.len(),
        all.take(part.len() as int) == part,
        is_key_complaint(f, part, message),
    ensures
        is_key_complaint(f, all, message),
{
    let k = choose|k: int|
        #[trigger] is_first_bad_key(f, part, k) && message == key_length_error(f.nodes[part[k]].key.len());
    assert forall|j: int| 0 <= j < part.len() implies #[trigger] all[j] == part[j] by {
        assert(all.take(part.len() as int)[j] == all[j]);
    }
    assert forall|j: int| 0 <= j < k implies f.nodes[#[trigger] all[j]].key.len() == 32 by {
        assert(all[j] == part[j]);
    }
    assert(all[k] == part[k]);
    assert(is_first_bad_key(f, all, k));
}

proof fn lemma_files_prefix(f: FolderModel, chosen: Seq<int>, k: int)
    requires
        0 <= k <= chosen.len(),
    ensures
        ({
            let part = files_of(f, chosen, k);
            let all = files_of(f, chosen, chosen.len() as int);
            part.len() <= all.len() && all.take(part.len() as int) == part
        }),
    decreases chosen.len() - k,
{
    let part = files_of(f, chosen, k);
    let all = files_of(f, chosen, chosen.len() as int);
    if k < chosen.len() {
        lemma_files_prefix(f, chosen, k + 1);
        let more = files_of(f, chosen, k + 1);
        assert forall|j: int| 0 <= j < part.len() implies all[j] == part[j] by {
            assert(all.take(more.len() as int)[j] == all[j]);
            assert(more[j] == part[j]);
        }
        assert(all.take(part.len() as int) =~= part);
    } else {
        assert(all.take(part.len() as int) =~= part);
    }
}

/// Plans one file more, unless its handle was planned before.
fn add_file(
    fs: &FolderFs,
    i: usize,
    dest_dir: &str,
    added: &mut StringHashSet,
    jobs: &mut Vec<FileJob>,
    Ghost(list): Ghost<Seq<int>>,
) -> (r: Result<(), String>)
    requires
        fs.wf(),
        i < fs.nodes@.len(),
        holds_handles(old(added)@, fs@, list),
        are_node_jobs(old(jobs)@, fs@, dest_dir@, without_repeats(fs@, list, list.len() as int)),
    ensures
        ({
            let longer = list.push(i as int);
            let files = without_repeats(fs@, longer, longer.len() as int);
            match r {
                Ok(()) => holds_handles(final(added)@, fs@, longer) && are_node_jobs(
                    final(jobs)@,
                    fs@,
                    dest_dir@,
                    files,
                ),
                Err(e) => is_key_complaint(fs@, files, e@),
            }
        }),
{
    let ghost f = fs@;
    let ghost longer = list.push(i as int);
    let ghost before = without_repeats(f, list, list.len() as int);
    let ghost added0 = added@;
    let h = fs.nodes[i].handle.as_str();
    assert(f.nodes[i as int] == fs.nodes@[i as int]@);
    proof {
        lemma_one_more(f, list, i as int);
        assert(is_new(f, longer, list.len() as int) == !added0.contains(h@)) by {
            if added0.contains(h@) {
                let j = choose|j: int| 0 <= j < list.len() && f.nodes[#[trigger] list[j]].handle == h@;
                assert(longer[j] == list[j]);
            } else {
                assert forall|j: int| 0 <= j < list.len() implies f.nodes[#[trigger] longer[j]].handle != h@ by {
                    assert(longer[j] == list[j]);
                }
            }
        }
        assert forall|x: Seq<char>| #[trigger]
            added0.insert(h@).contains(x) <==> exists|j: int|
                0 <= j < longer.len() && f.nodes[#[trigger] longer[j]].handle == x by {
            if added0.contains(x) {
                let j = choose|j: int| 0 <= j < list.len() && f.nodes[#[trigger] list[j]].handle == x;
                assert(longer[j] == list[j]);
            }
            if x == h@ {
                assert(longer[list.len() as int] == i);
            }
            if exists|j: int| 0 <= j < longer.len() && f.nodes[#[trigger] longer[j]].handle == x {
                let j = choose|j: int| 0 <= j < longer.len() && f.nodes[#[trigger] longer[j]].handle == x;
                if j < list.len() {
                    assert(list[j] == longer[j]);
                }
            }
        }
    }
    if added.contains(h) {
        assert(added0.insert(h@) =~= added0);
        return Ok(());
    }
    added.insert(h.to_owned());
    match node_job(fs, i, dest_dir) {
        Ok(job) => {
            let ghost jobs0 = jobs@;
            jobs.push(job);
            assert forall|k: int| 0 <= k < jobs@.len() implies is_node_job(
                #[trigger] jobs@[k],
                f,
                dest_dir@,
                before.push(i as int)[k],
            ) by {
                if k < jobs0.len() {
                    assert(is_node_job(jobs0[k], f, dest_dir@, before[k]));
                }
            }
            Ok(())
        },
        Err(e) => {
            proof {
                let files = before.push(i as int);
                let k = before.len() as int;
                assert forall|j: int| 0 <= j < k implies f.nodes[#[trigger] files[j]].key.len() == 32 by {
                    assert(is_node_job(jobs@[j], f, dest_dir@, before[j]));
                }
                assert(is_first_bad_key(f, files, k));
            }
            Err(e)
        },
    }
}

/// Plans the files in the subtrees of the chosen nodes.
fn plan_nodes(fs: &FolderFs, chosen: &Vec<usize>, dest_dir: &str) -> (r: Result<Vec<FileJob>, String>)
    requires
        fs.wf(),
        forall|j: int| 0 <= j < chosen@.len() ==> #[trigger] chosen@[j] < fs.nodes@.len(),
    ensures
        ({
            let list = files_of(fs@, positions(chosen@), chosen@.len() as int);
            let files = without_repeats(fs@, list, list.len() as int);
            match r {
                Ok(jobs) => are_node_jobs(jobs@, fs@, dest_dir@, files),
                Err(e) => is_key_complaint(fs@, files, e@),
            }
        }),
{
    let ghost f = fs@;
    let ghost nodes = positions(chosen@);
    let ghost all = files_of(f, nodes, nodes.len() as int);
    let mut jobs: Vec<FileJob> = Vec::new();
    let mut added = StringHashSet::new();
    let mut c: usize = 0;
    while c < chosen.len()
        invariant
            fs.wf(),
            f == fs@,
            nodes == positions(chosen@),
            all == files_of(f, nodes, nodes.len() as int),
            c <= chosen@.len(),
            forall|j: int| 0 <= j < chosen@.len() ==> #[trigger] chosen@[j] < fs.nodes@.len(),
            holds_handles(added@, f, files_of(f, nodes, c as int)),
            are_node_jobs(
                jobs@,
                f,
                dest_dir@,
                without_repeats(f, files_of(f, nodes, c as int), files_of(f, nodes, c as int).len() as int),
            ),
        decreases chosen@.len() - c,
    {
        let n: usize = chosen[c];
        assert(nodes[c as int] == n);
        let files = fs.files_under(n);
        let ghost before = files_of(f, nodes, c as int);
        let ghost below = positions(files@);
        proof {
            law_files_below(f, n as int, f.nodes.len() as int);
            lemma_files_prefix(f, nodes, c + 1);
            assert forall|x: int| 0 <= x < below.len() implies 0 <= #[trigger] below[x] < f.nodes.len() by {
                assert(below.contains(below[x]));
                assert(!f.nodes[below[x]].is_dir);
            }
        }
        let mut j: usize = 0;
        assert(before + below.take(0) =~= before);
        while j < files.len()
            invariant
                fs.wf(),
                f == fs@,
                nodes == positions(chosen@),
                all == files_of(f, nodes, nodes.len() as int),
                j <= files@.len(),
                below == positions(files@),
                below == files_below(f, n as int, f.nodes.len() as int),
                before + below == files_of(f, nodes, c + 1),
                all.take((before + below).len() as int) == before + below,
                (before + below).len() <= all.len(),
                in_range(below, f.nodes.len() as int),
                holds_handles(added@, f, before + below.take(j as int)),
                are_node_jobs(
                    jobs@,
                    f,
                    dest_dir@,
                    without_repeats(
                        f,
                        before + below.take(j as int),
                        (before + below.take(j as int)).len() as int,
                    ),
                ),
            decreases files@.len() - j,
        {
            let i: usize = files[j];
            let ghost list = before + below.take(j as int);
            assert(below[j as int] == i);
            assert(list.push(i as int) =~= before + below.take(j + 1));
            let done = add_file(fs, i, dest_dir, &mut added, &mut jobs, Ghost(list));
            if let Err(e) = done {
                proof {
                    let longer = list.push(i as int);
                    let part = without_repeats(f, longer, longer.len() as int);
                    assert(all.take(longer.len() as int) =~= longer) by {
                        assert forall|x: int| 0 <= x < longer.len() implies all[x] == longer[x] by {
                            assert(all.take((before + below).len() as int)[x] == all[x]);
                        }
                    }
                    lemma_repeats_prefix(f, longer, all, longer.len() as int);
                    lemma_repeats_grow(f, all, longer.len() as int);
                    lemma_complaint_grows(f, part, without_repeats(f, all, all.len() as int), e@);
                }
                return Err(e);
            }
            j += 1;
        }
        assert(below.take(j as int) =~= below);
        c += 1;
    }
    Ok(jobs)
}

impl Resolved {
    /// The chosen handles that no node of the link has.
    pub fn missing_handles(&self, selected: &[String]) -> (lost: Vec<String>)
        requires
            self.wf(),
        ensures
            texts(lost@) == (match self {
                Resolved::File { .. } => Seq::empty(),
                Resolved::Folder { fs, .. } => missing(
                    texts(selected@),
                    handles(fs@.nodes),
                    selected@.len() as int,
                ),
            }),
    {
        match self {
            Resolved::File { .. } => {
                let lost: Vec<String> = Vec::new();
                assert(texts(lost@) =~= Seq::empty());
                lost
            },
            Resolved::Folder { fs, .. } => find_nodes(fs, selected).1,
        }
    }

    /// The files to fetch: the `selected` handles, or the whole link if there
    /// are none, below `dest_dir`. Folders in the selection stand for every
    /// file beneath them. A linked file goes to `dest_dir` itself, unless
    /// that is a directory.
    pub fn plan(&self, dest_dir: &str, dest_is_dir: bool, selected: &[String]) -> (r: Result<Vec<FileJob>, String>)
        requires
            self.wf(),
        ensures
            match self {
                Resolved::File { info, handle, .. } => {
                    &&& r matches Ok(jobs)
                    &&& jobs@.len() == 1
                    &&& is_link_job(jobs@[0], *info, handle@, dest_dir@, dest_is_dir)
                },
                Resolved::Folder { fs, .. } => {
                    let files = planned_files(fs@, texts(selected@));
                    match r {
                        Ok(jobs) => are_node_jobs(jobs@, fs@, dest_dir@, files),
                        Err(e) => is_key_complaint(fs@, files, e@),
                    }
                },
            },
    {
        match self {
            Resolved::File { info, handle, .. } => {
                let local_path = if dest_is_dir {
                    join(dest_dir, info.name.as_str())
                } else {
                    dest_dir.to_owned()
                };
                let mut jobs: Vec<FileJob> = Vec::new();
                jobs.push(
                    FileJob {
                        local_path,
                        remote_path: slash_and(info.name.as_str()),
                        size: info.size,
                        handle: handle.clone(),
                        key: info.key,
                        source: UrlSource::Known { url: info.url.clone(), size: info.size },
                    },
                );
                Ok(jobs)
            },
            Resolved::Folder { fs, .. } => {
                let (chosen, _) = plan_folder_nodes(fs, selected);
                plan_nodes(fs, &chosen, dest_dir)
            },
        }
    }
}

// ---------------------------------------------------------------------------
// Laws
// ---------------------------------------------------------------------------

/// The file `x` stands among the first `k` of a list.
spec fn stands_in(list: Seq<int>, k: int, x: int) -> bool {
    exists|j: int| 0 <= j < k && #[trigger] list[j] == x
}

/// The list without repeats is made of files of the list.
proof fn lemma_repeats_from_list(f: FolderModel, list: Seq<int>, k: int, a: int)
    requires
        0 <= k <= list.len(),
        0 <= a < without_repeats(f, list, k).len(),
    ensures
        stands_in(list, k, without_repeats(f, list, k)[a]),
    decreases k,
{
    let out = without_repeats(f, list, k);
    let before = without_repeats(f, list, k - 1);
    if a < before.len() {
        lemma_repeats_from_list(f, list, k - 1, a);
        let j = choose|j: int| 0 <= j < k - 1 && #[trigger] list[j] == before[a];
        assert(list[j] == out[a]);
    } else {
        assert(list[k - 1] == out[a]);
    }
}

/// The list without repeats holds every handle of the list.
proof fn lemma_repeats_hold_all(f: FolderModel, list: Seq<int>, k: int, j: int)
    requires
        0 <= j < k <= list.len(),
    ensures
        is_planned(f, without_repeats(f, list, k), list[j]),
    decreases k,
{
    let out = without_repeats(f, list, k);
    let before = without_repeats(f, list, k - 1);
    let h = f.nodes[list[j]].handle;
    if j < k - 1 || !is_new(f, list, k - 1) {
        let e = if j < k - 1 {
            j
        } else {
            choose|e: int| 0 <= e < k - 1 && f.nodes[#[trigger] list[e]].handle == f.nodes[list[k - 1]].handle
        };
        lemma_repeats_hold_all(f, list, k - 1, e);
        let a = choose|a: int| 0 <= a < before.len() && f.nodes[#[trigger] before[a]].handle == h;
        assert(out[a] == before[a]);
    } else {
        assert(out[before.len() as int] == list[j]);
    }
}

/// The list without repeats holds no handle twice.
proof fn lemma_repeats_differ(f: FolderModel, list: Seq<int>, k: int, a: int, b: int)
    requires
        0 <= k <= list.len(),
        0 <= a < b < without_repeats(f, list, k).len(),
    ensures
        f.nodes[without_repeats(f, list, k)[a]].handle != f.nodes[without_repeats(f, list, k)[b]].handle,
    decreases k,
{
    let out = without_repeats(f, list, k);
    let before = without_repeats(f, list, k - 1);
    if b < before.len() {
        lemma_repeats_differ(f, list, k - 1, a, b);
    } else {
        lemma_repeats_from_list(f, list, k - 1, a);
        let j = choose|j: int| 0 <= j < k - 1 && #[trigger] list[j] == before[a];
        assert(f.nodes[list[j]].handle != f.nodes[list[k - 1]].handle);
    }
}

proof fn lemma_files_of(f: FolderModel, chosen: Seq<int>, k: int, i: int)
    requires
        0 <= k <= chosen.len(),
    ensures
        files_of(f, chosen, k).contains(i) <==> 0 <= i < f.nodes.len() && !f.nodes[i].is_dir && exists|c: int|
            0 <= c < k && is_under(f, i, #[trigger] chosen[c]),
    decreases k,
{
    if k > 0 {
        lemma_files_of(f, chosen, k - 1, i);
        let before = files_of(f, chosen, k - 1);
        let below = files_below(f, chosen[k - 1], f.nodes.len() as int);
        let all = files_of(f, chosen, k);
        law_files_below(f, chosen[k - 1], f.nodes.len() as int);
        assert(below.contains(i) <==> 0 <= i < f.nodes.len() && !f.nodes[i].is_dir && is_under(f, i, chosen[k - 1]));
        if all.contains(i) {
            let a = choose|a: int| 0 <= a < all.len() && all[a] == i;
            if a < before.len() {
                assert(before[a] == i);
            } else {
                assert(below[a - before.len()] == i);
            }
        }
        if before.contains(i) {
            let a = choose|a: int| 0 <= a < before.len() && before[a] == i;
            assert(all[a] == i);
        }
        if below.contains(i) {
            let a = choose|a: int| 0 <= a < below.len() && below[a] == i;
            assert(all[before.len() + a] == i);
        }
    }
}

/// A file is planned if and only if it lies below one of the chosen nodes:
/// its handle is planned, and once.
pub proof fn law_plan_is_what_was_chosen(f: FolderModel, sel: Seq<Seq<char>>)
    ensures
        ({
            let files = planned_files(f, sel);
            let chosen = chosen_nodes(f, sel);
            &&& forall|a: int|
                0 <= a < files.len() ==> {
                    let i = #[trigger] files[a];
                    0 <= i < f.nodes.len() && !f.nodes[i].is_dir && exists|c: int|
                        0 <= c < chosen.len() && is_under(f, i, #[trigger] chosen[c])
                }
            &&& forall|i: int, c: int|
                0 <= i < f.nodes.len() && !f.nodes[i].is_dir && 0 <= c < chosen.len() && #[trigger] is_under(
                    f,
                    i,
                    chosen[c],
                ) ==> is_planned(f, files, i)
            &&& forall|a: int, b: int|
                0 <= a < b < files.len() ==> f.nodes[#[trigger] files[a]].handle != f.nodes[#[trigger] files[b]].handle
        }),
{
    let chosen = chosen_nodes(f, sel);
    let list = files_of(f, chosen, chosen.len() as int);
    let files = planned_files(f, sel);
    assert forall|a: int, b: int| 0 <= a < b < files.len() implies f.nodes[#[trigger] files[a]].handle
        != f.nodes[#[trigger] files[b]].handle by {
        lemma_repeats_differ(f, list, list.len() as int, a, b);
    }
    assert forall|a: int| 0 <= a < files.len() implies {
        let i = #[trigger] files[a];
        0 <= i < f.nodes.len() && !f.nodes[i].is_dir && exists|c: int|
            0 <= c < chosen.len() && is_under(f, i, #[trigger] chosen[c])
    } by {
        lemma_repeats_from_list(f, list, list.len() as int, a);
        assert(list.contains(files[a]));
        lemma_files_of(f, chosen, chosen.len() as int, files[a]);
    }
    assert forall|i: int, c: int|
        0 <= i < f.nodes.len() && !f.nodes[i].is_dir && 0 <= c < chosen.len() && #[trigger] is_under(f, i, chosen[c]) implies is_planned(
        f,
        files,
        i,
    ) by {
        lemma_files_of(f, chosen, chosen.len() as int, i);
        assert(is_under(f, i, chosen[c]));
        let j = choose|j: int| 0 <= j < list.len() && list[j] == i;
        lemma_repeats_hold_all(f, list, list.len() as int, j);
    }
}

/// One of the files has the handle of node `i`.
pub open spec fn is_planned(f: FolderModel, files: Seq<int>, i: int) -> bool {
    exists|a: int| 0 <= a < files.len() && f.nodes[#[trigger] files[a]].handle == f.nodes[i].handle
}

/// An empty selection means the whole link: every file in it is planned.
pub proof fn law_empty_selection_is_everything(f: FolderModel, i: int)
    requires
        is_pathed(f),
        0 <= i < f.nodes.len(),
        !f.nodes[i].is_dir,
    ensures
        is_planned(f, planned_files(f, Seq::empty()), i),
{
    let chosen = chosen_nodes(f, Seq::empty());
    lemma_climbs_is_above(tree_parents(f), f.root, i, f.nodes.len());
    law_plan_is_what_was_chosen(f, Seq::empty());
    assert(chosen[0] == f.root);
    assert(is_under(f, i, chosen[0]));
}

/// What lies above a node lies within as many steps as the root does, and
/// the root within fewer from there.
pub proof fn lemma_above_within(up: Seq<Option<int>>, root: int, i: int, a: int, steps: nat, depth: nat)
    requires
        climbs(up, root, i, depth),
        at_or_above(up, i, a, steps),
        up[root] is None,
    ensures
        at_or_above(up, i, a, depth),
        climbs(up, root, a, depth),
        i != a ==> depth > 0 && climbs(up, root, a, (depth - 1) as nat),
    decreases steps,
{
    if i != a {
        assert(i != root);
        let p = up[i]->Some_0;
        lemma_above_within(up, root, p, a, (steps - 1) as nat, (depth - 1) as nat);
        crate::tree::lemma_climbs_more(up, root, a, (depth - 1) as nat, depth);
    }
}

proof fn lemma_above_above(up: Seq<Option<int>>, i: int, a: int, b: int, s: nat, t: nat)
    requires
        at_or_above(up, i, a, s),
        at_or_above(up, a, b, t),
    ensures
        at_or_above(up, i, b, s + t),
    decreases s,
{
    if i == a {
        lemma_above_more(up, a, b, t, s + t);
    } else {
        let p = up[i]->Some_0;
        lemma_above_above(up, p, a, b, (s - 1) as nat, t);
        if i != b {
            assert(at_or_above(up, p, b, (s + t - 1) as nat));
        }
    }
}

proof fn lemma_above_more(up: Seq<Option<int>>, i: int, a: int, s: nat, t: nat)
    requires
        at_or_above(up, i, a, s),
        s <= t,
    ensures
        at_or_above(up, i, a, t),
    decreases s,
{
    if i != a {
        lemma_above_more(up, up[i]->Some_0, a, (s - 1) as nat, (t - 1) as nat);
    }
}

proof fn lemma_listed_above(up: Seq<Option<int>>, list: Seq<int>, i: int, steps: nat) -> (a: int)
    requires
        listed_above(up, list, i, steps),
    ensures
        list.contains(a),
        at_or_above(up, i, a, steps),
    decreases steps,
{
    if list.contains(i) {
        i
    } else {
        lemma_listed_above(up, list, up[i]->Some_0, (steps - 1) as nat)
    }
}

proof fn lemma_at_or_above_in_range(up: Seq<Option<int>>, i: int, a: int, steps: nat)
    requires
        parents_in_range(up),
        0 <= i < up.len(),
        at_or_above(up, i, a, steps),
    ensures
        0 <= a < up.len(),
    decreases steps,
{
    if i != a {
        lemma_at_or_above_in_range(up, up[i]->Some_0, a, (steps - 1) as nat);
    }
}

/// At or above every node of a list stands one above which the list has
/// none.
proof fn lemma_topmost(f: FolderModel, list: Seq<int>, n: int, depth: nat) -> (m: int)
    requires
        is_rooted(f),
        list.contains(n),
        0 <= n < f.nodes.len(),
        climbs(tree_parents(f), f.root, n, depth),
        depth <= f.nodes.len(),
    ensures
        list.contains(m),
        0 <= m < f.nodes.len(),
        !is_covered(f, list, m),
        at_or_above(tree_parents(f), n, m, depth),
    decreases depth,
{
    let up = tree_parents(f);
    assert(node_parents(f.nodes) =~= up);
    if !is_covered(f, list, n) {
        n
    } else {
        let p = f.nodes[n].parent->Some_0;
        assert(up[n] == Some(p));
        assert(n != f.root);
        let a = lemma_listed_above(up, list, p, f.nodes.len());
        lemma_at_or_above_in_range(up, p, a, f.nodes.len());
        lemma_above_within(up, f.root, p, a, f.nodes.len(), (depth - 1) as nat);
        let m = lemma_topmost(f, list, a, (depth - 1) as nat);
        lemma_above_above(up, p, a, m, (depth - 1) as nat, (depth - 1) as nat);
        lemma_above_within(up, f.root, p, m, ((depth - 1) + (depth - 1)) as nat, (depth - 1) as nat);
        m
    }
}

proof fn lemma_uncovered(f: FolderModel, list: Seq<int>, k: int, m: int)
    requires
        0 <= k <= list.len(),
    ensures
        uncovered(f, list, k).contains(m) <==> list.take(k).contains(m) && !is_covered(f, list, m),
    decreases k,
{
    if k > 0 {
        lemma_uncovered(f, list, k - 1, m);
        let before = uncovered(f, list, k - 1);
        let out = uncovered(f, list, k);
        let short = list.take(k - 1);
        let long = list.take(k);
        assert(long =~= short.push(list[k - 1]));
        if out.contains(m) {
            let a = choose|a: int| 0 <= a < out.len() && out[a] == m;
            if a < before.len() {
                assert(before[a] == m);
                let j = choose|j: int| 0 <= j < short.len() && short[j] == m;
                assert(long[j] == m);
            } else {
                assert(long[k - 1] == m);
            }
        }
        if long.contains(m) && !is_covered(f, list, m) {
            let j = choose|j: int| 0 <= j < long.len() && long[j] == m;
            if j < k - 1 {
                assert(short[j] == m);
                let a = choose|a: int| 0 <= a < before.len() && before[a] == m;
                assert(out[a] == m);
            } else {
                assert(out.last() == m);
            }
        }
    } else {
        assert(list.take(0) =~= Seq::<int>::empty());
    }
}

proof fn lemma_by_path(f: FolderModel, list: Seq<int>, n: int)
    ensures
        by_path(f, list).contains(n) <==> list.contains(n),
{
    let keys = path_keys(f, list);
    law_ranking(keys);
    let r = ranking(keys);
    lemma_ranking_is_permutation(keys, r);
    let out = by_path(f, list);
    if out.contains(n) {
        let a = choose|a: int| 0 <= a < out.len() && out[a] == n;
        assert(0 <= r[a] < keys.len());
        assert(list[r[a]] == n);
    }
    if list.contains(n) {
        let j = choose|j: int| 0 <= j < list.len() && list[j] == n;
        assert(r.contains(j));
        let a = choose|a: int| 0 <= a < r.len() && r[a] == j;
        assert(out[a] == n);
    }
}

/// Every handle that was chosen is found, wherever it stands.
proof fn lemma_found(sel: Seq<Seq<char>>, hs: Seq<Seq<char>>, k: int, j: int)
    requires
        0 <= j < k <= sel.len(),
        sel[j].len() > 0,
        last_with(hs, sel[j]) is Some,
    ensures
        found(sel, hs, k).contains(last_with(hs, sel[j])->Some_0),
    decreases k,
{
    let n = last_with(hs, sel[j])->Some_0;
    let before = found(sel, hs, k - 1);
    let all = found(sel, hs, k);
    if j < k - 1 {
        lemma_found(sel, hs, k - 1, j);
        let a = choose|a: int| 0 <= a < before.len() && before[a] == n;
        assert(all[a] == n);
    } else if counts(sel, j) {
        assert(all.last() == n);
    } else {
        let short = sel.take(j);
        let e = choose|e: int| 0 <= e < short.len() && short[e] == sel[j];
        assert(sel[e] == sel[j]);
        lemma_found(sel, hs, k - 1, e);
        let a = choose|a: int| 0 <= a < before.len() && before[a] == n;
        assert(all[a] == n);
    }
}

/// Of the nodes that are kept, none lies below another node that was chosen.
pub proof fn law_nested_choices_are_pruned(f: FolderModel, sel: Seq<Seq<char>>, m: int)
    requires
        sel.len() > 0,
        chosen_nodes(f, sel).contains(m),
    ensures
        found(sel, handles(f.nodes), sel.len() as int).contains(m),
        !is_covered(f, by_path(f, found(sel, handles(f.nodes), sel.len() as int)), m),
{
    let picked = found(sel, handles(f.nodes), sel.len() as int);
    let list = by_path(f, picked);
    lemma_uncovered(f, list, list.len() as int, m);
    assert(list.take(list.len() as int) =~= list);
    lemma_by_path(f, picked, m);
}

/// A folder in the selection stands for every file beneath it, and a file
/// for itself: whatever is pruned, each of these files is planned.
pub proof fn law_selection_is_planned(f: FolderModel, sel: Seq<Seq<char>>, j: int, i: int)
    requires
        is_rooted(f),
        0 <= j < sel.len(),
        sel[j].len() > 0,
        last_with(handles(f.nodes), sel[j]) is Some,
        0 <= i < f.nodes.len(),
        !f.nodes[i].is_dir,
        is_under(f, i, last_with(handles(f.nodes), sel[j])->Some_0),
    ensures
        is_planned(f, planned_files(f, sel), i),
{
    let hs = handles(f.nodes);
    let n = last_with(hs, sel[j])->Some_0;
    let up = tree_parents(f);
    let len = f.nodes.len();
    lemma_last_with(hs, sel[j]);
    lemma_found(sel, hs, sel.len() as int, j);
    let picked = found(sel, hs, sel.len() as int);
    let list = by_path(f, picked);
    lemma_by_path(f, picked, n);
    assert(climbs(up, f.root, n, len));
    let m = lemma_topmost(f, list, n, len);
    lemma_uncovered(f, list, list.len() as int, m);
    assert(list.take(list.len() as int) =~= list);
    let chosen = chosen_nodes(f, sel);
    let c = choose|c: int| 0 <= c < chosen.len() && chosen[c] == m;
    lemma_above_above(up, i, n, m, len, len);
    assert(climbs(up, f.root, i, len));
    lemma_above_within(up, f.root, i, m, len + len, len);
    assert(is_under(f, i, chosen[c]));
    law_plan_is_what_was_chosen(f, sel);
}

/// What is planned for a folder stays below the destination: the local path
/// is that of the destination, a slash where one is missing, and then names.
pub proof fn law_planned_paths_stay_below(job: FileJob, f: FolderModel, dest: Seq<char>, i: int)
    requires
        is_pathed(f),
        0 <= i < f.nodes.len(),
        is_node_job(job, f, dest, i),
    ensures
        ({
            let rel = path_from_root(f, i);
            &&& job.local_path@ == (if dest.len() == 0 || dest.last() == '/' {
                dest + rel
            } else {
                dest.push('/') + rel
            })
            &&& forall|k: int| 0 <= k < split_on(rel, '/').len() ==> is_name(#[trigger] split_on(rel, '/')[k])
        }),
{
    let rel = path_from_root(f, i);
    law_paths_are_made_of_names(f, i);
    lemma_first_piece(rel, '/');
    assert(is_name(split_on(rel, '/')[0]));
    if rel.len() > 0 && rel[0] == '/' {
        lemma_first_at(rel, '/');
        assert(split_on(rel, '/')[0] =~= Seq::empty());
    }
}

/// Planning what was chosen from an open folder never fails: no file in it
/// has a key to complain about.
pub proof fn law_open_folder_is_planned(
    raws: Seq<Option<RawModel>>,
    key: Seq<char>,
    specific: Option<Seq<char>>,
    sel: Seq<Seq<char>>,
    message: Seq<char>,
)
    ensures
        opened(raws, key, specific) matches Ok(f) ==> !is_key_complaint(f, planned_files(f, sel), message),
{
    if let Ok(f) = opened(raws, key, specific) {
        law_open_folder_has_keys(raws, key, specific);
        law_plan_is_what_was_chosen(f, sel);
        let files = planned_files(f, sel);
        assert forall|k: int| !#[trigger] is_first_bad_key(f, files, k) by {
            if 0 <= k < files.len() {
                assert(f.nodes[files[k]].key.len() == 32);
            }
        }
    }
}

/// A node that is found has one of the chosen handles.
pub proof fn lemma_found_has_handle(sel: Seq<Seq<char>>, hs: Seq<Seq<char>>, k: int, n: int)
    requires
        0 <= k <= sel.len(),
        found(sel, hs, k).contains(n),
    ensures
        0 <= n < hs.len(),
        sel.contains(hs[n]),
    decreases k,
{
    if k > 0 {
        let before = found(sel, hs, k - 1);
        let all = found(sel, hs, k);
        let a = choose|a: int| 0 <= a < all.len() && all[a] == n;
        if a < before.len() {
            assert(before[a] == n);
            lemma_found_has_handle(sel, hs, k - 1, n);
        } else {
            lemma_last_with(hs, sel[k - 1]);
            assert(sel[k - 1] == hs[n]);
        }
    }
}

// ---------------------------------------------------------------------------
// Laws on how a selection is written
// ---------------------------------------------------------------------------

/// A selection names node `n`. An empty one names the root.
pub open spec fn picks(f: FolderModel, sel: Seq<Seq<char>>, n: int) -> bool {
    if sel.len() == 0 {
        n == f.root
    } else {
        exists|j: int|
            0 <= j < sel.len() && sel[j].len() > 0 && last_with(handles(f.nodes), #[trigger] sel[j]) == Some(n)
    }
}

/// Node `i` is one that a selection names, or lies below one.
pub open spec fn covers(f: FolderModel, sel: Seq<Seq<char>>, i: int) -> bool {
    exists|n: int| #[trigger] picks(f, sel, n) && is_under(f, i, n)
}

/// A selection names node `n`, and no other node above it.
pub open spec fn is_topmost(f: FolderModel, sel: Seq<Seq<char>>, n: int) -> bool {
    &&& picks(f, sel, n)
    &&& forall|m: int| #[trigger] picks(f, sel, m) && is_under(f, n, m) ==> m == n
}

/// The numbers grow.
pub open spec fn is_increasing(s: Seq<int>) -> bool {
    forall|a: int, b: int| 0 <= a < b < s.len() ==> #[trigger] s[a] < #[trigger] s[b]
}

/// What grows is known by what it holds.
proof fn lemma_increasing_same(s: Seq<int>, t: Seq<int>)
    requires
        is_increasing(s),
        is_increasing(t),
        forall|x: int| s.contains(x) <==> t.contains(x),
    ensures
        s == t,
    decreases s.len(),
{
    if s.len() == 0 {
        if t.len() > 0 {
            assert(t.contains(t[0]));
            assert(s.contains(t[0]));
        }
        assert(s =~= t);
    } else {
        assert(s.contains(s.last()));
        assert(t.contains(s.last()));
        let j = choose|j: int| 0 <= j < t.len() && t[j] == s.last();
        assert(t.contains(t.last()));
        let k = choose|k: int| 0 <= k < s.len() && s[k] == t.last();
        assert(s.last() == t.last()) by {
            if j < t.len() - 1 {
                assert(t[j] < t[t.len() - 1]);
            }
            if k < s.len() - 1 {
                assert(s[k] < s[s.len() - 1]);
            }
        }
        let a = s.drop_last();
        let b = t.drop_last();
        assert forall|x: int| a.contains(x) <==> b.contains(x) by {
            lemma_without_last(s, x);
            lemma_without_last(t, x);
        }
        lemma_increasing_same(a, b);
        assert(s =~= a.push(s.last()));
        assert(t =~= b.push(t.last()));
    }
}

proof fn lemma_without_last(s: Seq<int>, x: int)
    requires
        s.len() > 0,
        is_increasing(s),
    ensures
        s.drop_last().contains(x) <==> s.contains(x) && x != s.last(),
{
    let a = s.drop_last();
    if a.contains(x) {
        let i = choose|i: int| 0 <= i < a.len() && a[i] == x;
        assert(s[i] == x);
        assert(s[i] < s[s.len() - 1]);
    }
    if s.contains(x) && x != s.last() {
        let i = choose|i: int| 0 <= i < s.len() && s[i] == x;
        assert(a[i] == x);
    }
}

/// What is found is what is named.
proof fn lemma_found_is_picked(f: FolderModel, sel: Seq<Seq<char>>, k: int, n: int)
    requires
        0 <= k <= sel.len(),
        found(sel, handles(f.nodes), k).contains(n),
    ensures
        exists|j: int|
            0 <= j < k && sel[j].len() > 0 && last_with(handles(f.nodes), #[trigger] sel[j]) == Some(n),
    decreases k,
{
    let hs = handles(f.nodes);
    if k > 0 {
        let before = found(sel, hs, k - 1);
        let all = found(sel, hs, k);
        let a = choose|a: int| 0 <= a < all.len() && all[a] == n;
        if a < before.len() {
            assert(before[a] == n);
            lemma_found_is_picked(f, sel, k - 1, n);
        } else {
            assert(last_with(hs, sel[k - 1]) == Some(n));
        }
    }
}

/// Nothing is found twice.
proof fn lemma_found_once(f: FolderModel, sel: Seq<Seq<char>>, k: int, a: int, b: int)
    requires
        0 <= k <= sel.len(),
        0 <= a < b < found(sel, handles(f.nodes), k).len(),
    ensures
        found(sel, handles(f.nodes), k)[a] != found(sel, handles(f.nodes), k)[b],
    decreases k,
{
    let hs = handles(f.nodes);
    let before = found(sel, hs, k - 1);
    let all = found(sel, hs, k);
    if b < before.len() {
        lemma_found_once(f, sel, k - 1, a, b);
    } else {
        let n = all[a];
        assert(before[a] == n);
        assert(before.contains(n));
        lemma_found_is_picked(f, sel, k - 1, n);
        let j = choose|j: int| 0 <= j < k - 1 && sel[j].len() > 0 && last_with(hs, #[trigger] sel[j]) == Some(n);
        lemma_last_with(hs, sel[j]);
        lemma_last_with(hs, sel[k - 1]);
        if all[b] == n {
            assert(sel[j] == sel[k - 1]);
            assert(sel.take(k - 1)[j] == sel[k - 1]);
            assert(sel.take(k - 1).contains(sel[k - 1]));
        }
    }
}

/// A node that leads to the root is not its own parent.
proof fn lemma_not_own_parent(up: Seq<Option<int>>, root: int, n: int, depth: nat)
    requires
        climbs(up, root, n, depth),
        n != root,
    ensures
        up[n] != Some(n),
    decreases depth,
{
    if up[n] == Some(n) {
        lemma_not_own_parent(up, root, n, (depth - 1) as nat);
    }
}

/// Two nodes that lie at or above each other are one.
proof fn lemma_no_cycle(up: Seq<Option<int>>, root: int, n: int, a: int, s: nat, t: nat, depth: nat)
    requires
        climbs(up, root, n, depth),
        up[root] is None,
        at_or_above(up, n, a, s),
        at_or_above(up, a, n, t),
    ensures
        n == a,
    decreases depth,
{
    if n != a {
        lemma_above_within(up, root, n, a, s, depth);
        lemma_above_within(up, root, a, n, t, (depth - 1) as nat);
        lemma_no_cycle(up, root, n, a, s, t, (depth - 2) as nat);
    }
}

proof fn lemma_above_is_listed(up: Seq<Option<int>>, list: Seq<int>, i: int, a: int, s: nat, t: nat)
    requires
        at_or_above(up, i, a, s),
        list.contains(a),
        s <= t,
    ensures
        listed_above(up, list, i, t),
    decreases s,
{
    if i != a {
        lemma_above_is_listed(up, list, up[i]->Some_0, a, (s - 1) as nat, (t - 1) as nat);
    }
}

/// Lying below goes on.
proof fn lemma_under_under(f: FolderModel, i: int, m: int, n: int)
    requires
        is_rooted(f),
        0 <= i < f.nodes.len(),
        is_under(f, i, m),
        is_under(f, m, n),
    ensures
        is_under(f, i, n),
{
    let up = tree_parents(f);
    let len = f.nodes.len();
    lemma_above_above(up, i, m, n, len, len);
    assert(climbs(up, f.root, i, len));
    lemma_above_within(up, f.root, i, n, len + len, len);
}

/// Two nodes below each other are one.
proof fn lemma_under_both(f: FolderModel, m: int, n: int)
    requires
        is_rooted(f),
        0 <= m < f.nodes.len(),
        is_under(f, m, n),
        is_under(f, n, m),
    ensures
        m == n,
{
    let up = tree_parents(f);
    let len = f.nodes.len();
    assert(climbs(up, f.root, m, len));
    lemma_no_cycle(up, f.root, m, n, len, len, len);
}

/// A node above `n` is in a list exactly if `n` lies below another node of
/// the list.
proof fn lemma_covered(f: FolderModel, list: Seq<int>, n: int)
    requires
        is_rooted(f),
        0 <= n < f.nodes.len(),
    ensures
        is_covered(f, list, n) <==> exists|m: int| #[trigger] list.contains(m) && is_under(f, n, m) && m != n,
{
    let up = tree_parents(f);
    let len = f.nodes.len();
    assert(node_parents(f.nodes) =~= up);
    assert(climbs(up, f.root, n, len));
    assert(up[n] == f.nodes[n].parent);
    if is_covered(f, list, n) {
        let p = f.nodes[n].parent->Some_0;
        assert(n != f.root);
        let m = lemma_listed_above(up, list, p, len);
        assert(at_or_above(up, n, m, len + 1));
        lemma_above_within(up, f.root, n, m, len + 1, len);
        if m == n {
            assert(at_or_above(up, n, p, 1)) by {
                assert(at_or_above(up, p, p, 0));
            }
            lemma_no_cycle(up, f.root, n, p, 1, len, len);
            lemma_not_own_parent(up, f.root, n, len);
        }
    }
    if exists|m: int| #[trigger] list.contains(m) && is_under(f, n, m) && m != n {
        let m = choose|m: int| #[trigger] list.contains(m) && is_under(f, n, m) && m != n;
        let p = up[n]->Some_0;
        lemma_above_is_listed(up, list, p, m, (len - 1) as nat, len);
    }
}

proof fn lemma_picks_in_range(f: FolderModel, sel: Seq<Seq<char>>, n: int)
    requires
        is_rooted(f),
        picks(f, sel, n),
    ensures
        0 <= n < f.nodes.len(),
{
    if sel.len() > 0 {
        let hs = handles(f.nodes);
        let j = choose|j: int| 0 <= j < sel.len() && sel[j].len() > 0 && last_with(hs, #[trigger] sel[j]) == Some(n);
        lemma_last_with(hs, sel[j]);
    }
}

/// What a selection comes to are the nodes that it names, without those
/// below another.
proof fn lemma_chosen_is_topmost(f: FolderModel, sel: Seq<Seq<char>>, n: int)
    requires
        is_rooted(f),
    ensures
        chosen_nodes(f, sel).contains(n) <==> is_topmost(f, sel, n),
{
    if sel.len() == 0 {
        assert(seq![f.root][0] == f.root);
    } else {
        let hs = handles(f.nodes);
        let len = sel.len() as int;
        let all = found(sel, hs, len);
        let list = by_path(f, all);
        assert forall|m: int| list.contains(m) <==> #[trigger] picks(f, sel, m) by {
            lemma_by_path(f, all, m);
            if all.contains(m) {
                lemma_found_is_picked(f, sel, len, m);
            }
            if picks(f, sel, m) {
                let j = choose|j: int| 0 <= j < len && sel[j].len() > 0 && last_with(hs, #[trigger] sel[j]) == Some(m);
                lemma_found(sel, hs, len, j);
            }
        }
        lemma_uncovered(f, list, list.len() as int, n);
        assert(list.take(list.len() as int) =~= list);
        assert(list.contains(n) <==> picks(f, sel, n));
        if picks(f, sel, n) {
            lemma_picks_in_range(f, sel, n);
            lemma_covered(f, list, n);
            if is_covered(f, list, n) {
                let m = choose|m: int| #[trigger] list.contains(m) && is_under(f, n, m) && m != n;
                assert(picks(f, sel, m));
            }
            if !is_topmost(f, sel, n) {
                let m = choose|m: int| #[trigger] picks(f, sel, m) && is_under(f, n, m) && m != n;
                assert(list.contains(m));
            }
        }
    }
}

/// A selection that covers as much has the same topmost nodes.
proof fn lemma_same_topmost(f: FolderModel, s: Seq<Seq<char>>, t: Seq<Seq<char>>, n: int)
    requires
        is_rooted(f),
        forall|i: int| 0 <= i < f.nodes.len() ==> (#[trigger] covers(f, s, i) <==> covers(f, t, i)),
        is_topmost(f, s, n),
    ensures
        is_topmost(f, t, n),
{
    lemma_picks_in_range(f, s, n);
    assert(is_under(f, n, n));
    assert(covers(f, s, n));
    let m = choose|m: int| #[trigger] picks(f, t, m) && is_under(f, n, m);
    lemma_named_above(f, s, t, n, m);
    assert forall|x: int| #[trigger] picks(f, t, x) && is_under(f, n, x) implies x == n by {
        lemma_named_above(f, s, t, n, x);
    }
}

/// Of a selection that covers no more, nothing lies above a topmost node.
proof fn lemma_named_above(f: FolderModel, s: Seq<Seq<char>>, t: Seq<Seq<char>>, n: int, m: int)
    requires
        is_rooted(f),
        forall|i: int| 0 <= i < f.nodes.len() ==> (#[trigger] covers(f, s, i) <==> covers(f, t, i)),
        is_topmost(f, s, n),
        picks(f, t, m),
        is_under(f, n, m),
    ensures
        m == n,
{
    lemma_picks_in_range(f, s, n);
    lemma_picks_in_range(f, t, m);
    assert(is_under(f, m, m));
    assert(covers(f, t, m));
    assert(covers(f, s, m));
    let x = choose|x: int| #[trigger] picks(f, s, x) && is_under(f, m, x);
    lemma_under_under(f, n, m, x);
    lemma_under_both(f, m, n);
}

proof fn lemma_uncovered_increases(f: FolderModel, list: Seq<int>, k: int)
    requires
        0 <= k <= list.len(),
        is_increasing(list),
    ensures
        is_increasing(uncovered(f, list, k)),
        forall|a: int| 0 <= a < uncovered(f, list, k).len() ==> k > 0 && #[trigger] uncovered(f, list, k)[a] <= list[k - 1],
    decreases k,
{
    if k > 0 {
        lemma_uncovered_increases(f, list, k - 1);
        let before = uncovered(f, list, k - 1);
        assert forall|a: int| 0 <= a < before.len() implies #[trigger] before[a] < list[k - 1] by {
            assert(list[k - 2] < list[k - 1]);
        }
    }
}

/// What a selection comes to is in listing order.
proof fn lemma_chosen_increases(f: FolderModel, sel: Seq<Seq<char>>)
    requires
        is_rooted(f),
        is_unambiguous(f),
    ensures
        is_increasing(chosen_nodes(f, sel)),
{
    if sel.len() > 0 {
        let hs = handles(f.nodes);
        let all = found(sel, hs, sel.len() as int);
        let keys = path_keys(f, all);
        let list = by_path(f, all);
        law_ranking(keys);
        let r = ranking(keys);
        lemma_ranking_is_permutation(keys, r);
        assert forall|a: int| 0 <= a < all.len() implies 0 <= #[trigger] all[a] < f.nodes.len() by {
            assert(all.contains(all[a]));
            lemma_found_has_handle(sel, hs, sel.len() as int, all[a]);
        }
        assert forall|a: int, b: int| 0 <= a < b < list.len() implies #[trigger] list[a] < #[trigger] list[b] by {
            let x = r[a];
            let y = r[b];
            assert(x != y);
            assert(sorts_before(keys, x, y));
            assert(keys[x] == node_sort_key(f, all[x]));
            assert(keys[y] == node_sort_key(f, all[y]));
            if x < y {
                lemma_found_once(f, sel, sel.len() as int, x, y);
            } else {
                lemma_found_once(f, sel, sel.len() as int, y, x);
            }
            if keys[x] == keys[y] {
                if all[x] < all[y] {
                    lemma_strictly_sorted(f, all[x], all[y]);
                } else {
                    lemma_strictly_sorted(f, all[y], all[x]);
                }
                lemma_bytes_irreflexive(keys[x]);
            }
            lemma_sorted_position(f, all[x], all[y]);
        }
        lemma_uncovered_increases(f, list, list.len() as int);
    }
}

/// How a selection is written does not matter: two that cover the same nodes
/// have the same plan, file by file and in the same order.
pub proof fn law_selection_order_does_not_matter(f: FolderModel, s: Seq<Seq<char>>, t: Seq<Seq<char>>)
    requires
        is_rooted(f),
        is_unambiguous(f),
        forall|i: int| 0 <= i < f.nodes.len() ==> (#[trigger] covers(f, s, i) <==> covers(f, t, i)),
    ensures
        planned_files(f, s) == planned_files(f, t),
{
    lemma_chosen_increases(f, s);
    lemma_chosen_increases(f, t);
    let a = chosen_nodes(f, s);
    let b = chosen_nodes(f, t);
    assert forall|x: int| a.contains(x) <==> b.contains(x) by {
        lemma_chosen_is_topmost(f, s, x);
        lemma_chosen_is_topmost(f, t, x);
        if is_topmost(f, s, x) {
            lemma_same_topmost(f, s, t, x);
        }
        if is_topmost(f, t, x) {
            assert forall|i: int| 0 <= i < f.nodes.len() implies (#[trigger] covers(f, t, i) <==> covers(f, s, i)) by {
                assert(covers(f, s, i) <==> covers(f, t, i));
            }
            lemma_same_topmost(f, t, s, x);
        }
    }
    lemma_increasing_same(a, b);
}

proof fn lemma_same_picks(f: FolderModel, s: Seq<Seq<char>>, t: Seq<Seq<char>>, n: int)
    requires
        s.len() > 0,
        t.len() > 0,
        forall|h: Seq<char>| h.len() > 0 && #[trigger] s.contains(h) ==> t.contains(h),
        picks(f, s, n),
    ensures
        picks(f, t, n),
{
    let hs = handles(f.nodes);
    let j = choose|j: int| 0 <= j < s.len() && s[j].len() > 0 && last_with(hs, #[trigger] s[j]) == Some(n);
    assert(s.contains(s[j]));
    let k = choose|k: int| 0 <= k < t.len() && t[k] == s[j];
    assert(last_with(hs, t[k]) == Some(n));
}

/// The order of the handles and their repeats do not matter: the same
/// handles have the same plan.
pub proof fn law_same_handles_same_plan(f: FolderModel, s: Seq<Seq<char>>, t: Seq<Seq<char>>)
    requires
        is_rooted(f),
        is_unambiguous(f),
        s.len() > 0,
        t.len() > 0,
        forall|h: Seq<char>| h.len() > 0 ==> (#[trigger] s.contains(h) <==> t.contains(h)),
    ensures
        planned_files(f, s) == planned_files(f, t),
{
    assert forall|h: Seq<char>| h.len() > 0 && #[trigger] t.contains(h) implies s.contains(h) by {
        assert(s.contains(h) <==> t.contains(h));
    }
    assert forall|i: int| 0 <= i < f.nodes.len() implies (#[trigger] covers(f, s, i) <==> covers(f, t, i)) by {
        if covers(f, s, i) {
            let n = choose|n: int| #[trigger] picks(f, s, n) && is_under(f, i, n);
            lemma_same_picks(f, s, t, n);
        }
        if covers(f, t, i) {
            let n = choose|n: int| #[trigger] picks(f, t, n) && is_under(f, i, n);
            lemma_same_picks(f, t, s, n);
        }
    }
    law_selection_order_does_not_matter(f, s, t);
}

/// A handle adds nothing to a selection if its node lies below one that was
/// chosen already.
pub proof fn law_handles_below_add_nothing(f: FolderModel, s: Seq<Seq<char>>, m: int, h: Seq<char>)
    requires
        is_rooted(f),
        is_unambiguous(f),
        s.len() > 0,
        picks(f, s, m),
        last_with(handles(f.nodes), h) matches Some(n) && is_under(f, n, m),
    ensures
        planned_files(f, s.push(h)) == planned_files(f, s),
{
    let hs = handles(f.nodes);
    let t = s.push(h);
    assert forall|i: int| 0 <= i < f.nodes.len() implies (#[trigger] covers(f, t, i) <==> covers(f, s, i)) by {
        if covers(f, s, i) {
            let x = choose|x: int| #[trigger] picks(f, s, x) && is_under(f, i, x);
            assert forall|g: Seq<char>| g.len() > 0 && #[trigger] s.contains(g) implies t.contains(g) by {
                let k = choose|k: int| 0 <= k < s.len() && s[k] == g;
                assert(t[k] == g);
            }
            lemma_same_picks(f, s, t, x);
        }
        if covers(f, t, i) {
            let x = choose|x: int| #[trigger] picks(f, t, x) && is_under(f, i, x);
            let j = choose|j: int| 0 <= j < t.len() && t[j].len() > 0 && last_with(hs, #[trigger] t[j]) == Some(x);
            if j < s.len() {
                assert(last_with(hs, s[j]) == Some(x));
                assert(picks(f, s, x));
            } else {
                lemma_under_under(f, i, x, m);
            }
        }
    }
    law_selection_order_does_not_matter(f, t, s);
}

/// Choosing the root is choosing the whole link, where no other node has its
/// handle.
pub proof fn law_root_is_the_whole_link(f: FolderModel)
    requires
        is_rooted(f),
        is_unambiguous(f),
        f.nodes[f.root].handle.len() > 0,
        forall|i: int|
            0 <= i < f.nodes.len() && i != f.root ==> (#[trigger] f.nodes[i]).handle != f.nodes[f.root].handle,
    ensures
        planned_files(f, seq![f.nodes[f.root].handle]) == planned_files(f, Seq::empty()),
{
    let hs = handles(f.nodes);
    let h = f.nodes[f.root].handle;
    let s = seq![h];
    assert(hs[f.root] == h);
    lemma_last_with_found(hs, f.root);
    lemma_last_with(hs, h);
    let n = last_with(hs, h)->Some_0;
    assert(f.nodes[n].handle == h);
    assert(last_with(hs, h) == Some(f.root));
    assert forall|x: int| #[trigger] picks(f, s, x) <==> picks(f, Seq::empty(), x) by {
        assert(s[0] == h);
        assert(last_with(hs, s[0]) == Some(f.root));
    }
    assert forall|i: int| 0 <= i < f.nodes.len() implies (#[trigger] covers(f, s, i) <==> covers(
        f,
        Seq::empty(),
        i,
    )) by {
        if covers(f, s, i) {
            let x = choose|x: int| #[trigger] picks(f, s, x) && is_under(f, i, x);
            assert(picks(f, Seq::empty(), x));
        }
        if covers(f, Seq::empty(), i) {
            let x = choose|x: int| #[trigger] picks(f, Seq::empty(), x) && is_under(f, i, x);
            assert(picks(f, s, x));
        }
    }
    law_selection_order_does_not_matter(f, s, Seq::empty());
}

/// What has something below it is a directory.
pub proof fn lemma_above_is_directory(f: FolderModel, i: int, m: int, steps: nat)
    requires
        is_rooted(f),
        parents_are_dirs(f),
        0 <= i < f.nodes.len(),
        at_or_above(tree_parents(f), i, m, steps),
        i != m,
    ensures
        f.nodes[m].is_dir,
    decreases steps,
{
    let up = tree_parents(f);
    assert(up[i] == f.nodes[i].parent);
    let p = f.nodes[i].parent->Some_0;
    assert(f.nodes[p].is_dir);
    assert(0 <= p < up.len());
    if p != m {
        lemma_above_is_directory(f, p, m, (steps - 1) as nat);
    }
}

/// Subtrees of which none lies in the other stand one after the other.
proof fn lemma_subtrees_in_order(f: FolderModel, m: int, n: int, x: int, y: int)
    requires
        is_rooted(f),
        is_plain(f),
        0 <= m < n < f.nodes.len(),
        0 <= x < f.nodes.len(),
        0 <= y < f.nodes.len(),
        !is_under(f, n, m),
        is_under(f, x, m),
        is_under(f, y, n),
    ensures
        x < y,
{
    let len = f.nodes.len();
    if x != m {
        lemma_above_is_directory(f, x, m, len);
        law_subtrees_are_runs(f, m, x);
        law_subtrees_are_runs(f, m, n);
    }
    assert(x < n);
    if y != n {
        lemma_above_is_directory(f, y, n, len);
        law_subtrees_are_runs(f, n, y);
    }
}

proof fn lemma_files_increase(f: FolderModel, chosen: Seq<int>, k: int)
    requires
        is_rooted(f),
        is_plain(f),
        0 <= k <= chosen.len(),
        is_increasing(chosen),
        forall|c: int| 0 <= c < chosen.len() ==> 0 <= #[trigger] chosen[c] < f.nodes.len(),
        forall|c: int, d: int|
            0 <= c < d < chosen.len() ==> !is_under(f, #[trigger] chosen[d], #[trigger] chosen[c]),
    ensures
        is_increasing(files_of(f, chosen, k)),
    decreases k,
{
    if k > 0 {
        lemma_files_increase(f, chosen, k - 1);
        let before = files_of(f, chosen, k - 1);
        let n = chosen[k - 1];
        let below = files_below(f, n, f.nodes.len() as int);
        law_files_below(f, n, f.nodes.len() as int);
        let all = files_of(f, chosen, k);
        assert(all =~= before + below);
        assert forall|a: int, b: int| 0 <= a < b < all.len() implies #[trigger] all[a] < #[trigger] all[b] by {
            if a < before.len() && b >= before.len() {
                let x = before[a];
                let y = below[b - before.len()];
                assert(before.contains(x));
                assert(below.contains(y));
                assert(!f.nodes[y].is_dir);
                let c = lemma_file_of(f, chosen, k - 1, x);
                assert(chosen[c] < chosen[k - 1]);
                lemma_subtrees_in_order(f, chosen[c], n, x, y);
            }
        }
    }
}

/// A file of the subtrees lies in one of them.
proof fn lemma_file_of(f: FolderModel, chosen: Seq<int>, k: int, x: int) -> (c: int)
    requires
        0 <= k <= chosen.len(),
        files_of(f, chosen, k).contains(x),
    ensures
        0 <= c < k,
        0 <= x < f.nodes.len(),
        is_under(f, x, chosen[c]),
    decreases k,
{
    if k > 0 {
        let before = files_of(f, chosen, k - 1);
        let below = files_below(f, chosen[k - 1], f.nodes.len() as int);
        let all = files_of(f, chosen, k);
        law_files_below(f, chosen[k - 1], f.nodes.len() as int);
        assert(all =~= before + below);
        let a = choose|a: int| 0 <= a < all.len() && all[a] == x;
        if a < before.len() {
            assert(before[a] == x);
            lemma_file_of(f, chosen, k - 1, x)
        } else {
            assert(below[a - before.len()] == x);
            assert(below.contains(x));
            assert(!f.nodes[x].is_dir);
            k - 1
        }
    } else {
        0
    }
}

proof fn lemma_repeats_increase(f: FolderModel, list: Seq<int>, k: int)
    requires
        0 <= k <= list.len(),
        is_increasing(list),
    ensures
        is_increasing(without_repeats(f, list, k)),
        forall|a: int|
            0 <= a < without_repeats(f, list, k).len() ==> k > 0 && #[trigger] without_repeats(f, list, k)[a] <= list[k
                - 1],
    decreases k,
{
    if k > 0 {
        lemma_repeats_increase(f, list, k - 1);
        let before = without_repeats(f, list, k - 1);
        assert forall|a: int| 0 <= a < before.len() implies #[trigger] before[a] < list[k - 1] by {
            assert(list[k - 2] < list[k - 1]);
        }
    }
}

/// Files are planned in the order of the listing, however they were chosen.
pub proof fn law_plan_is_in_listing_order(f: FolderModel, sel: Seq<Seq<char>>)
    requires
        is_rooted(f),
        is_plain(f),
    ensures
        is_increasing(planned_files(f, sel)),
{
    let chosen = chosen_nodes(f, sel);
    lemma_chosen_increases(f, sel);
    assert forall|c: int| 0 <= c < chosen.len() implies 0 <= #[trigger] chosen[c] < f.nodes.len() by {
        assert(chosen.contains(chosen[c]));
        lemma_chosen_is_topmost(f, sel, chosen[c]);
        lemma_picks_in_range(f, sel, chosen[c]);
    }
    assert forall|c: int, d: int| 0 <= c < d < chosen.len() implies !is_under(
        f,
        #[trigger] chosen[d],
        #[trigger] chosen[c],
    ) by {
        assert(chosen.contains(chosen[c]) && chosen.contains(chosen[d]));
        lemma_chosen_is_topmost(f, sel, chosen[c]);
        lemma_chosen_is_topmost(f, sel, chosen[d]);
        assert(chosen[c] < chosen[d]);
    }
    lemma_files_increase(f, chosen, chosen.len() as int);
    let list = files_of(f, chosen, chosen.len() as int);
    lemma_repeats_increase(f, list, list.len() as int);
}

// ---------------------------------------------------------------------------
// Laws on what is listed and fetched
// ---------------------------------------------------------------------------

/// What the listing shows of a file is what the plan fetches: the same size,
/// path and handle, of the same node.
pub proof fn law_listing_agrees_with_plan(f: FolderModel, dest: Seq<char>, i: int, job: FileJob)
    requires
        0 <= i < f.nodes.len(),
        is_node_job(job, f, dest, i),
    ensures
        folder_entries(f).len() == f.nodes.len(),
        folder_entries(f)[i].size == job.size,
        folder_entries(f)[i].path == job.remote_path@,
        folder_entries(f)[i].handle == job.handle@,
        folder_entries(f)[i].index == i + 1,
        job.source matches UrlSource::Node { handle } && handle@ == folder_entries(f)[i].handle,
{
}

/// An entry of the listing shows what entry `e` of the server's listing
/// says: its handle, its size and its type.
pub open spec fn shows(raws: Seq<Option<RawModel>>, e: int, entry: EntryModel) -> bool {
    0 <= e < raws.len() && (raws[e] matches Some(r) && entry.handle == r.h && entry.size == r.s && (entry.is_dir
        <==> r.t == 1) && (!entry.is_dir <==> r.t == 0))
}

/// Every entry shown for a folder is one that the server listed, with the
/// size and type that the server gave. Entries are numbered from one on.
pub proof fn law_listing_shows_the_servers(
    raws: Seq<Option<RawModel>>,
    key: Seq<char>,
    specific: Option<Seq<char>>,
    i: int,
)
    ensures
        opened(raws, key, specific) matches Ok(f) && 0 <= i < folder_entries(f).len() ==> folder_entries(
            opened(raws, key, specific)->Ok_0,
        )[i].index == i + 1 && exists|e: int| #[trigger]
            shows(raws, e, folder_entries(opened(raws, key, specific)->Ok_0)[i]),
{
    if let Ok(f) = opened(raws, key, specific) {
        if 0 <= i < f.nodes.len() {
            law_open_folder_comes_from_listing(raws, key, specific, i);
            let e = choose|e: int| #[trigger] comes_from(raws, b64_decoded(key)->Ok_0, e, f.nodes[i]);
            assert(shows(raws, e, folder_entries(f)[i]));
        }
    }
}

/// `job` fetches entry `e` of the server's listing: the node with its handle
/// and size. The file key is the first half of the node's key XORed with the
/// second; the second half holds the nonce and the MAC.
pub open spec fn fetches(raws: Seq<Option<RawModel>>, master: Seq<u8>, e: int, job: FileJob) -> bool {
    &&& 0 <= e < raws.len()
    &&& raws[e] matches Some(r) && {
        &&& job.size == r.s && job.handle@ == r.h
        &&& job.source matches UrlSource::Node { handle } && handle@ == r.h
        &&& key_of(r, keys_after(raws, master, e + 1)) matches Some(k) && {
            &&& k.len() == 32
            &&& forall|j: int| 0 <= j < 16 ==> #[trigger] job.key.aes@[j] == k[j] ^ k[j + 16]
            &&& forall|j: int| 0 <= j < 8 ==> #[trigger] job.key.nonce@[j] == k[j + 16]
            &&& forall|j: int| 0 <= j < 8 ==> #[trigger] job.key.meta_mac@[j] == k[j + 24]
        }
    }
}

/// A job that is planned for a folder fetches a node that the server listed,
/// with the key that was listed for it.
pub proof fn law_jobs_fetch_what_was_listed(
    raws: Seq<Option<RawModel>>,
    key: Seq<char>,
    specific: Option<Seq<char>>,
    dest: Seq<char>,
    i: int,
    job: FileJob,
)
    ensures
        opened(raws, key, specific) matches Ok(f) && 0 <= i < f.nodes.len() && is_node_job(job, f, dest, i)
            ==> exists|e: int| #[trigger] fetches(raws, b64_decoded(key)->Ok_0, e, job),
{
    if let Ok(f) = opened(raws, key, specific) {
        if 0 <= i < f.nodes.len() && is_node_job(job, f, dest, i) {
            let master = b64_decoded(key)->Ok_0;
            law_open_folder_comes_from_listing(raws, key, specific, i);
            let e = choose|e: int| #[trigger] comes_from(raws, master, e, f.nodes[i]);
            assert(fetches(raws, master, e, job));
        }
    }
}

/// In the listing of an open folder, every entry but the root names its
/// parent by handle, and its path is that parent's, a slash and its own
/// name. The root has no parent, and a slash and its name for a path.
pub proof fn law_listing_is_a_tree(raws: Seq<Option<RawModel>>, key: Seq<char>, specific: Option<Seq<char>>, i: int)
    ensures
        opened(raws, key, specific) matches Ok(f) && 0 <= i < f.nodes.len() ==> {
            let f = opened(raws, key, specific)->Ok_0;
            let entries = folder_entries(f);
            let p = f.nodes[i].parent->Some_0;
            if i == f.root {
                entries[i].parent is None && entries[i].path == seq!['/'] + entries[i].name
            } else {
                &&& 0 <= p < entries.len()
                &&& entries[i].parent == Some(entries[p].handle)
                &&& entries[i].path == entries[p].path + seq!['/'] + entries[i].name
            }
        },
{
    if let Ok(f) = opened(raws, key, specific) {
        if 0 <= i < f.nodes.len() {
            law_open_folder_is_tree(raws, key, specific);
            law_parents_have_the_handle(raws, key, specific, i);
            if i != f.root {
                let entries = folder_entries(f);
                let p = f.nodes[i].parent->Some_0;
                assert(f.nodes[i].parent is Some);
                assert(f.nodes[i].path == f.nodes[p].path.push('/') + f.nodes[i].name);
                assert(entries[p].path + seq!['/'] + entries[i].name =~= f.nodes[p].path.push('/') + f.nodes[i].name);
            }
        }
    }
}

/// A linked file is listed as what is fetched for it: one file of that
/// name, size and handle, from the address that came with them.
pub proof fn law_link_listing_agrees_with_plan(
    job: FileJob,
    info: FileInfo,
    handle: Seq<char>,
    dest: Seq<char>,
    dest_is_dir: bool,
)
    requires
        is_link_job(job, info, handle, dest, dest_is_dir),
    ensures
        ({
            let entry = file_entry(info.name@, info.size, handle);
            &&& !entry.is_dir && entry.parent is None && entry.index == 1
            &&& entry.name == info.name@
            &&& entry.size == info.size && job.size == info.size
            &&& entry.handle == handle && job.handle@ == handle
            &&& entry.path == job.remote_path@
            &&& entry.path.len() == 1 + info.name@.len() && entry.path[0] == '/' && entry.path.skip(1) == info.name@
            &&& job.key == info.key
            &&& job.source matches UrlSource::Known { url, size } && url@ == info.url@ && size == info.size
            &&& !dest_is_dir ==> job.local_path@ == dest
            &&& dest_is_dir ==> job.local_path@ == joined(dest, info.name@)
        }),
{
    let entry = file_entry(info.name@, info.size, handle);
    assert(entry.path.skip(1) =~= info.name@);
}

/// The reply about a linked file holds the address under `g`, the size under
/// `s` and the attributes under `at`. With all three, and a name that can be
/// read and made safe, the file is known; without one of them it is not.
pub proof fn law_file_replies(
    aes: Seq<u8>,
    m: Map<Seq<char>, Json>,
    url: Seq<char>,
    at: Seq<char>,
    size: i64,
    name: Seq<char>,
    safe: Seq<char>,
)
    requires
        m.contains_pair("g"@, Json::Text(url)),
        m.contains_pair("at"@, Json::Text(at)),
        m.contains_key("s"@) && m["s"@].integer() == Some(size),
        attributes_name(aes, at) == Ok::<Seq<char>, Seq<char>>(name),
        safe_name(name) == Ok::<Seq<char>, Seq<char>>(safe),
    ensures
        url.len() > 0 && at.len() > 0 && size >= 0 ==> (info_of(aes, Json::Object(m)) matches Ok(i) && i.name == safe
            && i.size == size && i.url == url),
        url.len() == 0 || at.len() == 0 || size < 0 ==> info_of(aes, Json::Object(m)) is Err,
        info_of(aes, Json::Object(m.remove("g"@))) is Err,
        info_of(aes, Json::Object(m.remove("at"@))) is Err,
        info_of(aes, Json::Object(m.remove("s"@))) is Err,
{
    assert(Seq::<char>::empty().len() == 0);
}

/// Attributes that the key of a linked file does not open make the key
/// invalid; a name that cannot be made safe is refused as such.
pub proof fn law_file_replies_refused(aes: Seq<u8>, m: Map<Seq<char>, Json>, url: Seq<char>, at: Seq<char>, size: i64)
    requires
        m.contains_pair("g"@, Json::Text(url)),
        m.contains_pair("at"@, Json::Text(at)),
        m.contains_key("s"@) && m["s"@].integer() == Some(size),
        url.len() > 0 && at.len() > 0 && size >= 0,
    ensures
        attributes_name(aes, at) is Err ==> info_of(aes, Json::Object(m)) == Err::<InfoModel, Seq<char>>("invalid key"@),
        attributes_name(aes, at) matches Ok(name) && safe_name(name) is Err ==> info_of(aes, Json::Object(m)) == Err::<
            InfoModel,
            Seq<char>,
        >(safe_name(attributes_name(aes, at)->Ok_0)->Err_0),
{
}

/// The key in a link is read back as it was written: 32 bytes for a file and
/// 16 for a folder. A key of another length is refused.
pub proof fn law_keys_in_links(k: Seq<u8>)
    ensures
        k.len() == 32 ==> file_key_of(b64_text(k)) == Ok::<Seq<u8>, Seq<char>>(k),
        k.len() != 32 ==> file_key_of(b64_text(k)) == Err::<Seq<u8>, Seq<char>>("can't retrieve file key"@),
        k.len() == 16 ==> folder_key_of(b64_text(k)) == Ok::<Seq<u8>, Seq<char>>(k),
        k.len() != 16 ==> folder_key_of(b64_text(k)) == Err::<Seq<u8>, Seq<char>>("invalid folder key"@),
{
    law_decode_undoes_encode(k, 0);
    assert(b64_text(k) + Seq::new(0, |i: int| '=') =~= b64_text(k));
}

/// The handles that are reported as missing are those that were chosen, are
/// not empty and belong to no node. Each is reported once.
pub proof fn law_missing_handles(sel: Seq<Seq<char>>, hs: Seq<Seq<char>>, k: int)
    requires
        0 <= k <= sel.len(),
    ensures
        forall|h: Seq<char>| #[trigger]
            missing(sel, hs, k).contains(h) <==> h.len() > 0 && !hs.contains(h) && sel.take(k).contains(h),
        missing(sel, hs, k).no_duplicates(),
    decreases k,
{
    if k > 0 {
        law_missing_handles(sel, hs, k - 1);
        let before = missing(sel, hs, k - 1);
        let all = missing(sel, hs, k);
        let x = sel[k - 1];
        let lo = sel.take(k - 1);
        let hi = sel.take(k);
        lemma_last_with(hs, x);
        assert(last_with(hs, x) is None <==> !hs.contains(x)) by {
            if hs.contains(x) {
                let j = choose|j: int| 0 <= j < hs.len() && hs[j] == x;
                lemma_last_with_found(hs, j);
            }
        }
        assert(hi =~= lo.push(x));
        assert forall|h: Seq<char>| #[trigger] all.contains(h) <==> h.len() > 0 && !hs.contains(h) && hi.contains(h) by {
            assert(before.contains(h) <==> h.len() > 0 && !hs.contains(h) && lo.contains(h));
            assert(hi.contains(h) <==> lo.contains(h) || h == x) by {
                if lo.contains(h) {
                    let j = choose|j: int| 0 <= j < k - 1 && lo[j] == h;
                    assert(hi[j] == h);
                }
                if hi.contains(h) {
                    let j = choose|j: int| 0 <= j < k && hi[j] == h;
                    if j < k - 1 {
                        assert(lo[j] == h);
                    }
                }
                assert(hi[k - 1] == x);
            }
            if all != before {
                assert(all == before.push(x));
                assert(all.contains(h) <==> before.contains(h) || h == x) by {
                    if before.contains(h) {
                        let j = choose|j: int| 0 <= j < before.len() && before[j] == h;
                        assert(all[j] == h);
                    }
                    assert(all[before.len() as int] == x);
                    if all.contains(h) {
                        let j = choose|j: int| 0 <= j < all.len() && all[j] == h;
                        if j < before.len() {
                            assert(before[j] == h);
                        }
                    }
                }
            }
        }
        if all != before {
            assert(all == before.push(x));
            assert(!before.contains(x));
            assert forall|a: int, b: int| 0 <= a < b < all.len() implies all[a] != all[b] by {
                if b == before.len() {
                    assert(before.contains(before[a]));
                }
            }
        }
    } else {
        assert(sel.take(0).len() == 0);
    }
}

/// Base64 is made of the characters of keys in links.
proof fn lemma_text_is_key(data: Seq<u8>)
    ensures
        all_b64(b64_text(data)),
        all_key(b64_text(data)),
    decreases data.len(),
{
    let t = b64_text(data);
    if data.len() >= 3 {
        lemma_text_is_key(data.skip(3));
        let rest = b64_text(data.skip(3));
        assert forall|i: int| 0 <= i < t.len() implies is_b64(#[trigger] t[i]) by {
            if i >= 4 {
                assert(t[i] == rest[i - 4]);
            }
        }
    }
}

/// A link to a file, made from a handle and a node key of 32 bytes, waits for
/// that file and holds that key.
pub proof fn law_file_link_is_resolved(host: Seq<char>, handle: Seq<char>, k: Seq<u8>)
    requires
        is_host(host),
        handle.len() == 8,
        all_b64(handle),
        k.len() == 32,
    ensures
        pending_of("https://"@ + host + ("#!"@ + (handle + seq!['!'] + b64_text(k)))) == Ok::<PendingModel, Seq<char>>(
            PendingModel::File { handle, key: k },
        ),
        pending_of("https://"@ + host + ("file/"@ + (handle + seq!['#'] + b64_text(k)))) == Ok::<PendingModel, Seq<char>>(
            PendingModel::File { handle, key: k },
        ),
{
    lemma_text_is_key(k);
    law_length_of_text(k);
    law_keys_in_links(k);
    law_file_links(host, handle, b64_text(k));
}

/// A link to a folder, made from a handle and a key of 16 bytes, waits for
/// that folder and holds that key; and for a node in it where it ends in one.
pub proof fn law_folder_link_is_resolved(host: Seq<char>, handle: Seq<char>, k: Seq<u8>, node: Seq<char>)
    requires
        is_host(host),
        handle.len() == 8 && all_b64(handle),
        node.len() == 8 && all_b64(node),
        k.len() == 16,
    ensures
        ({
            let key = b64_text(k);
            let link = handle + seq!['#'] + key;
            let whole = PendingModel::Folder { folder: handle, key, specific: None };
            let part = PendingModel::Folder { folder: handle, key, specific: Some(node) };
            &&& b64_decoded(key) == Ok::<Seq<u8>, Seq<char>>(k)
            &&& pending_of("https://"@ + host + ("folder/"@ + link)) == Ok::<PendingModel, Seq<char>>(whole)
            &&& pending_of("https://"@ + host + ("folder/"@ + (link + ("/file/"@ + node)))) == Ok::<
                PendingModel,
                Seq<char>,
            >(part)
            &&& pending_of("https://"@ + host + ("folder/"@ + (link + ("/folder/"@ + node)))) == Ok::<
                PendingModel,
                Seq<char>,
            >(part)
        }),
{
    lemma_text_is_key(k);
    law_length_of_text(k);
    law_keys_in_links(k);
    law_folder_links(host, handle, b64_text(k));
    law_deep_links(host, handle, b64_text(k), node);
}

/// A text that is no link is refused, and named.
pub proof fn law_other_texts_are_refused(text: Seq<char>)
    requires
        link_of(text) is None,
    ensures
        pending_of(text) matches Err(e) && has_text(e, text),
{
    law_text_is_found("invalid mega download link: "@, text, Seq::empty());
    assert("invalid mega download link: "@ + text + Seq::<char>::empty() =~= "invalid mega download link: "@ + text);
}

/// A linked file is asked for by its handle; a folder by its nodes.
pub proof fn law_first_commands(handle: Seq<char>)
    ensures
        command_for(Some(handle)).text_field("p"@) == Some(handle),
        command_for(Some(handle)).text_field("a"@) == Some("g"@),
        command_for(None).text_field("a"@) == Some("f"@),
{
    law_transfer_commands(handle, Seq::empty());
    law_listing_command(Seq::empty());
}

/// A file is saved below the destination, at the same place at which it lies
/// below the root; a link that leads to a file saves it under its name.
pub proof fn law_local_paths(job: FileJob, f: FolderModel, dest: Seq<char>, i: int, rest: Seq<char>)
    requires
        0 <= i < f.nodes.len(),
        is_node_job(job, f, dest, i),
    ensures
        i != f.root && f.nodes[i].path == f.nodes[f.root].path + seq!['/'] + rest ==> job.local_path@ == joined(dest, rest),
        i == f.root ==> job.local_path@ == joined(dest, f.nodes[i].name),
{
    if i != f.root && f.nodes[i].path == f.nodes[f.root].path + seq!['/'] + rest {
        let top = f.nodes[f.root].path.push('/');
        let path = f.nodes[i].path;
        assert(path.take(top.len() as int) =~= top);
        assert(path.skip(top.len() as int) =~= rest);
    }
}

/// The first file whose key is of the wrong length is complained about, by
/// that length.
pub proof fn law_bad_keys_are_told(f: FolderModel, files: Seq<int>, k: int, message: Seq<char>)
    requires
        0 <= k < files.len(),
        f.nodes[files[k]].key.len() != 32,
        forall|j: int| 0 <= j < k ==> f.nodes[#[trigger] files[j]].key.len() == 32,
    ensures
        is_key_complaint(f, files, message) <==> message == key_length_error(f.nodes[files[k]].key.len()),
        has_text(key_length_error(f.nodes[files[k]].key.len()), decimal(f.nodes[files[k]].key.len())),
{
    assert(is_first_bad_key(f, files, k));
    if is_key_complaint(f, files, message) {
        let m = choose|m: int|
            #[trigger] is_first_bad_key(f, files, m) && message == key_length_error(f.nodes[files[m]].key.len());
        if m < k {
            assert(f.nodes[files[m]].key.len() == 32);
        } else if k < m {
            assert(f.nodes[files[k]].key.len() == 32);
        }
    }
    law_text_is_found("file key is "@, decimal(f.nodes[files[k]].key.len()), " bytes, want 32"@);
}

} // verus!
