//! Decryption of an exported folder's node tree.

use vstd::hash_map::StringHashMap;
use vstd::prelude::*;
use vstd::string::*;
use vstd::utf8::*;

use serde_json::Value;

use crate::base64::{b64_decoded, b64decode};
use crate::crypto::{
    attributes_name, decrypt_attrs, decrypt_ecb_b64, document_name, ecb_decrypted, folded_key,
    law_safe_name_is_component, safe_name, sanitize_name, seals, unpack_file_key, wraps,
};
use crate::json::{
    as_list, field, int_field, json_document, json_of, jsons, text_field, Json,
};
use crate::order::{
    is_ranking, key_bytes, law_ranking, lemma_prefix_before, lemma_ranking_is_permutation,
    lemma_sorts_asymmetric, positions, rank, ranking, sorts_before,
};
use crate::text::{
    begins_at, bytes_before, chars_of, find_first, first_at, has_prefix,
    law_splitting_undoes_joining, lemma_first_at, split_chars, split_on, string_range, texts,
    with_between,
};
use crate::tree::{
    at_or_above, climbs, is_at_or_above, law_reached_are_descendants, lemma_climbs_is_above,
    lemma_climbs_more, lemma_reached, lemma_reached_climbs, parents, parents_in_range, reached,
    walk_tree,
};

verus! {

// ---------------------------------------------------------------------------
// Nodes
// ---------------------------------------------------------------------------

/// A node as the server lists it.
#[derive(Debug, Clone)]
pub struct RawFNode {
    /// Handle.
    pub h: String,
    /// Handle of the parent.
    pub p: String,
    /// Encrypted attributes.
    pub a: String,
    /// Encrypted keys, as `<handle>:<key>` separated by slashes.
    pub k: String,
    /// Encrypted share key.
    pub sk: String,
    /// Type: 0 for a file, 1 for a folder.
    pub t: i64,
    /// Size.
    pub s: i64,
}

/// What a listed node says.
pub struct RawModel {
    pub h: Seq<char>,
    pub p: Seq<char>,
    pub a: Seq<char>,
    pub k: Seq<char>,
    pub sk: Seq<char>,
    pub t: i64,
    pub s: i64,
}

impl View for RawFNode {
    type V = RawModel;

    open spec fn view(&self) -> RawModel {
        RawModel { h: self.h@, p: self.p@, a: self.a@, k: self.k@, sk: self.sk@, t: self.t, s: self.s }
    }
}

/// A decrypted node.
#[derive(Debug)]
pub struct FNode {
    pub handle: String,
    pub parent_handle: String,
    pub name: String,
    pub is_dir: bool,
    pub size: i64,
    pub key: Vec<u8>,
    /// Index into the folder's nodes.
    pub parent: Option<usize>,
    pub path: String,
}

/// What a decrypted node says.
#[verifier::ext_equal]
pub struct NodeModel {
    pub handle: Seq<char>,
    pub parent_handle: Seq<char>,
    pub name: Seq<char>,
    pub is_dir: bool,
    pub size: i64,
    pub key: Seq<u8>,
    pub parent: Option<int>,
    pub path: Seq<char>,
}

impl View for FNode {
    type V = NodeModel;

    open spec fn view(&self) -> NodeModel {
        NodeModel {
            handle: self.handle@,
            parent_handle: self.parent_handle@,
            name: self.name@,
            is_dir: self.is_dir,
            size: self.size,
            key: self.key@,
            parent: match self.parent {
                Some(p) => Some(p as int),
                None => None,
            },
            path: self.path@,
        }
    }
}

/// A node of a known type with everything that decrypting it takes.
pub open spec fn is_complete(r: RawModel) -> bool {
    r.h.len() > 0 && r.a.len() > 0 && r.k.len() > 0 && (r.t == 0 || r.t == 1)
}

/// The share keys once a node was read: it may bring one of its own,
/// wrapped with the master key.
pub open spec fn keys_with(
    keys: Map<Seq<char>, Seq<u8>>,
    r: RawModel,
    master: Seq<u8>,
) -> Map<Seq<char>, Seq<u8>> {
    if is_complete(r) && r.sk.len() > 0 && encode_utf8(r.sk).len() <= 22 {
        match ecb_decrypted(master, r.sk) {
            Ok(sk) => if sk.len() == 16 {
                keys.insert(r.h, sk)
            } else {
                keys
            },
            Err(_) => keys,
        }
    } else {
        keys
    }
}

/// The share key and the wrapped key in the first of `parts`, from the
/// `i`th on, that names a share key that is known.
pub open spec fn wrapped_in(
    parts: Seq<Seq<char>>,
    i: int,
    keys: Map<Seq<char>, Seq<u8>>,
) -> Option<(Seq<u8>, Seq<char>)>
    decreases parts.len() - i,
{
    if i >= parts.len() {
        None
    } else {
        let part = parts[i];
        let colon = first_at(part, ':');
        if colon < part.len() && keys.contains_key(part.take(colon)) {
            Some((keys[part.take(colon)], part.skip(colon + 1)))
        } else {
            wrapped_in(parts, i + 1, keys)
        }
    }
}

/// The key of a node: 16 bytes for a folder, 32 for a file.
pub open spec fn key_of(r: RawModel, keys: Map<Seq<char>, Seq<u8>>) -> Option<Seq<u8>> {
    match wrapped_in(split_on(r.k, '/'), 0, keys) {
        None => None,
        Some((share, wrapped)) => if wrapped.len() == 0 || encode_utf8(wrapped).len() >= 46 {
            None
        } else {
            match ecb_decrypted(share, wrapped) {
                Ok(key) => if key.len() == if r.t == 1 {
                    16int
                } else {
                    32int
                } {
                    Some(key)
                } else {
                    None
                },
                Err(_) => None,
            }
        },
    }
}

/// The local name of a node with key `key`.
pub open spec fn name_of(r: RawModel, key: Seq<u8>) -> Option<Seq<char>> {
    match attributes_name(
        if r.t == 1 {
            key
        } else {
            folded_key(key)
        },
        r.a,
    ) {
        Ok(name) => match safe_name(name) {
            Ok(s) => Some(s),
            Err(_) => None,
        },
        Err(_) => None,
    }
}

/// The decrypted node, not yet placed in a tree, or nothing if it cannot be
/// decrypted.
pub open spec fn node_of(r: RawModel, keys: Map<Seq<char>, Seq<u8>>) -> Option<NodeModel> {
    if !is_complete(r) {
        None
    } else {
        match key_of(r, keys) {
            None => None,
            Some(key) => match name_of(r, key) {
                None => None,
                Some(name) => Some(
                    NodeModel {
                        handle: r.h,
                        parent_handle: r.p,
                        name,
                        is_dir: r.t == 1,
                        size: r.s,
                        key,
                        parent: None,
                        path: Seq::empty(),
                    },
                ),
            },
        }
    }
}

/// The contents of a map of keys.
pub open spec fn key_map(m: Map<Seq<char>, Vec<u8>>) -> Map<Seq<char>, Seq<u8>> {
    m.map_values(|k: Vec<u8>| k@)
}

fn store_key(keys: &mut StringHashMap<Vec<u8>>, handle: &str, key: Vec<u8>)
    ensures
        key_map(final(keys)@) == key_map(old(keys)@).insert(handle@, key@),
{
    let ghost before = keys@;
    keys.insert(handle.to_owned(), key);
    assert(key_map(keys@) =~= key_map(before).insert(handle@, key@));
}

/// Reads the share key that a node brings along.
fn read_share_key(rn: &RawFNode, share_keys: &mut StringHashMap<Vec<u8>>, master_key: &[u8])
    requires
        is_complete(rn@),
    ensures
        key_map(final(share_keys)@) == keys_with(key_map(old(share_keys)@), rn@, master_key@),
        forall|plain: Seq<u8>|
            master_key@.len() == 16 && plain.len() == 16 && rn.sk@.len() > 0 && encode_utf8(rn.sk@).len() <= 22
                && #[trigger] wraps(master_key@, plain, rn.sk@) ==> key_map(final(share_keys)@) == key_map(
                old(share_keys)@,
            ).insert(rn.h@, plain),
{
    let sk = rn.sk.as_str();
    if !sk.is_empty() && sk.as_bytes().len() <= 22 {
        if let Ok(key) = decrypt_ecb_b64(master_key, sk) {
            if key.len() == 16 {
                store_key(share_keys, rn.h.as_str(), key);
            }
        }
    }
}

/// `part` is a handle, a colon and a wrapped key.
pub open spec fn is_pair(part: Seq<char>, h: Seq<char>, wrapped: Seq<char>) -> bool {
    !h.contains(':') && part == h.push(':') + wrapped
}

/// `part` gives a wrapped key for a handle whose share key is known.
pub open spec fn is_known(part: Seq<char>, keys: Map<Seq<char>, Seq<u8>>) -> bool {
    exists|h: Seq<char>, wrapped: Seq<char>| #[trigger] is_pair(part, h, wrapped) && keys.contains_key(h)
}

/// `k` is made of `parts` with slashes between them, and the `j`th of them,
/// for the handle `h`, is the first one whose share key is known.
pub open spec fn decides(
    k: Seq<char>,
    keys: Map<Seq<char>, Seq<u8>>,
    parts: Seq<Seq<char>>,
    j: int,
    h: Seq<char>,
    wrapped: Seq<char>,
) -> bool {
    &&& 0 <= j < parts.len()
    &&& forall|i: int| 0 <= i < parts.len() ==> !(#[trigger] parts[i]).contains('/')
    &&& k == with_between(parts, '/')
    &&& is_pair(parts[j], h, wrapped)
    &&& keys.contains_key(h)
    &&& forall|i: int| 0 <= i < j ==> !is_known(#[trigger] parts[i], keys)
}

/// `k` brings the key `plain` along: the first of its parts whose share key
/// is known holds `plain`, encrypted with that share key, in less than 46
/// bytes of base64.
pub open spec fn carries(k: Seq<char>, keys: Map<Seq<char>, Seq<u8>>, plain: Seq<u8>) -> bool {
    exists|parts: Seq<Seq<char>>, j: int, h: Seq<char>, wrapped: Seq<char>| #[trigger]
        decides(k, keys, parts, j, h, wrapped) && keys[h].len() == 16 && wraps(keys[h], plain, wrapped)
            && wrapped.len() > 0 && encode_utf8(wrapped).len() < 46
}

/// The length of a key, by the type of its node.
pub open spec fn key_len(t: i64) -> int {
    if t == 1 {
        16
    } else {
        32
    }
}

proof fn lemma_pair(part: Seq<char>, h: Seq<char>, wrapped: Seq<char>)
    requires
        is_pair(part, h, wrapped),
    ensures
        first_at(part, ':') == h.len(),
        part.take(h.len() as int) == h,
        part.skip(h.len() as int + 1) == wrapped,
{
    lemma_first_at(part, ':');
    let i = first_at(part, ':');
    assert(part[h.len() as int] == ':');
    if i < h.len() {
        assert(h[i] == part[i]);
        assert(h.contains(h[i]));
    }
    assert(part.take(h.len() as int) =~= h);
    assert(part.skip(h.len() as int + 1) =~= wrapped);
}

proof fn lemma_not_known(part: Seq<char>, keys: Map<Seq<char>, Seq<u8>>)
    requires
        !is_known(part, keys),
    ensures
        ({
            let colon = first_at(part, ':');
            !(colon < part.len() && keys.contains_key(part.take(colon)))
        }),
{
    lemma_first_at(part, ':');
    let colon = first_at(part, ':');
    if colon < part.len() {
        let h = part.take(colon);
        assert forall|i: int| 0 <= i < h.len() implies #[trigger] h[i] != ':' by {
            assert(part[i] != ':');
        }
        assert(part =~= h.push(':') + part.skip(colon + 1));
        assert(is_pair(part, h, part.skip(colon + 1)));
    }
}

proof fn lemma_wrapped_in(
    parts: Seq<Seq<char>>,
    i: int,
    keys: Map<Seq<char>, Seq<u8>>,
    j: int,
    h: Seq<char>,
    wrapped: Seq<char>,
)
    requires
        0 <= i <= j < parts.len(),
        is_pair(parts[j], h, wrapped),
        keys.contains_key(h),
        forall|a: int| i <= a < j ==> !is_known(#[trigger] parts[a], keys),
    ensures
        wrapped_in(parts, i, keys) == Some((keys[h], wrapped)),
    decreases j - i,
{
    if i < j {
        lemma_not_known(parts[i], keys);
        lemma_wrapped_in(parts, i + 1, keys, j, h, wrapped);
    } else {
        lemma_pair(parts[j], h, wrapped);
    }
}

proof fn lemma_decides(
    k: Seq<char>,
    keys: Map<Seq<char>, Seq<u8>>,
    parts: Seq<Seq<char>>,
    j: int,
    h: Seq<char>,
    wrapped: Seq<char>,
)
    requires
        decides(k, keys, parts, j, h, wrapped),
    ensures
        wrapped_in(split_on(k, '/'), 0, keys) == Some((keys[h], wrapped)),
{
    law_splitting_undoes_joining(parts, '/');
    lemma_wrapped_in(parts, 0, keys, j, h, wrapped);
}

proof fn lemma_carries(k: Seq<char>, keys: Map<Seq<char>, Seq<u8>>, plain: Seq<u8>)
    requires
        carries(k, keys, plain),
    ensures
        wrapped_in(split_on(k, '/'), 0, keys) matches Some((share, wrapped)) && share.len() == 16 && wraps(
            share,
            plain,
            wrapped,
        ) && wrapped.len() > 0 && encode_utf8(wrapped).len() < 46,
{
    let (parts, j, h, wrapped) = choose|parts: Seq<Seq<char>>, j: int, h: Seq<char>, wrapped: Seq<char>| #[trigger]
        decides(k, keys, parts, j, h, wrapped) && keys[h].len() == 16 && wraps(keys[h], plain, wrapped)
            && wrapped.len() > 0 && encode_utf8(wrapped).len() < 46;
    lemma_decides(k, keys, parts, j, h, wrapped);
}

/// Finds the wrapped key of a node and unwraps it. A key of the right length
/// that the node brings along is what comes out.
fn unwrap_key(rn: &RawFNode, share_keys: &StringHashMap<Vec<u8>>) -> (r: Option<Vec<u8>>)
    ensures
        match r {
            Some(key) => key_of(rn@, key_map(share_keys@)) == Some(key@),
            None => key_of(rn@, key_map(share_keys@)) is None,
        },
        forall|plain: Seq<u8>| #[trigger]
            carries(rn@.k, key_map(share_keys@), plain) && plain.len() == key_len(rn.t) ==> (r matches Some(key)
                && key@ == plain),
{
    let ghost keys = key_map(share_keys@);
    proof {
        assert forall|plain: Seq<u8>| #[trigger] carries(rn@.k, keys, plain) implies (wrapped_in(
            split_on(rn@.k, '/'),
            0,
            keys,
        ) matches Some((share, wrapped)) && share.len() == 16 && wraps(share, plain, wrapped) && wrapped.len() > 0
            && encode_utf8(wrapped).len() < 46) by {
            lemma_carries(rn@.k, keys, plain);
        }
    }
    let k = chars_of(rn.k.as_str());
    let parts = split_chars(&k, '/');
    let ghost all = split_on(rn.k@, '/');
    let mut i: usize = 0;
    while i < parts.len()
        invariant
            i <= parts@.len(),
            keys == key_map(share_keys@),
            texts(parts@) == all,
            all == split_on(rn.k@, '/'),
            wrapped_in(all, 0, keys) == wrapped_in(all, i as int, keys),
            forall|plain: Seq<u8>| #[trigger]
                carries(rn@.k, keys, plain) ==> (wrapped_in(all, 0, keys) matches Some((share, wrapped)) && share.len()
                    == 16 && wraps(share, plain, wrapped) && wrapped.len() > 0 && encode_utf8(wrapped).len() < 46),
        decreases parts@.len() - i,
    {
        let part = chars_of(parts[i].as_str());
        assert(part@ == all[i as int]);
        let colon = find_first(&part, ':');
        proof {
            lemma_first_at(part@, ':');
        }
        if colon < part.len() {
            let kh = string_range(&part, 0, colon);
            assert(kh@ =~= part@.take(colon as int));
            if let Some(share) = share_keys.get(kh.as_str()) {
                let wrapped = string_range(&part, colon + 1, part.len());
                assert(wrapped@ =~= part@.skip(colon + 1));
                assert(keys[kh@] == share@);
                let size: usize = wrapped.as_str().as_bytes().len();
                if wrapped.as_str().is_empty() || size >= 46 {
                    return None;
                }
                let want: usize = if rn.t == 1 {
                    16
                } else {
                    32
                };
                return match decrypt_ecb_b64(share.as_slice(), wrapped.as_str()) {
                    Ok(key) => if key.len() == want {
                        Some(key)
                    } else {
                        None
                    },
                    Err(_) => None,
                };
            }
        }
        i += 1;
    }
    None
}

/// The key that a node's attributes are sealed with: a folder's own key, or
/// a file's with its two halves XORed.
pub open spec fn attribute_key(t: i64, key: Seq<u8>) -> Seq<u8> {
    if t == 1 {
        key
    } else {
        Seq::new(16, |i: int| key[i] ^ key[i + 16])
    }
}

/// Decrypts the name of a node with key `key`. Attributes that were sealed
/// with that key give the name that they hold.
fn read_name(rn: &RawFNode, key: &Vec<u8>) -> (r: Option<String>)
    requires
        key@.len() == if rn.t == 1 {
            16int
        } else {
            32int
        },
    ensures
        match r {
            Some(name) => name_of(rn@, key@) == Some(name@),
            None => name_of(rn@, key@) is None,
        },
        forall|doc: Seq<u8>| #[trigger]
            seals(attribute_key(rn.t, key@), doc, rn@.a) ==> (match document_name(json_document(doc)) {
                Ok(name) => match safe_name(name) {
                    Ok(s) => r matches Some(n) && n@ == s,
                    Err(_) => r is None,
                },
                Err(_) => r is None,
            }),
{
    let attr_key: [u8; 16] = if rn.t == 1 {
        let block = crate::mac::block_at(key, 0);
        assert(block@ =~= key@);
        block
    } else {
        match unpack_file_key(key) {
            Ok(k) => k.aes,
            Err(_) => return None,
        }
    };
    assert(attr_key@ =~= attribute_key(rn.t, key@));
    match decrypt_attrs(&attr_key, rn.a.as_str()) {
        Ok(name) => match sanitize_name(name.as_str()) {
            Ok(s) => Some(s),
            Err(_) => None,
        },
        Err(_) => None,
    }
}

/// Decrypts and validates one listed node. Nodes that are malformed or
/// cannot be decrypted give nothing. A complete node whose key was wrapped
/// with a known share key, and whose attributes were sealed with that key,
/// comes out under the name that was sealed.
pub fn parse_fnode(rn: &RawFNode, share_keys: &mut StringHashMap<Vec<u8>>, master_key: &[u8]) -> (r: Option<FNode>)
    ensures
        key_map(final(share_keys)@) == keys_with(key_map(old(share_keys)@), rn@, master_key@),
        match r {
            Some(n) => node_of(rn@, key_map(final(share_keys)@)) == Some(n@),
            None => node_of(rn@, key_map(final(share_keys)@)) is None,
        },
        forall|plain: Seq<u8>, doc: Seq<u8>|
            is_complete(rn@) && #[trigger] carries(rn@.k, key_map(final(share_keys)@), plain) && plain.len() == key_len(
                rn.t,
            ) && #[trigger] seals(attribute_key(rn.t, plain), doc, rn@.a) ==> (match document_name(json_document(doc)) {
                Ok(name) => match safe_name(name) {
                    Ok(s) => r matches Some(n) && n.handle@ == rn.h@ && n.parent_handle@ == rn.p@ && n.name@ == s
                        && n.is_dir == (rn.t == 1) && n.size == rn.s && n.key@ == plain,
                    Err(_) => r is None,
                },
                Err(_) => r is None,
            }),
{
    if rn.h.as_str().is_empty() || rn.a.as_str().is_empty() || rn.k.as_str().is_empty() {
        return None;
    }
    if rn.t != 0 && rn.t != 1 {
        return None;
    }
    read_share_key(rn, share_keys, master_key);
    let key = match unwrap_key(rn, share_keys) {
        Some(key) => key,
        None => return None,
    };
    let name = match read_name(rn, &key) {
        Some(name) => name,
        None => return None,
    };
    let node = FNode {
        handle: rn.h.clone(),
        parent_handle: rn.p.clone(),
        name,
        is_dir: rn.t == 1,
        size: rn.s,
        key,
        parent: None,
        path: String::new(),
    };
    assert(node.path@ =~= Seq::<char>::empty());
    Some(node)
}

// ---------------------------------------------------------------------------
// The listing
// ---------------------------------------------------------------------------

/// A listing, as the server sent it: nothing stands for an entry that is no
/// node.
pub open spec fn raw_models(raws: Seq<Option<RawFNode>>) -> Seq<Option<RawModel>> {
    raws.map_values(
        |r: Option<RawFNode>|
            match r {
                Some(n) => Some(n@),
                None => None,
            },
    )
}

/// The share keys that are known once the first `n` entries were read. The
/// master key is the share key of the first entry.
pub open spec fn keys_after(raws: Seq<Option<RawModel>>, master: Seq<u8>, n: int) -> Map<Seq<char>, Seq<u8>>
    decreases n,
{
    if n <= 0 {
        Map::empty()
    } else {
        let keys = keys_after(raws, master, n - 1);
        match raws[n - 1] {
            None => keys,
            Some(r) => keys_with(
                if n == 1 {
                    keys.insert(r.h, master)
                } else {
                    keys
                },
                r,
                master,
            ),
        }
    }
}

/// The node that the `i`th entry gives. The first one has no parent.
pub open spec fn node_at(raws: Seq<Option<RawModel>>, master: Seq<u8>, i: int) -> Option<NodeModel> {
    match raws[i] {
        None => None,
        Some(r) => match node_of(r, keys_after(raws, master, i + 1)) {
            None => None,
            Some(x) => Some(
                if i == 0 {
                    NodeModel { parent_handle: Seq::empty(), ..x }
                } else {
                    x
                },
            ),
        },
    }
}

/// The nodes that the first `n` entries give.
pub open spec fn nodes_of(raws: Seq<Option<RawModel>>, master: Seq<u8>, n: int) -> Seq<NodeModel>
    decreases n,
{
    if n <= 0 {
        Seq::empty()
    } else {
        let before = nodes_of(raws, master, n - 1);
        match node_at(raws, master, n - 1) {
            None => before,
            Some(x) => before.push(x),
        }
    }
}

/// What nodes say.
pub open spec fn models(nodes: Seq<FNode>) -> Seq<NodeModel> {
    nodes.map_values(|n: FNode| n@)
}

/// A name is one component of a path: it is not empty, holds no slash, and
/// names neither its directory nor the parent.
pub open spec fn is_name(s: Seq<char>) -> bool {
    s.len() > 0 && !s.contains('/') && s != seq!['.'] && s != seq!['.', '.']
}

/// Every node has a name.
pub open spec fn all_named(nodes: Seq<NodeModel>) -> bool {
    forall|i: int| 0 <= i < nodes.len() ==> is_name((#[trigger] nodes[i]).name)
}

fn parse_nodes(raws: &[Option<RawFNode>], master: &Vec<u8>) -> (nodes: Vec<FNode>)
    ensures
        models(nodes@) == nodes_of(raw_models(raws@), master@, raws@.len() as int),
        all_named(models(nodes@)),
{
    let ghost all = raw_models(raws@);
    let mut keys: StringHashMap<Vec<u8>> = StringHashMap::new();
    let mut nodes: Vec<FNode> = Vec::new();
    let mut i: usize = 0;
    assert(key_map(keys@) =~= Map::empty());
    assert(models(nodes@) =~= Seq::empty());
    while i < raws.len()
        invariant
            i <= raws@.len(),
            all == raw_models(raws@),
            key_map(keys@) == keys_after(all, master@, i as int),
            models(nodes@) == nodes_of(all, master@, i as int),
            all_named(models(nodes@)),
        decreases raws@.len() - i,
    {
        let ghost before = nodes@;
        match &raws[i] {
            None => {
                assert(all[i as int] is None);
            },
            Some(rn) => {
                assert(all[i as int] == Some(rn@));
                if i == 0 {
                    store_key(&mut keys, rn.h.as_str(), copy_bytes(master));
                }
                if let Some(n) = parse_fnode(rn, &mut keys, master) {
                    proof {
                        lemma_node_named(rn@, key_map(keys@));
                    }
                    let mut n = n;
                    if i == 0 {
                        n.parent_handle = String::new();
                        assert(n.parent_handle@ =~= Seq::<char>::empty());
                    }
                    nodes.push(n);
                    assert(models(nodes@) =~= models(before).push(n@));
                }
            },
        }
        i += 1;
    }
    nodes
}

fn copy_bytes(v: &Vec<u8>) -> (out: Vec<u8>)
    ensures
        out@ == v@,
{
    let mut out: Vec<u8> = Vec::new();
    out.extend_from_slice(v.as_slice());
    assert(out@ =~= v@);
    out
}

// ---------------------------------------------------------------------------
// The tree
// ---------------------------------------------------------------------------

/// The last position of `h`.
pub open spec fn last_with(hs: Seq<Seq<char>>, h: Seq<char>) -> Option<int>
    decreases hs.len(),
{
    if hs.len() == 0 {
        None
    } else if hs.last() == h {
        Some(hs.len() - 1)
    } else {
        last_with(hs.drop_last(), h)
    }
}

/// The handles of nodes.
pub open spec fn handles(nodes: Seq<NodeModel>) -> Seq<Seq<char>> {
    nodes.map_values(|n: NodeModel| n.handle)
}

/// `m` leads from `h` to the last node that has it, if there is one.
pub open spec fn leads_on(m: Map<Seq<char>, usize>, hs: Seq<Seq<char>>, h: Seq<char>) -> bool {
    match last_with(hs, h) {
        Some(i) => m.contains_key(h) && m[h] == i,
        None => !m.contains_key(h),
    }
}

/// `m` leads from each handle to the last node that has it.
pub open spec fn indexes(m: Map<Seq<char>, usize>, hs: Seq<Seq<char>>) -> bool {
    forall|h: Seq<char>| #![trigger m.contains_key(h)] leads_on(m, hs, h)
}

/// The parent of each node. A node to which a link leads has none.
pub open spec fn links(nodes: Seq<NodeModel>, top: Option<int>) -> Seq<Option<int>> {
    Seq::new(
        nodes.len(),
        |i: int|
            if top == Some(i) || nodes[i].parent_handle.len() == 0 {
                None
            } else {
                last_with(handles(nodes), nodes[i].parent_handle)
            },
    )
}

/// The path of a node that is at most `steps` below the root.
pub open spec fn path_of(
    nodes: Seq<NodeModel>,
    up: Seq<Option<int>>,
    root: int,
    i: int,
    steps: nat,
) -> Seq<char>
    decreases steps,
{
    let above = if i == root || steps == 0 {
        Seq::empty()
    } else {
        match up[i] {
            Some(p) => path_of(nodes, up, root, p, (steps - 1) as nat),
            None => Seq::empty(),
        }
    };
    above.push('/') + nodes[i].name
}

/// The path of a node below the root.
pub open spec fn full_path(nodes: Seq<NodeModel>, up: Seq<Option<int>>, root: int, i: int) -> Seq<char> {
    path_of(nodes, up, root, i, nodes.len())
}

/// What nodes are sorted by: the path, that of a directory with a slash at
/// its end.
pub open spec fn sort_text(is_dir: bool, path: Seq<char>) -> Seq<char> {
    if is_dir {
        path.push('/')
    } else {
        path
    }
}

/// The sort keys of the nodes below the root, in walking order.
pub open spec fn sort_keys(nodes: Seq<NodeModel>, up: Seq<Option<int>>, root: int) -> Seq<Seq<u8>> {
    let r = reached(up, root);
    Seq::new(
        r.len(),
        |j: int| encode_utf8(sort_text(nodes[r[j]].is_dir, full_path(nodes, up, root, r[j]))),
    )
}

/// The nodes below the root, sorted.
pub open spec fn listed(nodes: Seq<NodeModel>, up: Seq<Option<int>>, root: int) -> Seq<int> {
    let order = ranking(sort_keys(nodes, up, root));
    Seq::new(order.len(), |k: int| reached(up, root)[order[k]])
}

/// Where a node stands in a list.
pub open spec fn place(list: Seq<int>, i: int) -> Option<int> {
    if list.contains(i) {
        Some(list.index_of(i))
    } else {
        None
    }
}

/// Node `i`, placed in the tree.
pub open spec fn placed(
    nodes: Seq<NodeModel>,
    up: Seq<Option<int>>,
    root: int,
    top: Option<int>,
    i: int,
) -> NodeModel {
    NodeModel {
        parent_handle: if top == Some(i) {
            Seq::empty()
        } else {
            nodes[i].parent_handle
        },
        parent: match up[i] {
            Some(p) => place(listed(nodes, up, root), p),
            None => None,
        },
        path: full_path(nodes, up, root, i),
        ..nodes[i]
    }
}

/// An open folder: its nodes, sorted by path, the root among them.
#[verifier::ext_equal]
pub struct FolderModel {
    pub root: int,
    pub nodes: Seq<NodeModel>,
}

/// The tree below a node: below the first one, or below the one that a link
/// leads to.
pub open spec fn tree_of(nodes: Seq<NodeModel>, top: Option<int>) -> FolderModel {
    let root = match top {
        Some(i) => i,
        None => 0,
    };
    let up = links(nodes, top);
    let order = listed(nodes, up, root);
    FolderModel {
        root: order.index_of(root),
        nodes: Seq::new(order.len(), |k: int| placed(nodes, up, root, top, order[k])),
    }
}

/// What opening a folder comes to.
pub open spec fn opened(
    raws: Seq<Option<RawModel>>,
    key: Seq<char>,
    specific: Option<Seq<char>>,
) -> Result<FolderModel, Seq<char>> {
    match b64_decoded(key) {
        Err(e) => Err(e),
        Ok(master) => if master.len() != 16 {
            Err("invalid folder key"@)
        } else if raws.len() == 0 {
            Err("folder listing returned no nodes"@)
        } else {
            let nodes = nodes_of(raws, master, raws.len() as int);
            if nodes.len() == 0 {
                Err("no decryptable nodes in folder"@)
            } else {
                match specific {
                    None => Ok(tree_of(nodes, None)),
                    Some(h) => match last_with(handles(nodes), h) {
                        None => Err("node not found: "@ + h),
                        Some(i) => Ok(tree_of(nodes, Some(i))),
                    },
                }
            }
        },
    }
}

/// A decrypted folder.
pub struct FolderFs {
    pub root: usize,
    pub nodes: Vec<FNode>,
    pub by_handle: StringHashMap<usize>,
}

impl View for FolderFs {
    type V = FolderModel;

    open spec fn view(&self) -> FolderModel {
        FolderModel { root: self.root as int, nodes: models(self.nodes@) }
    }
}

/// The parents of placed nodes.
pub open spec fn node_parents(nodes: Seq<NodeModel>) -> Seq<Option<int>> {
    nodes.map_values(|n: NodeModel| n.parent)
}

impl FolderFs {
    /// The root and all parents are nodes, and the index knows every handle.
    pub open spec fn wf(&self) -> bool {
        &&& self.root < self.nodes@.len()
        &&& parents_in_range(node_parents(self@.nodes))
        &&& indexes(self.by_handle@, handles(self@.nodes))
    }
}

pub proof fn lemma_last_with(hs: Seq<Seq<char>>, h: Seq<char>)
    ensures
        last_with(hs, h) matches Some(i) ==> 0 <= i < hs.len() && hs[i] == h,
    decreases hs.len(),
{
    if hs.len() > 0 && hs.last() != h {
        lemma_last_with(hs.drop_last(), h);
    }
}

/// A handle that a node has is found.
pub proof fn lemma_last_with_found(hs: Seq<Seq<char>>, i: int)
    requires
        0 <= i < hs.len(),
    ensures
        last_with(hs, hs[i]) is Some,
    decreases hs.len(),
{
    if hs.last() != hs[i] {
        assert(hs.drop_last()[i] == hs[i]);
        lemma_last_with_found(hs.drop_last(), i);
    }
}

/// An index grows with the nodes.
proof fn lemma_indexes_one_more(m: Map<Seq<char>, usize>, hs: Seq<Seq<char>>, i: usize)
    requires
        i < hs.len(),
        indexes(m, hs.take(i as int)),
    ensures
        indexes(m.insert(hs[i as int], i), hs.take(i + 1)),
{
    let longer = hs.take(i + 1);
    let after = m.insert(hs[i as int], i);
    assert(longer.drop_last() =~= hs.take(i as int));
    assert forall|h: Seq<char>| #![trigger after.contains_key(h)] leads_on(after, longer, h) by {
        assert(m.contains_key(h) || !m.contains_key(h));
        assert(leads_on(m, hs.take(i as int), h));
        if h != hs[i as int] {
            assert(last_with(longer, h) == last_with(hs.take(i as int), h));
        }
    }
}

/// Finds the last node for every handle.
fn index_handles(nodes: &Vec<FNode>) -> (m: StringHashMap<usize>)
    ensures
        indexes(m@, handles(models(nodes@))),
{
    let ghost hs = handles(models(nodes@));
    let mut m: StringHashMap<usize> = StringHashMap::new();
    let mut i: usize = 0;
    while i < nodes.len()
        invariant
            i <= nodes@.len(),
            hs == handles(models(nodes@)),
            indexes(m@, hs.take(i as int)),
        decreases nodes@.len() - i,
    {
        let ghost before = m@;
        m.insert(nodes[i].handle.clone(), i);
        proof {
            assert(hs[i as int] == nodes@[i as int].handle@);
            assert(m@ == before.insert(hs[i as int], i));
            lemma_indexes_one_more(before, hs, i);
        }
        i += 1;
    }
    assert(hs.take(hs.len() as int) =~= hs);
    m
}

/// Finds the parent of every node.
fn link_parents(nodes: &Vec<FNode>, by_handle: &StringHashMap<usize>, top: Option<usize>) -> (up: Vec<Option<usize>>)
    requires
        indexes(by_handle@, handles(models(nodes@))),
    ensures
        parents(up@) == links(
            models(nodes@),
            match top {
                Some(i) => Some(i as int),
                None => None,
            },
        ),
        parents_in_range(parents(up@)),
{
    let ghost ms = models(nodes@);
    let ghost above = links(
        ms,
        match top {
            Some(i) => Some(i as int),
            None => None,
        },
    );
    let mut up: Vec<Option<usize>> = Vec::new();
    let mut i: usize = 0;
    while i < nodes.len()
        invariant
            i <= nodes@.len(),
            ms == models(nodes@),
            above == links(
                ms,
                match top {
                    Some(i) => Some(i as int),
                    None => None,
                },
            ),
            indexes(by_handle@, handles(ms)),
            up@.len() == i,
            forall|j: int| 0 <= j < i ==> #[trigger] parents(up@)[j] == above[j],
            forall|j: int| 0 <= j < i ==> (#[trigger] up@[j] matches Some(p) ==> p < nodes@.len()),
        decreases nodes@.len() - i,
    {
        let ghost before = up@;
        let is_top = match top {
            Some(t) => t == i,
            None => false,
        };
        let ph = nodes[i].parent_handle.as_str();
        assert(ms[i as int].parent_handle == ph@);
        let p: Option<usize> = if is_top || ph.is_empty() {
            None
        } else {
            proof {
                lemma_last_with(handles(ms), ph@);
                assert(by_handle@.contains_key(ph@) || !by_handle@.contains_key(ph@));
            }
            match by_handle.get(ph) {
                Some(p) => Some(*p),
                None => None,
            }
        };
        up.push(p);
        assert forall|j: int| 0 <= j < i + 1 implies #[trigger] parents(up@)[j] == above[j] by {
            if j < i {
                assert(parents(before)[j] == above[j]);
            }
        }
        i += 1;
    }
    assert(parents(up@) =~= above);
    assert forall|j: int| 0 <= j < parents(up@).len() implies (#[trigger] parents(up@)[j] matches Some(p) ==> 0 <= p
        < parents(up@).len()) by {
        assert(up@[j] matches Some(p) ==> p < nodes@.len());
    }
    up
}

/// The number of steps does not matter, if they are enough.
proof fn lemma_path_steps(nodes: Seq<NodeModel>, up: Seq<Option<int>>, root: int, i: int, steps: nat, more: nat)
    requires
        climbs(up, root, i, steps),
        steps <= more,
    ensures
        path_of(nodes, up, root, i, steps) == path_of(nodes, up, root, i, more),
    decreases steps,
{
    if i != root {
        let p = up[i]->Some_0;
        lemma_path_steps(nodes, up, root, p, (steps - 1) as nat, (more - 1) as nat);
    }
}

/// The path of a node other than the root is that of its parent, a slash and
/// its own name.
proof fn lemma_path_of_child(nodes: Seq<NodeModel>, up: Seq<Option<int>>, root: int, i: int, steps: nat)
    requires
        i != root,
        climbs(up, root, i, steps),
        steps <= nodes.len(),
    ensures
        up[i] is Some,
        climbs(up, root, up[i]->Some_0, (steps - 1) as nat),
        full_path(nodes, up, root, i) == full_path(nodes, up, root, up[i]->Some_0).push('/') + nodes[i].name,
{
    let p = up[i]->Some_0;
    lemma_path_steps(nodes, up, root, p, (steps - 1) as nat, (nodes.len() - 1) as nat);
    lemma_path_steps(nodes, up, root, p, (steps - 1) as nat, nodes.len());
}

/// Writes the path of every node below the root.
fn build_paths(nodes: &Vec<FNode>, up: &Vec<Option<usize>>, root: usize, met: &Vec<usize>) -> (paths: Vec<String>)
    requires
        root < nodes@.len() == up@.len(),
        positions(met@) == reached(parents(up@), root as int),
    ensures
        paths@.len() == nodes@.len(),
        forall|j: int|
            0 <= j < met@.len() ==> (#[trigger] paths@[met@[j] as int])@ == full_path(
                models(nodes@),
                parents(up@),
                root as int,
                met@[j] as int,
            ),
{
    let ghost ms = models(nodes@);
    let ghost u = parents(up@);
    let ghost w = reached(u, root as int);
    let mut paths: Vec<String> = Vec::new();
    let mut i: usize = 0;
    while i < nodes.len()
        invariant
            i <= nodes@.len(),
            paths@.len() == i,
        decreases nodes@.len() - i,
    {
        paths.push(String::new());
        i += 1;
    }
    proof {
        lemma_reached(u, root as int);
        assert forall|j: int| 0 <= j < met@.len() implies #[trigger] met@[j] as int == w[j] by {
            assert(positions(met@)[j] == w[j]);
        }
    }
    let mut j: usize = 0;
    while j < met.len()
        invariant
            j <= met@.len(),
            root < nodes@.len() == up@.len(),
            ms == models(nodes@),
            u == parents(up@),
            w == reached(u, root as int),
            w.len() == met@.len() <= nodes@.len(),
            w[0] == root,
            forall|a: int| 0 <= a < met@.len() ==> #[trigger] met@[a] as int == w[a],
            forall|a: int| 0 <= a < w.len() ==> 0 <= #[trigger] w[a] < u.len(),
            forall|a: int, b: int| 0 <= a < b < w.len() ==> #[trigger] w[a] != #[trigger] w[b],
            forall|a: int|
                1 <= a < w.len() ==> #[trigger] w[a] != root && exists|k: int| 0 <= k < a && u[w[a]] == Some(#[trigger] w[k]),
            paths@.len() == nodes@.len(),
            forall|a: int|
                0 <= a < j ==> (#[trigger] paths@[met@[a] as int])@ == full_path(ms, u, root as int, met@[a] as int),
        decreases met@.len() - j,
    {
        let at: usize = met[j];
        let ghost before = paths@;
        proof {
            assert(w[j as int] == at);
            lemma_reached_climbs(u, root as int, j as int);
        }
        let mut path = String::new();
        if j > 0 {
            proof {
                let k = choose|k: int| 0 <= k < j && u[w[j as int]] == Some(#[trigger] w[k]);
                assert(met@[k] as int == w[k]);
                assert(u[at as int] == Some(w[k]));
                lemma_path_of_child(ms, u, root as int, at as int, j as nat);
            }
            if let Some(p) = up[at] {
                path = paths[p].clone();
            }
            assert(path@ == full_path(ms, u, root as int, u[at as int]->Some_0));
        }
        path.push('/');
        path.append(nodes[at].name.as_str());
        assert(path@ =~= full_path(ms, u, root as int, at as int));
        paths.set(at, path);
        assert forall|a: int| 0 <= a < j + 1 implies (#[trigger] paths@[met@[a] as int])@ == full_path(
            ms,
            u,
            root as int,
            met@[a] as int,
        ) by {
            if a < j {
                assert(w[a] != w[j as int]);
                assert(before[met@[a] as int]@ == full_path(ms, u, root as int, met@[a] as int));
            }
        }
        j += 1;
    }
    paths
}

/// The bytes that a node is sorted by.
pub fn sort_key(is_dir: bool, path: &str) -> (key: Vec<u8>)
    ensures
        key@ == encode_utf8(sort_text(is_dir, path@)),
{
    let mut text = path.to_owned();
    if is_dir {
        text.push('/');
    }
    let mut key: Vec<u8> = Vec::new();
    key.extend_from_slice(text.as_str().as_bytes());
    assert(key@ =~= encode_utf8(text@));
    key
}

/// Sorts the nodes below the root.
fn sort_nodes(
    nodes: &Vec<FNode>,
    up: &Vec<Option<usize>>,
    root: usize,
    met: &Vec<usize>,
    paths: &Vec<String>,
) -> (order: Vec<usize>)
    requires
        root < nodes@.len() == up@.len() == paths@.len(),
        positions(met@) == reached(parents(up@), root as int),
        forall|j: int|
            0 <= j < met@.len() ==> (#[trigger] paths@[met@[j] as int])@ == full_path(
                models(nodes@),
                parents(up@),
                root as int,
                met@[j] as int,
            ),
    ensures
        positions(order@) == listed(models(nodes@), parents(up@), root as int),
{
    let ghost ms = models(nodes@);
    let ghost u = parents(up@);
    let ghost w = reached(u, root as int);
    let ghost all = sort_keys(ms, u, root as int);
    proof {
        lemma_reached(u, root as int);
        assert forall|j: int| 0 <= j < met@.len() implies #[trigger] met@[j] as int == w[j] by {
            assert(positions(met@)[j] == w[j]);
        }
    }
    let mut keys: Vec<Vec<u8>> = Vec::new();
    let mut j: usize = 0;
    while j < met.len()
        invariant
            j <= met@.len(),
            root < nodes@.len() == up@.len() == paths@.len(),
            ms == models(nodes@),
            u == parents(up@),
            w == reached(u, root as int),
            w.len() == met@.len() == all.len(),
            all == sort_keys(ms, u, root as int),
            forall|a: int| 0 <= a < met@.len() ==> #[trigger] met@[a] as int == w[a],
            forall|a: int| 0 <= a < w.len() ==> 0 <= #[trigger] w[a] < u.len(),
            forall|a: int|
                0 <= a < met@.len() ==> (#[trigger] paths@[met@[a] as int])@ == full_path(
                    ms,
                    u,
                    root as int,
                    met@[a] as int,
                ),
            keys@.len() == j,
            forall|a: int| 0 <= a < j ==> (#[trigger] keys@[a])@ == all[a],
        decreases met@.len() - j,
    {
        let at: usize = met[j];
        assert(w[j as int] == at);
        assert(paths@[met@[j as int] as int]@ == full_path(ms, u, root as int, at as int));
        keys.push(sort_key(nodes[at].is_dir, paths[at].as_str()));
        j += 1;
    }
    assert(key_bytes(keys@) =~= all);
    let ranks = rank(&keys);
    let ghost order_of = ranking(all);
    assert(is_ranking(all, order_of));
    let mut order: Vec<usize> = Vec::new();
    let mut k: usize = 0;
    while k < ranks.len()
        invariant
            k <= ranks@.len() == met@.len(),
            w.len() == met@.len(),
            positions(ranks@) == order_of,
            forall|a: int| 0 <= a < order_of.len() ==> 0 <= #[trigger] order_of[a] < met@.len(),
            forall|a: int| 0 <= a < met@.len() ==> #[trigger] met@[a] as int == w[a],
            order@.len() == k,
            forall|a: int| 0 <= a < k ==> #[trigger] order@[a] as int == w[order_of[a]],
        decreases ranks@.len() - k,
    {
        assert(order_of[k as int] == ranks@[k as int]);
        order.push(met[ranks[k]]);
        k += 1;
    }
    assert(positions(order@) =~= listed(ms, u, root as int));
    order
}

/// The sorted list holds each node below the root once.
proof fn lemma_listed(nodes: Seq<NodeModel>, up: Seq<Option<int>>, root: int)
    requires
        0 <= root < up.len() == nodes.len(),
    ensures
        ({
            let order = listed(nodes, up, root);
            &&& 0 < order.len() == reached(up, root).len()
            &&& forall|a: int| 0 <= a < order.len() ==> 0 <= #[trigger] order[a] < nodes.len()
            &&& forall|a: int, b: int| 0 <= a < b < order.len() ==> #[trigger] order[a] != #[trigger] order[b]
            &&& forall|i: int| order.contains(i) <==> reached(up, root).contains(i)
        }),
{
    let keys = sort_keys(nodes, up, root);
    let order = listed(nodes, up, root);
    let w = reached(up, root);
    law_ranking(keys);
    let r = ranking(keys);
    lemma_ranking_is_permutation(keys, r);
    lemma_reached(up, root);
    assert forall|a: int, b: int| 0 <= a < b < order.len() implies #[trigger] order[a] != #[trigger] order[b] by {
        assert(r[a] != r[b]);
        if r[a] < r[b] {
            assert(w[r[a]] != w[r[b]]);
        } else {
            assert(w[r[b]] != w[r[a]]);
        }
    }
    assert forall|a: int| 0 <= a < order.len() implies 0 <= #[trigger] order[a] < nodes.len() by {
        assert(0 <= r[a] < keys.len());
    }
    assert forall|i: int| order.contains(i) <==> w.contains(i) by {
        if order.contains(i) {
            let a = choose|a: int| 0 <= a < order.len() && order[a] == i;
            assert(0 <= r[a] < keys.len());
            assert(w[r[a]] == i);
        }
        if w.contains(i) {
            let j = choose|j: int| 0 <= j < w.len() && w[j] == i;
            assert(r.contains(j));
            let a = choose|a: int| 0 <= a < r.len() && r[a] == j;
            assert(order[a] == i);
        }
    }
}

proof fn lemma_place(list: Seq<int>, k: int)
    requires
        0 <= k < list.len(),
        forall|a: int, b: int| 0 <= a < b < list.len() ==> #[trigger] list[a] != #[trigger] list[b],
    ensures
        place(list, list[k]) == Some(k),
{
    let i = list[k];
    assert(list.contains(i));
    let at = list.index_of(i);
    assert(0 <= at < list.len() && list[at] == i);
    if at < k {
        assert(list[at] != list[k]);
    } else if at > k {
        assert(list[k] != list[at]);
    }
}

/// Text that begins as another one does begins with its bytes.
pub proof fn lemma_encode_concat(a: Seq<char>, b: Seq<char>)
    ensures
        encode_utf8(a + b) == encode_utf8(a) + encode_utf8(b),
    decreases a.len(),
{
    if a.len() == 0 {
        assert(a + b =~= b);
        assert(encode_utf8(a) + encode_utf8(b) =~= encode_utf8(b));
    } else {
        assert((a + b).drop_first() =~= a.drop_first() + b);
        lemma_encode_concat(a.drop_first(), b);
        assert(encode_utf8(a + b) =~= encode_utf8(a) + encode_utf8(b));
    }
}

/// The path of a node other than the root begins with that of the root and a
/// slash, and goes on.
proof fn lemma_path_below_root(nodes: Seq<NodeModel>, up: Seq<Option<int>>, root: int, i: int, steps: nat)
    requires
        all_named(nodes),
        nodes.len() == up.len(),
        parents_in_range(up),
        0 <= root < up.len(),
        0 <= i < up.len(),
        i != root,
        climbs(up, root, i, steps),
        steps <= nodes.len(),
    ensures
        ({
            let top = full_path(nodes, up, root, root).push('/');
            let path = full_path(nodes, up, root, i);
            path.len() > top.len() && path.take(top.len() as int) == top
        }),
    decreases steps,
{
    let p = up[i]->Some_0;
    lemma_path_of_child(nodes, up, root, i, steps);
    let top = full_path(nodes, up, root, root).push('/');
    let path = full_path(nodes, up, root, i);
    assert(nodes[i].name.len() > 0);
    if p == root {
        assert(path.take(top.len() as int) =~= top);
    } else {
        lemma_path_below_root(nodes, up, root, p, (steps - 1) as nat);
        let above = full_path(nodes, up, root, p);
        assert(path.take(top.len() as int) =~= above.take(top.len() as int));
    }
}

/// The root is the first node of the sorted list.
#[verifier::rlimit(60)]
proof fn lemma_root_first(nodes: Seq<NodeModel>, up: Seq<Option<int>>, root: int)
    requires
        all_named(nodes),
        nodes.len() == up.len(),
        parents_in_range(up),
        0 <= root < up.len(),
    ensures
        listed(nodes, up, root).len() > 0,
        listed(nodes, up, root)[0] == root,
{
    let keys = sort_keys(nodes, up, root);
    let r = ranking(keys);
    let w = reached(up, root);
    lemma_reached(up, root);
    law_ranking(keys);
    lemma_ranking_is_permutation(keys, r);
    assert(r.contains(0));
    let a = choose|a: int| 0 <= a < r.len() && r[a] == 0;
    if a > 0 {
        let j = r[0];
        assert(sorts_before(keys, r[0], r[a]));
        assert(r[0] != r[a]);
        assert(0 < j < w.len());
        lemma_reached_climbs(up, root, j);
        assert(w[j] != root);
        lemma_path_below_root(nodes, up, root, w[j], j as nat);
        let top = full_path(nodes, up, root, root);
        let path = full_path(nodes, up, root, w[j]);
        let first = sort_text(nodes[root].is_dir, top);
        let other = sort_text(nodes[w[j]].is_dir, path);
        let n = first.len() as int;
        assert(path.take((top.len() + 1) as int) == top.push('/'));
        assert(first =~= other.take(n)) by {
            assert forall|x: int| 0 <= x < n implies first[x] == #[trigger] other.take(n)[x] by {
                assert(path.take((top.len() + 1) as int)[x] == path[x]);
            }
        }
        let rest = other.skip(n);
        assert(other =~= first + rest);
        lemma_encode_concat(first, rest);
        assert(rest.len() > 0);
        assert(encode_utf8(rest).len() > 0);
        assert(encode_utf8(other).take(encode_utf8(first).len() as int) =~= encode_utf8(first));
        lemma_prefix_before(encode_utf8(first), encode_utf8(other));
        assert(sorts_before(keys, 0, j));
        lemma_sorts_asymmetric(keys, 0, j);
    }
}

/// Finds where each node stands in the sorted list.
fn find_places(order: &Vec<usize>, count: usize) -> (places: Vec<Option<usize>>)
    requires
        forall|a: int| 0 <= a < order@.len() ==> #[trigger] order@[a] < count,
        forall|a: int, b: int| 0 <= a < b < order@.len() ==> #[trigger] order@[a] != #[trigger] order@[b],
    ensures
        places@.len() == count,
        forall|i: int| 0 <= i < count ==> #[trigger] parents(places@)[i] == place(positions(order@), i),
{
    let ghost list = positions(order@);
    let mut places: Vec<Option<usize>> = Vec::new();
    let mut i: usize = 0;
    while i < count
        invariant
            i <= count,
            places@.len() == i,
            forall|j: int| 0 <= j < i ==> (#[trigger] places@[j]) is None,
        decreases count - i,
    {
        places.push(None);
        i += 1;
    }
    let mut k: usize = 0;
    while k < order.len()
        invariant
            k <= order@.len(),
            list == positions(order@),
            places@.len() == count,
            forall|a: int| 0 <= a < order@.len() ==> #[trigger] order@[a] < count,
            forall|a: int, b: int| 0 <= a < b < order@.len() ==> #[trigger] order@[a] != #[trigger] order@[b],
            forall|a: int| 0 <= a < k ==> places@[#[trigger] order@[a] as int] == Some(a as usize),
            forall|j: int|
                0 <= j < count && (#[trigger] places@[j]) is Some ==> exists|a: int| 0 <= a < k && #[trigger] order@[a] == j,
        decreases order@.len() - k,
    {
        let ghost before = places@;
        let at: usize = order[k];
        places.set(at, Some(k));
        assert forall|a: int| 0 <= a < k + 1 implies places@[#[trigger] order@[a] as int] == Some(a as usize) by {
            if a < k {
                assert(order@[a] != order@[k as int]);
            }
        }
        assert forall|j: int| 0 <= j < count && (#[trigger] places@[j]) is Some implies exists|a: int|
            0 <= a < k + 1 && #[trigger] order@[a] == j by {
            if j == at {
                assert(order@[k as int] == j);
            } else {
                assert(before[j] is Some);
                let a = choose|a: int| 0 <= a < k && #[trigger] order@[a] == j;
                assert(order@[a] == j);
            }
        }
        k += 1;
    }
    assert forall|i: int| 0 <= i < count implies #[trigger] parents(places@)[i] == place(list, i) by {
        if list.contains(i) {
            let a = choose|a: int| 0 <= a < list.len() && list[a] == i;
            assert(list[a] == order@[a]);
            assert(places@[order@[a] as int] == Some(a as usize));
            assert forall|b: int, c: int| 0 <= b < c < list.len() implies #[trigger] list[b] != #[trigger] list[c] by {
                assert(order@[b] != order@[c]);
            }
            lemma_place(list, a);
        } else if places@[i] is Some {
            let a = choose|a: int| 0 <= a < order@.len() && #[trigger] order@[a] == i;
            assert(list[a] == i);
        }
    }
    places
}

fn clone_node(n: &FNode, parent_handle: String, parent: Option<usize>, path: String) -> (r: FNode)
    ensures
        r@ == (NodeModel {
            parent_handle: parent_handle@,
            parent: match parent {
                Some(p) => Some(p as int),
                None => None,
            },
            path: path@,
            ..n@
        }),
{
    FNode {
        handle: n.handle.clone(),
        parent_handle,
        name: n.name.clone(),
        is_dir: n.is_dir,
        size: n.size,
        key: copy_bytes(&n.key),
        parent,
        path,
    }
}

/// Builds the sorted tree below `top`, or below the first node.
fn build_tree(nodes: &Vec<FNode>, top: Option<usize>, by_handle: &StringHashMap<usize>) -> (fs: FolderFs)
    requires
        nodes@.len() > 0,
        all_named(models(nodes@)),
        top matches Some(i) ==> i < nodes@.len(),
        indexes(by_handle@, handles(models(nodes@))),
    ensures
        fs.root == 0,
        fs@ == tree_of(
            models(nodes@),
            match top {
                Some(i) => Some(i as int),
                None => None,
            },
        ),
        fs.wf(),
{
    let ghost ms = models(nodes@);
    let ghost t = match top {
        Some(i) => Some(i as int),
        None => None,
    };
    let up = link_parents(nodes, by_handle, top);
    let ghost u = parents(up@);
    let root: usize = match top {
        Some(i) => i,
        None => 0,
    };
    let met = walk_tree(&up, root);
    let paths = build_paths(nodes, &up, root, &met);
    let order = sort_nodes(nodes, &up, root, &met, &paths);
    let ghost list = listed(ms, u, root as int);
    proof {
        lemma_listed(ms, u, root as int);
        assert forall|a: int| 0 <= a < order@.len() implies #[trigger] order@[a] as int == list[a] by {
            assert(positions(order@)[a] == list[a]);
        }
        assert forall|a: int| 0 <= a < order@.len() implies #[trigger] order@[a] < nodes@.len() by {
            assert(order@[a] as int == list[a]);
        }
        assert forall|a: int, b: int| 0 <= a < b < order@.len() implies #[trigger] order@[a] != #[trigger] order@[b] by {
            assert(list[a] != list[b]);
        }
        assert forall|a: int| 0 <= a < list.len() implies (#[trigger] paths@[list[a]])@ == full_path(
            ms,
            u,
            root as int,
            list[a],
        ) by {
            assert(list.contains(list[a]));
            let w = reached(u, root as int);
            let j = choose|j: int| 0 <= j < w.len() && w[j] == list[a];
            assert(positions(met@)[j] == met@[j]);
            assert(paths@[met@[j] as int]@ == full_path(ms, u, root as int, met@[j] as int));
        }
    }
    let places = find_places(&order, nodes.len());
    let mut sorted: Vec<FNode> = Vec::new();
    let mut k: usize = 0;
    while k < order.len()
        invariant
            k <= order@.len() == list.len(),
            ms == models(nodes@),
            u == parents(up@),
            u.len() == up@.len() == nodes@.len() == paths@.len() == places@.len(),
            parents_in_range(u),
            t == (match top {
                Some(i) => Some(i as int),
                None => None,
            }),
            list == listed(ms, u, root as int),
            positions(order@) == list,
            forall|a: int| 0 <= a < order@.len() ==> #[trigger] order@[a] < nodes@.len(),
            forall|a: int| 0 <= a < order@.len() ==> #[trigger] order@[a] as int == list[a],
            forall|a: int| 0 <= a < list.len() ==> (#[trigger] paths@[list[a]])@ == full_path(ms, u, root as int, list[a]),
            forall|i: int| 0 <= i < nodes@.len() ==> #[trigger] parents(places@)[i] == place(list, i),
            sorted@.len() == k,
            forall|a: int| 0 <= a < k ==> (#[trigger] sorted@[a])@ == placed(ms, u, root as int, t, list[a]),
        decreases order@.len() - k,
    {
        let at: usize = order[k];
        assert(at == list[k as int]);
        let parent_handle = match top {
            Some(i) => if i == at {
                String::new()
            } else {
                nodes[at].parent_handle.clone()
            },
            None => nodes[at].parent_handle.clone(),
        };
        assert(u[at as int] == parents(up@)[at as int]);
        let parent: Option<usize> = match up[at] {
            Some(p) => {
                assert(u[at as int] == Some(p as int));
                assert(parents(places@)[p as int] == place(list, p as int));
                places[p]
            },
            None => None,
        };
        let path = paths[at].clone();
        assert(paths@[list[k as int]]@ == full_path(ms, u, root as int, at as int));
        let node = clone_node(&nodes[at], parent_handle, parent, path);
        assert(ms[at as int] == nodes@[at as int]@);
        assert(parent_handle@ =~= (if t == Some(at as int) {
            Seq::empty()
        } else {
            ms[at as int].parent_handle
        }));
        assert(node@ == placed(ms, u, root as int, t, at as int));
        sorted.push(node);
        k += 1;
    }
    assert(models(sorted@) =~= tree_of(ms, t).nodes);
    let by_handle = index_handles(&sorted);
    let fs = FolderFs { root: 0, nodes: sorted, by_handle };
    proof {
        lemma_root_first(ms, u, root as int);
        lemma_place(list, 0);
        let up2 = node_parents(fs@.nodes);
        assert forall|i: int| 0 <= i < up2.len() implies (#[trigger] up2[i] matches Some(p) ==> 0 <= p < up2.len()) by {
            assert(up2[i] == placed(ms, u, root as int, t, list[i]).parent);
        }
        assert(fs@ == tree_of(ms, t));
    }
    fs
}

/// The entries of a folder listing, if there are any.
pub open spec fn listing_of(reply: Json) -> Option<Seq<Json>> {
    match reply.field("f"@) {
        Some(v) => match v.array() {
            Some(items) => if items.len() > 0 {
                Some(items)
            } else {
                None
            },
            None => None,
        },
        None => None,
    }
}

/// Picks the entries out of the reply to a listing command.
pub fn listed_nodes(reply: &Value) -> (r: Result<&Vec<Value>, String>)
    ensures
        match r {
            Ok(items) => listing_of(json_of(*reply)) == Some(jsons(items@)),
            Err(e) => listing_of(json_of(*reply)) is None && e@ == "folder listing returned no nodes"@,
        },
{
    if let Some(v) = field(reply, "f") {
        if let Some(items) = as_list(v) {
            if items.len() > 0 {
                return Ok(items);
            }
        }
    }
    Err("folder listing returned no nodes".to_owned())
}

/// Decodes the key of a folder link.
pub fn folder_key(master_key_b64: &str) -> (r: Result<Vec<u8>, String>)
    ensures
        match r {
            Ok(key) => b64_decoded(master_key_b64@) == Ok::<Seq<u8>, Seq<char>>(key@) && key@.len() == 16,
            Err(e) => match b64_decoded(master_key_b64@) {
                Ok(key) => key.len() != 16 && e@ == "invalid folder key"@,
                Err(x) => e@ == x,
            },
        },
{
    let key = match b64decode(master_key_b64) {
        Ok(key) => key,
        Err(e) => return Err(e),
    };
    if key.len() != 16 {
        return Err("invalid folder key".to_owned());
    }
    Ok(key)
}

/// Decrypts an exported folder's node tree from its listing. `specific` is
/// the handle of the node to take for the root.
pub fn open_folder(raw_nodes: &[Option<RawFNode>], master_key_b64: &str, specific: Option<&str>) -> (r: Result<
    FolderFs,
    String,
>)
    ensures
        ({
            let wanted = match specific {
                Some(h) => Some(h@),
                None => None,
            };
            match r {
                Ok(fs) => opened(raw_models(raw_nodes@), master_key_b64@, wanted) == Ok::<FolderModel, Seq<char>>(fs@)
                    && fs.wf() && fs.root == 0,
                Err(e) => opened(raw_models(raw_nodes@), master_key_b64@, wanted) == Err::<FolderModel, Seq<char>>(e@),
            }
        }),
{
    let master = match folder_key(master_key_b64) {
        Ok(key) => key,
        Err(e) => return Err(e),
    };
    if raw_nodes.len() == 0 {
        return Err("folder listing returned no nodes".to_owned());
    }
    let nodes = parse_nodes(raw_nodes, &master);
    if nodes.len() == 0 {
        return Err("no decryptable nodes in folder".to_owned());
    }
    let by_handle = index_handles(&nodes);
    let ghost hs = handles(models(nodes@));
    let top: Option<usize> = match specific {
        None => None,
        Some(h) => {
            proof {
                lemma_last_with(hs, h@);
                assert(by_handle@.contains_key(h@) || !by_handle@.contains_key(h@));
            }
            match by_handle.get(h) {
                Some(i) => Some(*i),
                None => {
                    let mut message = String::new();
                    message.append("node not found: ");
                    message.append(h);
                    assert(message@ =~= "node not found: "@ + h@);
                    return Err(message);
                },
            }
        },
    };
    Ok(build_tree(&nodes, top, &by_handle))
}

// ---------------------------------------------------------------------------
// Using an open folder
// ---------------------------------------------------------------------------

/// The transfer URL and the size in the reply to a download command.
pub open spec fn transfer_of(reply: Json) -> Option<(Seq<char>, i64)> {
    match (reply.text_field("g"@), reply.int_field("s"@)) {
        (Some(url), Some(size)) => if url.len() > 0 && size >= 0 {
            Some((url, size))
        } else {
            None
        },
        _ => None,
    }
}

/// The parent of each node of a folder, none for the root.
pub open spec fn tree_parents(f: FolderModel) -> Seq<Option<int>> {
    Seq::new(
        f.nodes.len(),
        |i: int|
            if i == f.root {
                None
            } else {
                f.nodes[i].parent
            },
    )
}

/// Node `i` is `n`, or in its subtree.
pub open spec fn is_under(f: FolderModel, i: int, n: int) -> bool {
    at_or_above(tree_parents(f), i, n, f.nodes.len())
}

/// Among the first `k` nodes, the files in the subtree of `n`, in order.
pub open spec fn files_below(f: FolderModel, n: int, k: int) -> Seq<int>
    decreases k,
{
    if k <= 0 {
        Seq::empty()
    } else {
        let before = files_below(f, n, k - 1);
        if !f.nodes[k - 1].is_dir && is_under(f, k - 1, n) {
            before.push(k - 1)
        } else {
            before
        }
    }
}

/// The path of node `n` from the root on. The root itself goes by its name.
pub open spec fn path_from_root(f: FolderModel, n: int) -> Seq<char> {
    let top = f.nodes[f.root].path.push('/');
    let path = f.nodes[n].path;
    if n == f.root {
        f.nodes[n].name
    } else if has_prefix(path, top) {
        path.skip(top.len() as int)
    } else {
        path
    }
}

impl FolderFs {
    /// Picks a node's transfer URL and size out of the reply to a download
    /// command.
    pub fn download_url(&self, reply: &Value) -> (r: Result<(String, i64), String>)
        ensures
            match r {
                Ok((url, size)) => transfer_of(json_of(*reply)) == Some((url@, size)),
                Err(e) => transfer_of(json_of(*reply)) is None && e@ == "can't determine download url"@,
            },
    {
        if let Some(url) = text_field(reply, "g") {
            if let Some(size) = int_field(reply, "s") {
                if !url.is_empty() && size >= 0 {
                    return Ok((url.to_owned(), size));
                }
            }
        }
        Err("can't determine download url".to_owned())
    }

    fn parent_list(&self) -> (up: Vec<Option<usize>>)
        requires
            self.wf(),
        ensures
            parents(up@) == tree_parents(self@),
            parents_in_range(parents(up@)),
    {
        let ghost all = tree_parents(self@);
        let mut up: Vec<Option<usize>> = Vec::new();
        let mut i: usize = 0;
        while i < self.nodes.len()
            invariant
                self.wf(),
                all == tree_parents(self@),
                i <= self.nodes@.len(),
                up@.len() == i,
                forall|j: int| 0 <= j < i ==> #[trigger] parents(up@)[j] == all[j],
            decreases self.nodes@.len() - i,
        {
            let ghost before = up@;
            let p: Option<usize> = if i == self.root {
                None
            } else {
                self.nodes[i].parent
            };
            assert(self@.nodes[i as int] == self.nodes@[i as int]@);
            up.push(p);
            assert forall|j: int| 0 <= j < i + 1 implies #[trigger] parents(up@)[j] == all[j] by {
                if j < i {
                    assert(parents(before)[j] == all[j]);
                }
            }
            i += 1;
        }
        assert(parents(up@) =~= all);
        assert forall|j: int| 0 <= j < all.len() implies (#[trigger] all[j] matches Some(p) ==> 0 <= p < all.len()) by {
            assert(node_parents(self@.nodes)[j] == self@.nodes[j].parent);
        }
        up
    }

    /// Every file in the subtree of `n`, `n` itself if it is one, in listing
    /// order.
    pub fn files_under(&self, n: usize) -> (files: Vec<usize>)
        requires
            self.wf(),
            n < self.nodes@.len(),
        ensures
            positions(files@) == files_below(self@, n as int, self@.nodes.len() as int),
    {
        let up = self.parent_list();
        assert(up@.len() == parents(up@).len());
        let mut files: Vec<usize> = Vec::new();
        let mut i: usize = 0;
        assert(positions(files@) =~= Seq::empty());
        while i < self.nodes.len()
            invariant
                self.wf(),
                parents(up@) == tree_parents(self@),
                parents_in_range(parents(up@)),
                i <= self.nodes@.len() == up@.len(),
                positions(files@) == files_below(self@, n as int, i as int),
            decreases self.nodes@.len() - i,
        {
            let ghost before = files@;
            assert(self@.nodes[i as int] == self.nodes@[i as int]@);
            if !self.nodes[i].is_dir && is_at_or_above(&up, i, n) {
                files.push(i);
                assert(positions(files@) =~= positions(before).push(i as int));
            }
            i += 1;
        }
        files
    }

    /// The path of node `n` below the root.
    pub fn rel_to_root(&self, n: usize) -> (path: String)
        requires
            self.wf(),
            n < self.nodes@.len(),
        ensures
            path@ == path_from_root(self@, n as int),
    {
        assert(self@.nodes[n as int] == self.nodes@[n as int]@);
        assert(self@.nodes[self.root as int] == self.nodes@[self.root as int]@);
        if n == self.root {
            return self.nodes[n].name.clone();
        }
        let mut top = self.nodes[self.root].path.clone();
        top.push('/');
        let top = chars_of(top.as_str());
        let path = chars_of(self.nodes[n].path.as_str());
        assert(path@.skip(0) =~= path@);
        if begins_at(&path, 0, &top) {
            let rest = string_range(&path, top.len(), path.len());
            assert(rest@ =~= path@.skip(top@.len() as int));
            rest
        } else {
            self.nodes[n].path.clone()
        }
    }
}

// ---------------------------------------------------------------------------
// Laws
// ---------------------------------------------------------------------------

/// A tree whose paths are made of names: the root's is a slash and its name,
/// each other node's is that of its parent, a slash and its name. Climbing
/// leads every node to the root.
pub open spec fn is_pathed(f: FolderModel) -> bool {
    let up = tree_parents(f);
    &&& 0 <= f.root < f.nodes.len()
    &&& parents_in_range(up)
    &&& f.nodes[f.root].path == seq!['/'] + f.nodes[f.root].name
    &&& forall|i: int| 0 <= i < f.nodes.len() ==> is_name((#[trigger] f.nodes[i]).name)
    &&& forall|i: int|
        0 <= i < f.nodes.len() && i != f.root ==> (#[trigger] f.nodes[i]).parent is Some && f.nodes[i].path
            == f.nodes[f.nodes[i].parent->Some_0].path.push('/') + f.nodes[i].name
    &&& forall|i: int| 0 <= i < f.nodes.len() ==> #[trigger] climbs(up, f.root, i, f.nodes.len())
}

proof fn lemma_nodes_named(raws: Seq<Option<RawModel>>, master: Seq<u8>, n: int)
    ensures
        all_named(nodes_of(raws, master, n)),
    decreases n,
{
    if n > 0 {
        lemma_nodes_named(raws, master, n - 1);
        if let Some(x) = node_at(raws, master, n - 1) {
            lemma_node_named(raws[n - 1]->Some_0, keys_after(raws, master, n));
        }
    }
}

proof fn lemma_node_named(r: RawModel, keys: Map<Seq<char>, Seq<u8>>)
    ensures
        node_of(r, keys) matches Some(x) ==> is_name(x.name),
{
    if let Some(x) = node_of(r, keys) {
        let attr = if r.t == 1 {
            x.key
        } else {
            folded_key(x.key)
        };
        law_safe_name_is_component(attributes_name(attr, r.a)->Ok_0);
    }
}

proof fn lemma_links_in_range(nodes: Seq<NodeModel>, top: Option<int>)
    ensures
        parents_in_range(links(nodes, top)),
{
    let up = links(nodes, top);
    assert forall|i: int| 0 <= i < up.len() implies (#[trigger] up[i] matches Some(p) ==> 0 <= p < up.len()) by {
        lemma_last_with(handles(nodes), nodes[i].parent_handle);
    }
}

#[verifier::spinoff_prover]
proof fn lemma_tree_climbs(nodes: Seq<NodeModel>, top: Option<int>, root: int, i: int, steps: nat, k: int)
    requires
        all_named(nodes),
        0 <= root < nodes.len(),
        root == (match top {
            Some(t) => t,
            None => 0,
        }),
        climbs(links(nodes, top), root, i, steps),
        0 <= k < listed(nodes, links(nodes, top), root).len(),
        listed(nodes, links(nodes, top), root)[k] == i,
    ensures
        climbs(tree_parents(tree_of(nodes, top)), 0, k, steps),
    decreases steps,
{
    let up = links(nodes, top);
    let list = listed(nodes, up, root);
    let f = tree_of(nodes, top);
    lemma_links_in_range(nodes, top);
    lemma_listed(nodes, up, root);
    lemma_root_first(nodes, up, root);
    lemma_place(list, 0);
    if k != 0 {
        assert(list[0] != list[k]);
        let p = up[i]->Some_0;
        lemma_listed_parent(nodes, up, root, i, p);
        let q = choose|q: int| 0 <= q < list.len() && list[q] == p;
        lemma_place(list, q);
        assert(f.nodes[k].parent == Some(q));
        lemma_tree_climbs(nodes, top, root, p, (steps - 1) as nat, q);
        assert(tree_parents(f)[k] == Some(q));
    }
}

/// The parent of a listed node other than the root is listed too.
proof fn lemma_listed_parent(nodes: Seq<NodeModel>, up: Seq<Option<int>>, root: int, i: int, p: int)
    requires
        0 <= root < up.len() == nodes.len(),
        listed(nodes, up, root).contains(i),
        i != root,
        up[i] == Some(p),
    ensures
        listed(nodes, up, root).contains(p),
{
    let w = reached(up, root);
    lemma_listed(nodes, up, root);
    lemma_reached(up, root);
    assert(w.contains(i));
    let j = choose|j: int| 0 <= j < w.len() && w[j] == i;
    assert(j > 0);
    let e = choose|e: int| 0 <= e < j && up[w[j]] == Some(#[trigger] w[e]);
    assert(w.contains(p));
}

/// A tree whose paths are made of names, with nothing above its root.
pub open spec fn is_rooted(f: FolderModel) -> bool {
    is_pathed(f) && f.nodes[f.root].parent is None
}

/// The first entry that is listed gives the first node, if it gives one.
proof fn lemma_first_node(raws: Seq<Option<RawModel>>, master: Seq<u8>, n: int)
    requires
        1 <= n <= raws.len(),
    ensures
        node_at(raws, master, 0) matches Some(x) ==> nodes_of(raws, master, n).len() > 0 && nodes_of(
            raws,
            master,
            n,
        )[0] == x,
    decreases n,
{
    if n > 1 {
        lemma_first_node(raws, master, n - 1);
    } else {
        assert(nodes_of(raws, master, 0).len() == 0);
    }
}

/// The tree below a node of named nodes has its root first, is sorted, and
/// its paths are made of names.
#[verifier::spinoff_prover]
proof fn lemma_tree_pathed(nodes: Seq<NodeModel>, top: Option<int>)
    requires
        all_named(nodes),
        nodes.len() > 0,
        top matches Some(t) ==> 0 <= t < nodes.len(),
    ensures
        tree_of(nodes, top).root == 0,
        is_pathed(tree_of(nodes, top)),
        top is Some || nodes[0].parent_handle.len() == 0 ==> is_rooted(tree_of(nodes, top)),
{
    let root = match top {
        Some(t) => t,
        None => 0,
    };
    let up = links(nodes, top);
    let list = listed(nodes, up, root);
    let f = tree_of(nodes, top);
    let w = reached(up, root);
    lemma_links_in_range(nodes, top);
    lemma_listed(nodes, up, root);
    lemma_root_first(nodes, up, root);
    lemma_place(list, 0);
    lemma_reached(up, root);
    let fup = tree_parents(f);
    assert(f.root == 0);
    assert(f.nodes[0].path =~= seq!['/'] + f.nodes[0].name);
    assert forall|k: int| 0 <= k < f.nodes.len() && k != f.root implies (#[trigger] f.nodes[k]).parent is Some
        && f.nodes[k].parent->Some_0 < f.nodes.len() && f.nodes[k].parent->Some_0 >= 0 && f.nodes[k].path
        == f.nodes[f.nodes[k].parent->Some_0].path.push('/') + f.nodes[k].name by {
        let i = list[k];
        assert(list[0] != list[k]);
        assert(list.contains(i));
        let j = choose|j: int| 0 <= j < w.len() && w[j] == i;
        lemma_reached_climbs(up, root, j);
        lemma_path_of_child(nodes, up, root, i, j as nat);
        let p = up[i]->Some_0;
        lemma_listed_parent(nodes, up, root, i, p);
        let q = choose|q: int| 0 <= q < list.len() && list[q] == p;
        lemma_place(list, q);
        assert(f.nodes[k].parent == Some(q));
        assert(f.nodes[q].path == full_path(nodes, up, root, p));
    }
    assert forall|k: int| 0 <= k < f.nodes.len() implies #[trigger] climbs(fup, f.root, k, f.nodes.len()) by {
        let i = list[k];
        assert(list.contains(i));
        let j = choose|j: int| 0 <= j < w.len() && w[j] == i;
        lemma_reached_climbs(up, root, j);
        lemma_tree_climbs(nodes, top, root, i, j as nat, k);
        lemma_climbs_more(fup, 0, k, j as nat, f.nodes.len());
    }
    assert forall|k: int| 0 <= k < f.nodes.len() implies is_name((#[trigger] f.nodes[k]).name) by {
        assert(is_name(nodes[list[k]].name));
    }
    assert forall|k: int| 0 <= k < fup.len() implies (#[trigger] fup[k] matches Some(p) ==> 0 <= p < fup.len()) by {
        if k != 0 {
            assert(f.nodes[k].parent is Some);
        }
    }
}

/// What node `i` is sorted by.
pub open spec fn node_sort_key(f: FolderModel, i: int) -> Seq<u8> {
    encode_utf8(sort_text(f.nodes[i].is_dir, f.nodes[i].path))
}

/// The nodes are sorted: by path, that of a directory with a slash at its
/// end, byte by byte.
pub open spec fn is_sorted(f: FolderModel) -> bool {
    forall|a: int, b: int|
        #![trigger f.nodes[a], f.nodes[b]]
        0 <= a < b < f.nodes.len() ==> bytes_before(node_sort_key(f, a), node_sort_key(f, b)) || node_sort_key(f, a)
            == node_sort_key(f, b)
}

proof fn lemma_tree_sorted(nodes: Seq<NodeModel>, top: Option<int>)
    requires
        top matches Some(t) ==> 0 <= t < nodes.len(),
    ensures
        is_sorted(tree_of(nodes, top)),
{
    let root = match top {
        Some(t) => t,
        None => 0,
    };
    let up = links(nodes, top);
    let f = tree_of(nodes, top);
    let keys = sort_keys(nodes, up, root);
    law_ranking(keys);
    let r = ranking(keys);
    assert forall|a: int, b: int|
        #![trigger f.nodes[a], f.nodes[b]]
        0 <= a < b < f.nodes.len() implies bytes_before(node_sort_key(f, a), node_sort_key(f, b)) || node_sort_key(f, a)
        == node_sort_key(f, b) by {
        assert(sorts_before(keys, r[a], r[b]));
    }
}

/// An open folder is a tree that holds its root first, is sorted, and whose
/// paths are made of names. Nothing lies above the root where a link leads
/// to a node, or where the first node that was listed could be read.
pub proof fn law_open_folder_is_tree(raws: Seq<Option<RawModel>>, key: Seq<char>, specific: Option<Seq<char>>)
    ensures
        opened(raws, key, specific) matches Ok(f) ==> {
            &&& f.root == 0
            &&& is_pathed(f)
            &&& is_sorted(f)
            &&& specific is Some || node_at(raws, b64_decoded(key)->Ok_0, 0) is Some ==> is_rooted(f)
        },
{
    if let Ok(master) = b64_decoded(key) {
        if raws.len() > 0 {
            lemma_first_node(raws, master, raws.len() as int);
        }
        let nodes = nodes_of(raws, master, raws.len() as int);
        lemma_nodes_named(raws, master, raws.len() as int);
        if nodes.len() > 0 {
            lemma_tree_pathed(nodes, None);
            lemma_tree_sorted(nodes, None);
            if let Some(h) = specific {
                lemma_last_with(handles(nodes), h);
                if let Some(i) = last_with(handles(nodes), h) {
                    lemma_tree_pathed(nodes, Some(i));
                    lemma_tree_sorted(nodes, Some(i));
                }
            }
        }
    }
}

/// A folder holds exactly the nodes from which climbing from parent to
/// parent leads to its root, each of them once.
pub proof fn law_folder_holds_subtree(nodes: Seq<NodeModel>, top: Option<int>, i: int)
    requires
        nodes.len() > 0,
        0 <= i < nodes.len(),
        top matches Some(t) ==> 0 <= t < nodes.len(),
    ensures
        ({
            let root = match top {
                Some(t) => t,
                None => 0,
            };
            let up = links(nodes, top);
            let list = listed(nodes, up, root);
            &&& tree_of(nodes, top).nodes.len() == list.len()
            &&& list.contains(i) <==> climbs(up, root, i, nodes.len())
            &&& list.no_duplicates()
            &&& forall|k: int|
                0 <= k < list.len() ==> (#[trigger] tree_of(nodes, top).nodes[k]).handle == nodes[list[k]].handle
        }),
{
    let root = match top {
        Some(t) => t,
        None => 0,
    };
    let up = links(nodes, top);
    lemma_links_in_range(nodes, top);
    lemma_listed(nodes, up, root);
    law_reached_are_descendants(up, root, i);
}

/// A node of a subtree has a path that goes on from that of its top.
pub proof fn law_subtree_paths(f: FolderModel, i: int, n: int)
    requires
        is_pathed(f),
        0 <= i < f.nodes.len(),
        0 <= n < f.nodes.len(),
        is_under(f, i, n),
        i != n,
    ensures
        has_prefix(f.nodes[i].path, f.nodes[n].path.push('/')),
        f.nodes[i].path.len() > f.nodes[n].path.len() + 1,
{
    lemma_subtree_paths(f, i, n, f.nodes.len());
}

proof fn lemma_subtree_paths(f: FolderModel, i: int, n: int, steps: nat)
    requires
        is_pathed(f),
        0 <= i < f.nodes.len(),
        0 <= n < f.nodes.len(),
        at_or_above(tree_parents(f), i, n, steps),
        i != n,
    ensures
        has_prefix(f.nodes[i].path, f.nodes[n].path.push('/')),
        f.nodes[i].path.len() > f.nodes[n].path.len() + 1,
    decreases steps,
{
    let up = tree_parents(f);
    assert(i != f.root);
    let p = up[i]->Some_0;
    assert(f.nodes[i].parent == Some(p));
    assert(is_name(f.nodes[i].name));
    let top = f.nodes[n].path.push('/');
    let path = f.nodes[i].path;
    let above = f.nodes[p].path;
    assert(path == above.push('/') + f.nodes[i].name);
    if p == n {
        assert(path.take(top.len() as int) =~= top);
    } else {
        lemma_subtree_paths(f, p, n, (steps - 1) as nat);
        assert(path.take(top.len() as int) =~= above.take(top.len() as int));
    }
}

/// Where no two nodes share a path, the subtree of a node is what lies below
/// its path.
pub proof fn law_subtree_is_what_lies_below_path(f: FolderModel, i: int, n: int)
    requires
        is_pathed(f),
        0 <= i < f.nodes.len(),
        0 <= n < f.nodes.len(),
        forall|a: int, b: int|
            0 <= a < b < f.nodes.len() ==> (#[trigger] f.nodes[a]).path != (#[trigger] f.nodes[b]).path,
    ensures
        is_under(f, i, n) <==> i == n || has_prefix(f.nodes[i].path, f.nodes[n].path.push('/')),
{
    if is_under(f, i, n) && i != n {
        law_subtree_paths(f, i, n);
    }
    if has_prefix(f.nodes[i].path, f.nodes[n].path.push('/')) {
        lemma_path_above(f, i, n, f.nodes.len());
    }
}

/// Every place where a path can be cut at a slash is the path of a node
/// above.
proof fn lemma_path_above(f: FolderModel, i: int, n: int, steps: nat)
    requires
        is_pathed(f),
        0 <= i < f.nodes.len(),
        0 <= n < f.nodes.len(),
        climbs(tree_parents(f), f.root, i, steps),
        has_prefix(f.nodes[i].path, f.nodes[n].path.push('/')),
        forall|a: int, b: int|
            0 <= a < b < f.nodes.len() ==> (#[trigger] f.nodes[a]).path != (#[trigger] f.nodes[b]).path,
    ensures
        at_or_above(tree_parents(f), i, n, steps),
    decreases steps,
{
    let up = tree_parents(f);
    let top = f.nodes[n].path.push('/');
    let path = f.nodes[i].path;
    let name = f.nodes[i].name;
    let cut = top.len() - 1;
    assert(path[cut] == '/') by {
        assert(path.take(top.len() as int)[cut] == top[cut]);
    }
    assert(is_name(name));
    assert(is_name(f.nodes[n].name));
    if i == f.root {
        assert(path == seq!['/'] + name);
        assert(f.nodes[n].path.len() > 0) by {
            if n != f.root {
                assert(f.nodes[n].parent is Some);
            }
        }
        assert(name[cut - 1] == '/');
        assert(name.contains('/'));
    } else {
        let p = up[i]->Some_0;
        assert(f.nodes[i].parent == Some(p));
        let above = f.nodes[p].path;
        assert(path == above.push('/') + name);
        if cut > above.len() {
            assert(name[cut - above.len() - 1] == '/');
            assert(name.contains('/'));
        } else if cut == above.len() {
            assert(above =~= f.nodes[n].path) by {
                assert forall|x: int| 0 <= x < cut implies above[x] == f.nodes[n].path[x] by {
                    assert(path.take(top.len() as int)[x] == top[x]);
                }
            }
            if p < n {
                assert(f.nodes[p].path != f.nodes[n].path);
            } else if n < p {
                assert(f.nodes[n].path != f.nodes[p].path);
            }
            assert(at_or_above(up, p, n, (steps - 1) as nat));
        } else {
            assert(above.take(top.len() as int) =~= path.take(top.len() as int));
            lemma_path_above(f, p, n, (steps - 1) as nat);
        }
    }
}

/// The files in a subtree, listed in order: each file in it is in the list,
/// nothing else is, and nothing is in it twice.
pub proof fn law_files_below(f: FolderModel, n: int, k: int)
    requires
        0 <= k <= f.nodes.len(),
    ensures
        ({
            let files = files_below(f, n, k);
            &&& forall|a: int, b: int| 0 <= a < b < files.len() ==> #[trigger] files[a] < #[trigger] files[b]
            &&& forall|i: int| files.contains(i) <==> 0 <= i < k && !(#[trigger] f.nodes[i]).is_dir && is_under(f, i, n)
        }),
    decreases k,
{
    if k > 0 {
        law_files_below(f, n, k - 1);
        let before = files_below(f, n, k - 1);
        let files = files_below(f, n, k);
        assert forall|i: int| files.contains(i) <==> 0 <= i < k && !(#[trigger] f.nodes[i]).is_dir && is_under(f, i, n) by {
            assert(before.contains(i) <==> 0 <= i < k - 1 && !f.nodes[i].is_dir && is_under(f, i, n));
            if before.contains(i) {
                let a = choose|a: int| 0 <= a < before.len() && before[a] == i;
                assert(files[a] == i);
            }
            if files.contains(i) && i != k - 1 {
                let a = choose|a: int| 0 <= a < files.len() && files[a] == i;
                assert(before[a] == i);
            }
            if i == k - 1 && !f.nodes[i].is_dir && is_under(f, i, n) {
                assert(files.last() == i);
            }
        }
        assert forall|a: int, b: int| 0 <= a < b < files.len() implies #[trigger] files[a] < #[trigger] files[b] by {
            if b == before.len() {
                let i = before[a];
                assert(before.contains(i));
                assert(!f.nodes[i].is_dir);
            }
        }
    }
}

/// What lies below the root is named from the root on: its path is the
/// root's, a slash and the rest.
pub proof fn law_path_from_root(f: FolderModel, n: int)
    requires
        is_pathed(f),
        0 <= n < f.nodes.len(),
        n != f.root,
    ensures
        f.nodes[n].path == f.nodes[f.root].path.push('/') + path_from_root(f, n),
        path_from_root(f, n).len() > 0,
{
    lemma_climbs_is_above(tree_parents(f), f.root, n, f.nodes.len());
    law_subtree_paths(f, n, f.root);
    let top = f.nodes[f.root].path.push('/');
    let path = f.nodes[n].path;
    assert(path =~= path.take(top.len() as int) + path.skip(top.len() as int));
}

/// A path goes on with a piece that holds no separator.
proof fn lemma_split_one_more(a: Seq<char>, b: Seq<char>, sep: char)
    requires
        !b.contains(sep),
    ensures
        split_on(a.push(sep) + b, sep) == split_on(a, sep).push(b),
    decreases b.len(),
{
    let all = a.push(sep) + b;
    if b.len() == 0 {
        assert(all.drop_last() =~= a);
        assert(b =~= Seq::empty());
    } else {
        let c = b.drop_last();
        assert forall|i: int| 0 <= i < c.len() implies #[trigger] c[i] != sep by {
            assert(b[i] != sep) by {
                assert(b.contains(b[i]));
            }
        }
        lemma_split_one_more(a, c, sep);
        assert(all.drop_last() =~= a.push(sep) + c);
        assert(b.contains(b.last()));
        let before = split_on(a, sep).push(c);
        assert(before.drop_last() =~= split_on(a, sep));
        assert(c.push(b.last()) =~= b);
    }
}

/// A text without the separator is one piece.
proof fn lemma_split_none(b: Seq<char>, sep: char)
    requires
        !b.contains(sep),
    ensures
        split_on(b, sep) == seq![b],
    decreases b.len(),
{
    if b.len() == 0 {
        assert(b =~= Seq::empty());
    } else {
        let c = b.drop_last();
        assert forall|i: int| 0 <= i < c.len() implies #[trigger] c[i] != sep by {
            assert(b.contains(b[i]));
        }
        lemma_split_none(c, sep);
        assert(b.contains(b.last()));
        assert(c.push(b.last()) =~= b);
        assert(seq![c].drop_last().push(b) =~= seq![b]);
    }
}

/// Every piece of a path from the root on is a name, so it leads to a place
/// below the directory that it is taken from, whatever the server listed.
pub proof fn law_paths_are_made_of_names(f: FolderModel, n: int)
    requires
        is_pathed(f),
        0 <= n < f.nodes.len(),
    ensures
        forall|k: int|
            0 <= k < split_on(path_from_root(f, n), '/').len() ==> is_name(#[trigger] split_on(path_from_root(f, n), '/')[k]),
{
    assert(climbs(tree_parents(f), f.root, n, f.nodes.len()));
    lemma_pieces_are_names(f, n, f.nodes.len());
}

proof fn lemma_pieces_are_names(f: FolderModel, n: int, steps: nat)
    requires
        is_pathed(f),
        0 <= n < f.nodes.len(),
        climbs(tree_parents(f), f.root, n, steps),
    ensures
        forall|k: int|
            0 <= k < split_on(path_from_root(f, n), '/').len() ==> is_name(#[trigger] split_on(path_from_root(f, n), '/')[k]),
    decreases steps,
{
    let name = f.nodes[n].name;
    assert(is_name(name));
    if n == f.root {
        lemma_split_none(name, '/');
    } else {
        law_path_from_root(f, n);
        let p = f.nodes[n].parent->Some_0;
        assert(tree_parents(f)[n] == Some(p));
        assert(0 <= p < f.nodes.len());
        let top = f.nodes[f.root].path.push('/');
        if p == f.root {
            assert(path_from_root(f, n) =~= name);
            lemma_split_none(name, '/');
        } else {
            law_path_from_root(f, p);
            lemma_pieces_are_names(f, p, (steps - 1) as nat);
            let above = path_from_root(f, p);
            assert(f.nodes[n].path =~= top + (above.push('/') + name));
            assert(path_from_root(f, n) =~= above.push('/') + name);
            lemma_split_one_more(above, name, '/');
        }
    }
}

/// Every node has a key of the length that its type asks for.
pub open spec fn all_keyed(nodes: Seq<NodeModel>) -> bool {
    forall|i: int|
        0 <= i < nodes.len() ==> (#[trigger] nodes[i]).key.len() == if nodes[i].is_dir {
            16int
        } else {
            32int
        }
}

proof fn lemma_nodes_keyed(raws: Seq<Option<RawModel>>, master: Seq<u8>, n: int)
    ensures
        all_keyed(nodes_of(raws, master, n)),
    decreases n,
{
    if n > 0 {
        lemma_nodes_keyed(raws, master, n - 1);
    }
}

proof fn lemma_tree_keyed(nodes: Seq<NodeModel>, top: Option<int>)
    requires
        all_keyed(nodes),
        nodes.len() > 0,
        top matches Some(t) ==> 0 <= t < nodes.len(),
    ensures
        all_keyed(tree_of(nodes, top).nodes),
{
    let root = match top {
        Some(t) => t,
        None => 0,
    };
    let up = links(nodes, top);
    let list = listed(nodes, up, root);
    let f = tree_of(nodes, top);
    lemma_listed(nodes, up, root);
    assert forall|k: int| 0 <= k < f.nodes.len() implies (#[trigger] f.nodes[k]).key.len() == if f.nodes[k].is_dir {
        16int
    } else {
        32int
    } by {
        assert(f.nodes[k].key == nodes[list[k]].key);
    }
}

/// In an open folder every folder has a key of 16 bytes and every file one
/// of 32: what could not be decrypted is left out.
pub proof fn law_open_folder_has_keys(raws: Seq<Option<RawModel>>, key: Seq<char>, specific: Option<Seq<char>>)
    ensures
        opened(raws, key, specific) matches Ok(f) ==> all_keyed(f.nodes),
{
    if let Ok(master) = b64_decoded(key) {
        let nodes = nodes_of(raws, master, raws.len() as int);
        lemma_nodes_keyed(raws, master, raws.len() as int);
        if nodes.len() > 0 {
            lemma_tree_keyed(nodes, None);
            if let Some(h) = specific {
                lemma_last_with(handles(nodes), h);
                if let Some(i) = last_with(handles(nodes), h) {
                    lemma_tree_keyed(nodes, Some(i));
                }
            }
        }
    }
}

/// An open folder without two nodes of one path.
pub open spec fn is_unambiguous(f: FolderModel) -> bool {
    &&& is_pathed(f)
    &&& is_sorted(f)
    &&& forall|a: int, b: int|
        0 <= a < b < f.nodes.len() ==> (#[trigger] f.nodes[a]).path != (#[trigger] f.nodes[b]).path
}

/// An open folder without two nodes of one path, and with directories for
/// parents.
pub open spec fn is_plain(f: FolderModel) -> bool {
    is_unambiguous(f) && parents_are_dirs(f)
}

/// Only directories have something below them.
pub open spec fn parents_are_dirs(f: FolderModel) -> bool {
    forall|a: int|
        0 <= a < f.nodes.len() && a != f.root ==> f.nodes[(#[trigger] f.nodes[a]).parent->Some_0].is_dir
}

pub proof fn lemma_path_ends(f: FolderModel, i: int)
    requires
        is_pathed(f),
        0 <= i < f.nodes.len(),
    ensures
        f.nodes[i].path.len() > 1,
        f.nodes[i].path.last() != '/',
{
    let n = f.nodes[i];
    assert(is_name(n.name));
    if n.name.last() == '/' {
        assert(n.name.contains('/'));
    }
    if i != f.root {
        assert(n.parent is Some);
    }
    assert(n.path.last() == n.name.last());
}

/// Of two nodes, the one that stands first has the smaller sort key.
pub proof fn lemma_strictly_sorted(f: FolderModel, a: int, b: int)
    requires
        is_unambiguous(f),
        0 <= a < b < f.nodes.len(),
    ensures
        bytes_before(node_sort_key(f, a), node_sort_key(f, b)),
{
    let x = f.nodes[a];
    let y = f.nodes[b];
    if node_sort_key(f, a) == node_sort_key(f, b) {
        let s = sort_text(x.is_dir, x.path);
        let t = sort_text(y.is_dir, y.path);
        encode_utf8_decode_utf8(s);
        encode_utf8_decode_utf8(t);
        assert(s == t);
        lemma_path_ends(f, a);
        lemma_path_ends(f, b);
        if x.is_dir {
            assert(s.last() == '/');
            assert(y.is_dir);
            assert(x.path =~= s.drop_last());
            assert(y.path =~= t.drop_last());
        } else {
            assert(s.last() == x.path.last());
            assert(!y.is_dir) by {
                if y.is_dir {
                    assert(t.last() == '/');
                }
            }
        }
        assert(x.path != y.path);
    }
}

/// The node with the smaller sort key stands first.
pub proof fn lemma_sorted_position(f: FolderModel, a: int, b: int)
    requires
        is_unambiguous(f),
        0 <= a < f.nodes.len(),
        0 <= b < f.nodes.len(),
        bytes_before(node_sort_key(f, a), node_sort_key(f, b)),
    ensures
        a < b,
{
    let keys = seq![node_sort_key(f, a), node_sort_key(f, b)];
    assert(sorts_before(keys, 0, 1));
    lemma_sorts_asymmetric(keys, 0, 1);
    assert(!bytes_before(keys[1], keys[0]));
    if b < a {
        lemma_strictly_sorted(f, b, a);
    } else if a == b {
        assert(!bytes_before(keys[0], keys[0])) by {
            if bytes_before(keys[0], keys[0]) {
                assert(keys[0] == keys[1]);
            }
        }
    }
}

/// Of the slash-separated parts of a node's `k`, the first one whose handle
/// has a known share key decides, wherever it stands: the node's key is what
/// the rest of that part unwraps to, if it is of the length that the node's
/// type asks for. No other part is looked at.
pub proof fn law_first_known_part_decides(
    r: RawModel,
    keys: Map<Seq<char>, Seq<u8>>,
    parts: Seq<Seq<char>>,
    j: int,
    h: Seq<char>,
    wrapped: Seq<char>,
)
    requires
        decides(r.k, keys, parts, j, h, wrapped),
    ensures
        key_of(r, keys) is Some <==> wrapped.len() > 0 && encode_utf8(wrapped).len() < 46 && (ecb_decrypted(
            keys[h],
            wrapped,
        ) matches Ok(key) && key.len() == key_len(r.t)),
        key_of(r, keys) is Some ==> key_of(r, keys)->Some_0 == ecb_decrypted(keys[h], wrapped)->Ok_0,
{
    lemma_decides(r.k, keys, parts, j, h, wrapped);
}

/// A node that brings one wrapped key, for a handle whose share key is
/// known, has the key that this one unwraps to.
pub proof fn law_lone_key_is_taken(
    r: RawModel,
    keys: Map<Seq<char>, Seq<u8>>,
    h: Seq<char>,
    wrapped: Seq<char>,
    key: Seq<u8>,
)
    requires
        r.k == h + seq![':'] + wrapped,
        !h.contains(':') && !h.contains('/') && !wrapped.contains('/'),
        keys.contains_key(h),
        wrapped.len() > 0 && encode_utf8(wrapped).len() < 46,
        key.len() == key_len(r.t),
    ensures
        ecb_decrypted(keys[h], wrapped) == Ok::<Seq<u8>, Seq<char>>(key) ==> key_of(r, keys) == Some(key),
{
    let parts = seq![r.k];
    assert(r.k =~= h.push(':') + wrapped);
    assert(is_pair(parts[0], h, wrapped));
    assert(!r.k.contains('/')) by {
        if r.k.contains('/') {
            let i = choose|i: int| 0 <= i < r.k.len() && r.k[i] == '/';
            if i < h.len() {
                assert(h[i] == '/');
            } else if i > h.len() {
                assert(wrapped[i - h.len() - 1] == '/');
            }
        }
    }
    law_first_known_part_decides(r, keys, parts, 0, h, wrapped);
    if ecb_decrypted(keys[h], wrapped) == Ok::<Seq<u8>, Seq<char>>(key) {
        assert(key_of(r, keys) == Some(key));
    }
}

proof fn lemma_none_known(parts: Seq<Seq<char>>, i: int, keys: Map<Seq<char>, Seq<u8>>)
    requires
        0 <= i <= parts.len(),
        forall|a: int| i <= a < parts.len() ==> !is_known(#[trigger] parts[a], keys),
    ensures
        wrapped_in(parts, i, keys) is None,
    decreases parts.len() - i,
{
    if i < parts.len() {
        lemma_not_known(parts[i], keys);
        lemma_none_known(parts, i + 1, keys);
    }
}

/// A node none of whose parts is for a known share key has no key, and
/// cannot be decrypted.
pub proof fn law_unknown_keys_give_nothing(r: RawModel, keys: Map<Seq<char>, Seq<u8>>, parts: Seq<Seq<char>>)
    requires
        parts.len() > 0,
        forall|i: int| 0 <= i < parts.len() ==> !(#[trigger] parts[i]).contains('/'),
        r.k == with_between(parts, '/'),
        forall|i: int| 0 <= i < parts.len() ==> !is_known(#[trigger] parts[i], keys),
    ensures
        key_of(r, keys) is None,
        node_of(r, keys) is None,
{
    law_splitting_undoes_joining(parts, '/');
    lemma_none_known(parts, 0, keys);
}

/// A complete node with a share key of its own makes it known under the
/// node's handle, and touches no other one. A node without one, or with one
/// that is no wrapped key of 16 bytes, changes nothing.
pub proof fn law_share_key_is_stored(keys: Map<Seq<char>, Seq<u8>>, r: RawModel, master: Seq<u8>, h: Seq<char>)
    ensures
        h != r.h ==> keys_with(keys, r, master).contains_key(h) == keys.contains_key(h) && (keys.contains_key(h)
            ==> keys_with(keys, r, master)[h] == keys[h]),
        r.sk.len() == 0 || r.h.len() == 0 || r.a.len() == 0 || r.k.len() == 0 || !(0 <= r.t <= 1) ==> keys_with(
            keys,
            r,
            master,
        ) == keys,
        ecb_decrypted(master, r.sk) matches Ok(plain) ==> {
            &&& plain.len() != 16 || encode_utf8(r.sk).len() > 22 ==> keys_with(keys, r, master) == keys
            &&& plain.len() == 16 && is_complete(r) && r.sk.len() > 0 && encode_utf8(r.sk).len() <= 22 ==> keys_with(
                keys,
                r,
                master,
            ).contains_key(r.h) && keys_with(keys, r, master)[r.h] == plain
        },
        ecb_decrypted(master, r.sk) is Err ==> keys_with(keys, r, master) == keys,
{
}

/// Entry `i` of a listing brings the share key `plain`.
pub open spec fn brings(raws: Seq<Option<RawModel>>, master: Seq<u8>, i: int, plain: Seq<u8>) -> bool {
    raws[i] matches Some(r) && r.h.len() > 0 && r.a.len() > 0 && r.k.len() > 0 && 0 <= r.t <= 1 && r.sk.len() > 0
        && encode_utf8(r.sk).len() <= 22 && plain.len() == 16 && ecb_decrypted(master, r.sk) == Ok::<
        Seq<u8>,
        Seq<char>,
    >(plain)
}

/// Entry `i` of a listing is no node with the handle `h` and a share key.
pub open spec fn leaves_key(raws: Seq<Option<RawModel>>, i: int, h: Seq<char>) -> bool {
    raws[i] matches Some(r) ==> r.h != h || r.sk.len() == 0
}

/// The share key of a listed node is known to it and to all that follow,
/// until another one with the same handle replaces it.
pub proof fn law_share_keys_stay_known(raws: Seq<Option<RawModel>>, master: Seq<u8>, i: int, plain: Seq<u8>, n: int)
    requires
        0 <= i < n <= raws.len(),
        brings(raws, master, i, plain),
        forall|j: int| i < j < n ==> #[trigger] leaves_key(raws, j, raws[i]->Some_0.h),
    ensures
        keys_after(raws, master, n).contains_key(raws[i]->Some_0.h),
        keys_after(raws, master, n)[raws[i]->Some_0.h] == plain,
    decreases n,
{
    if n > i + 1 {
        law_share_keys_stay_known(raws, master, i, plain, n - 1);
        assert(leaves_key(raws, n - 1, raws[i]->Some_0.h));
    }
}

/// The link's own key is the share key of the first node that is listed, for
/// itself and for all that follow, unless one of them brings another.
pub proof fn law_link_key_opens_the_root(raws: Seq<Option<RawModel>>, master: Seq<u8>, n: int)
    requires
        1 <= n <= raws.len(),
        raws[0] is Some,
        forall|j: int| 0 <= j < n ==> #[trigger] leaves_key(raws, j, raws[0]->Some_0.h),
    ensures
        keys_after(raws, master, n).contains_key(raws[0]->Some_0.h),
        keys_after(raws, master, n)[raws[0]->Some_0.h] == master,
    decreases n,
{
    assert(leaves_key(raws, n - 1, raws[0]->Some_0.h));
    if n > 1 {
        law_link_key_opens_the_root(raws, master, n - 1);
    } else {
        assert(keys_after(raws, master, 0) == Map::<Seq<char>, Seq<u8>>::empty());
    }
}

/// A decrypted node keeps the handle, the parent's handle, the type and the
/// size that were listed, and has the key and the name that were decrypted.
/// A node with all of these is decrypted; one that lacks a handle,
/// attributes or keys, or is neither file nor folder, is not.
pub proof fn law_nodes_keep_what_was_listed(r: RawModel, keys: Map<Seq<char>, Seq<u8>>)
    ensures
        node_of(r, keys) matches Some(x) ==> {
            &&& x.handle == r.h
            &&& x.parent_handle == r.p
            &&& x.size == r.s
            &&& x.is_dir <==> r.t == 1
            &&& !x.is_dir <==> r.t == 0
            &&& key_of(r, keys) == Some(x.key)
            &&& name_of(r, x.key) == Some(x.name)
            &&& x.key.len() == key_len(r.t)
        },
        node_of(r, keys) is Some <==> {
            &&& r.h.len() > 0 && r.a.len() > 0 && r.k.len() > 0
            &&& r.t == 0 || r.t == 1
            &&& key_of(r, keys) matches Some(key) && name_of(r, key) is Some
        },
{
}

/// A folder's attributes open with its own key, a file's with the XOR of
/// the halves of its key. What they hold is made safe, and a name that
/// cannot be made safe is no name.
pub proof fn law_names_come_out_of_attributes(r: RawModel, key: Seq<u8>, k: Seq<u8>, name: Seq<char>)
    requires
        k.len() == 16,
        key.len() == key_len(r.t),
        r.t == 1 ==> k == key,
        r.t != 1 ==> forall|i: int| 0 <= i < 16 ==> #[trigger] k[i] == key[i] ^ key[i + 16],
        attributes_name(k, r.a) == Ok::<Seq<char>, Seq<char>>(name),
    ensures
        match safe_name(name) {
            Ok(s) => name_of(r, key) == Some(s),
            Err(_) => name_of(r, key) is None,
        },
{
    if r.t != 1 {
        assert(k =~= folded_key(key));
    }
}

/// Node `x` is what entry `e` of a listing gives, wherever it was placed
/// since: handle, type, size, key and name are those of the entry.
pub open spec fn comes_from(raws: Seq<Option<RawModel>>, master: Seq<u8>, e: int, x: NodeModel) -> bool {
    &&& 0 <= e < raws.len()
    &&& raws[e] matches Some(r) && {
        &&& x.handle == r.h && x.handle.len() > 0
        &&& x.size == r.s
        &&& x.is_dir <==> r.t == 1
        &&& !x.is_dir <==> r.t == 0
        &&& key_of(r, keys_after(raws, master, e + 1)) == Some(x.key)
        &&& name_of(r, x.key) == Some(x.name)
        &&& x.parent_handle.len() == 0 || x.parent_handle == r.p
    }
}

proof fn lemma_nodes_come_from(raws: Seq<Option<RawModel>>, master: Seq<u8>, n: int, k: int)
    requires
        0 <= n <= raws.len(),
        0 <= k < nodes_of(raws, master, n).len(),
    ensures
        exists|e: int| #[trigger] comes_from(raws, master, e, nodes_of(raws, master, n)[k]),
    decreases n,
{
    if n > 0 {
        let before = nodes_of(raws, master, n - 1);
        if k < before.len() {
            lemma_nodes_come_from(raws, master, n - 1, k);
            let e = choose|e: int| #[trigger] comes_from(raws, master, e, before[k]);
            assert(comes_from(raws, master, e, nodes_of(raws, master, n)[k]));
        } else {
            assert(comes_from(raws, master, n - 1, nodes_of(raws, master, n)[k]));
        }
    }
}

proof fn lemma_tree_comes_from(raws: Seq<Option<RawModel>>, master: Seq<u8>, top: Option<int>, k: int)
    requires
        ({
            let nodes = nodes_of(raws, master, raws.len() as int);
            &&& nodes.len() > 0
            &&& top matches Some(t) ==> 0 <= t < nodes.len()
            &&& 0 <= k < tree_of(nodes, top).nodes.len()
        }),
    ensures
        exists|e: int| #[trigger] comes_from(
            raws,
            master,
            e,
            tree_of(nodes_of(raws, master, raws.len() as int), top).nodes[k],
        ),
{
    let nodes = nodes_of(raws, master, raws.len() as int);
    let root = match top {
        Some(t) => t,
        None => 0,
    };
    let up = links(nodes, top);
    let list = listed(nodes, up, root);
    lemma_listed(nodes, up, root);
    let i = list[k];
    lemma_nodes_come_from(raws, master, raws.len() as int, i);
    let e = choose|e: int| #[trigger] comes_from(raws, master, e, nodes[i]);
    assert(comes_from(raws, master, e, tree_of(nodes, top).nodes[k]));
}

/// Every node of an open folder stands for an entry of the listing, with
/// that entry's handle, type and size, and the key and name that were
/// decrypted out of it.
pub proof fn law_open_folder_comes_from_listing(
    raws: Seq<Option<RawModel>>,
    key: Seq<char>,
    specific: Option<Seq<char>>,
    k: int,
)
    ensures
        opened(raws, key, specific) matches Ok(f) && 0 <= k < f.nodes.len() ==> exists|e: int| #[trigger]
            comes_from(raws, b64_decoded(key)->Ok_0, e, opened(raws, key, specific)->Ok_0.nodes[k]),
{
    if let Ok(f) = opened(raws, key, specific) {
        if 0 <= k < f.nodes.len() {
            let master = b64_decoded(key)->Ok_0;
            let nodes = nodes_of(raws, master, raws.len() as int);
            match specific {
                None => {
                    lemma_tree_comes_from(raws, master, None, k);
                },
                Some(h) => {
                    lemma_last_with(handles(nodes), h);
                    lemma_tree_comes_from(raws, master, last_with(handles(nodes), h), k);
                },
            }
        }
    }
}

/// Every entry that can be decrypted is a node, in the order of the listing;
/// one that cannot be is passed over.
pub proof fn law_readable_entries_are_nodes(raws: Seq<Option<RawModel>>, master: Seq<u8>, n: int)
    requires
        0 <= n < raws.len(),
    ensures
        ({
            let before = nodes_of(raws, master, n);
            let after = nodes_of(raws, master, n + 1);
            match raws[n] {
                None => after == before,
                Some(r) => match node_of(r, keys_after(raws, master, n + 1)) {
                    None => after == before,
                    Some(x) => {
                        &&& after.len() == before.len() + 1
                        &&& after.drop_last() == before
                        &&& after.last().handle == x.handle && after.last().name == x.name && after.last().key == x.key
                        &&& after.last().size == x.size && after.last().is_dir == x.is_dir
                        &&& n > 0 ==> after.last().parent_handle == x.parent_handle
                        &&& n == 0 ==> after.last().parent_handle.len() == 0
                    },
                },
            }
        }),
        nodes_of(raws, master, 0).len() == 0,
{
    let before = nodes_of(raws, master, n);
    let after = nodes_of(raws, master, n + 1);
    if after.len() == before.len() + 1 {
        assert(after.drop_last() =~= before);
    }
}

proof fn lemma_tree_parents_have_handles(nodes: Seq<NodeModel>, top: Option<int>, k: int)
    requires
        nodes.len() > 0,
        top matches Some(t) ==> 0 <= t < nodes.len(),
        0 <= k < tree_of(nodes, top).nodes.len(),
    ensures
        ({
            let f = tree_of(nodes, top);
            f.nodes[k].parent matches Some(p) ==> 0 <= p < f.nodes.len() && f.nodes[p].handle
                == f.nodes[k].parent_handle
        }),
{
    let root = match top {
        Some(t) => t,
        None => 0,
    };
    let up = links(nodes, top);
    let list = listed(nodes, up, root);
    let f = tree_of(nodes, top);
    lemma_listed(nodes, up, root);
    let i = list[k];
    if let Some(q) = f.nodes[k].parent {
        let p = up[i]->Some_0;
        lemma_last_with(handles(nodes), nodes[i].parent_handle);
        assert(handles(nodes)[p] == nodes[p].handle);
        assert(list.contains(p));
        assert(list[q] == p);
    }
}

/// The parent of a node in an open folder is the node that the listing names
/// as its parent.
pub proof fn law_parents_have_the_handle(
    raws: Seq<Option<RawModel>>,
    key: Seq<char>,
    specific: Option<Seq<char>>,
    k: int,
)
    ensures
        opened(raws, key, specific) matches Ok(f) && 0 <= k < f.nodes.len() && f.nodes[k].parent is Some ==> {
            let f = opened(raws, key, specific)->Ok_0;
            let p = f.nodes[k].parent->Some_0;
            0 <= p < f.nodes.len() && f.nodes[p].handle == f.nodes[k].parent_handle
        },
{
    if let Ok(f) = opened(raws, key, specific) {
        if 0 <= k < f.nodes.len() {
            let nodes = nodes_of(raws, b64_decoded(key)->Ok_0, raws.len() as int);
            match specific {
                None => {
                    lemma_tree_parents_have_handles(nodes, None, k);
                },
                Some(h) => {
                    lemma_last_with(handles(nodes), h);
                    lemma_tree_parents_have_handles(nodes, last_with(handles(nodes), h), k);
                },
            }
        }
    }
}

/// A link to a node opens the folder at that node.
pub proof fn law_link_leads_to_its_node(raws: Seq<Option<RawModel>>, key: Seq<char>, h: Seq<char>)
    ensures
        opened(raws, key, Some(h)) matches Ok(f) ==> {
            &&& 0 <= f.root < f.nodes.len()
            &&& f.nodes[f.root].handle == h
            &&& f.nodes[f.root].parent is None
            &&& f.nodes[f.root].parent_handle.len() == 0
        },
{
    if let Ok(f) = opened(raws, key, Some(h)) {
        let nodes = nodes_of(raws, b64_decoded(key)->Ok_0, raws.len() as int);
        lemma_last_with(handles(nodes), h);
        let t = last_with(handles(nodes), h)->Some_0;
        assert(handles(nodes)[t] == nodes[t].handle);
        let up = links(nodes, Some(t));
        let list = listed(nodes, up, t);
        lemma_listed(nodes, up, t);
        lemma_reached(up, t);
        assert(reached(up, t).contains(t));
        assert(list.contains(t));
    }
}

/// A folder opens exactly where the key decodes to 16 bytes, a node was
/// listed that can be decrypted, and the node that the link asks for is one
/// of these. What goes wrong first is what is complained about.
pub proof fn law_when_folders_open(raws: Seq<Option<RawModel>>, key: Seq<char>, specific: Option<Seq<char>>)
    ensures
        ({
            let o = opened(raws, key, specific);
            match b64_decoded(key) {
                Err(e) => o == Err::<FolderModel, Seq<char>>(e),
                Ok(master) => {
                    let nodes = nodes_of(raws, master, raws.len() as int);
                    &&& o is Ok <==> master.len() == 16 && nodes.len() > 0 && (specific matches Some(h)
                        ==> exists|i: int| 0 <= i < nodes.len() && (#[trigger] nodes[i]).handle == h)
                    &&& master.len() != 16 ==> o == Err::<FolderModel, Seq<char>>("invalid folder key"@)
                    &&& master.len() == 16 && raws.len() == 0 ==> o == Err::<FolderModel, Seq<char>>(
                        "folder listing returned no nodes"@,
                    )
                    &&& master.len() == 16 && raws.len() > 0 && nodes.len() == 0 ==> o == Err::<FolderModel, Seq<char>>(
                        "no decryptable nodes in folder"@,
                    )
                    &&& master.len() == 16 && nodes.len() > 0 && o is Err ==> o == Err::<FolderModel, Seq<char>>(
                        "node not found: "@ + specific->Some_0,
                    )
                },
            }
        }),
{
    if let Ok(master) = b64_decoded(key) {
        let nodes = nodes_of(raws, master, raws.len() as int);
        assert(raws.len() == 0 ==> nodes.len() == 0);
        if let Some(h) = specific {
            lemma_last_with(handles(nodes), h);
            if let Some(i) = last_with(handles(nodes), h) {
                assert(handles(nodes)[i] == nodes[i].handle);
            } else {
                assert forall|i: int| 0 <= i < nodes.len() implies (#[trigger] nodes[i]).handle != h by {
                    lemma_last_with_found(handles(nodes), i);
                    assert(handles(nodes)[i] == nodes[i].handle);
                }
            }
        }
    }
}

/// A reply that holds a transfer address and a size gives both, whatever
/// else it holds; one without an address, or with a size below zero, gives
/// nothing. An empty file has a size too.
pub proof fn law_transfer_replies(m: Map<Seq<char>, Json>, url: Seq<char>, size: i64)
    requires
        m.contains_pair("g"@, Json::Text(url)),
        m.contains_key("s"@) && m["s"@].integer() == Some(size),
    ensures
        url.len() > 0 && size >= 0 ==> transfer_of(Json::Object(m)) == Some((url, size)),
        url.len() == 0 || size < 0 ==> transfer_of(Json::Object(m)) is None,
        transfer_of(Json::Object(m.remove("g"@))) is None,
        transfer_of(Json::Object(m.remove("s"@))) is None,
{
}

/// The entries of a listing are those under `f`, all of them in order.
pub proof fn law_listing_replies(m: Map<Seq<char>, Json>, items: Seq<Json>)
    requires
        m.contains_pair("f"@, Json::Array(items)),
    ensures
        items.len() > 0 ==> listing_of(Json::Object(m)) == Some(items),
        items.len() == 0 ==> listing_of(Json::Object(m)) is None,
        listing_of(Json::Object(m.remove("f"@))) is None,
{
}

/// Where several nodes have one handle, the last of them goes by it; a handle
/// is found exactly where some node has it.
pub proof fn law_last_node_has_the_handle(hs: Seq<Seq<char>>, h: Seq<char>, i: int)
    requires
        -1 <= i < hs.len(),
        i >= 0 ==> hs[i] == h,
        forall|j: int| i < j < hs.len() ==> #[trigger] hs[j] != h,
    ensures
        i >= 0 ==> last_with(hs, h) == Some(i),
        i == -1 ==> last_with(hs, h) is None,
    decreases hs.len(),
{
    if hs.len() > 0 && hs.last() != h {
        let head = hs.drop_last();
        assert forall|j: int| i < j < head.len() implies #[trigger] head[j] != h by {
            assert(hs[j] != h);
        }
        assert(i < hs.len() - 1);
        if i >= 0 {
            assert(head[i] == h);
        }
        law_last_node_has_the_handle(head, h, i);
    } else if hs.len() > 0 {
        assert(hs[hs.len() - 1] == h);
        assert(i == hs.len() - 1);
    }
}

} // verus!
