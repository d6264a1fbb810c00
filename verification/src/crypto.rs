//! Node keys, encrypted attributes and safe file names.

use vstd::prelude::*;
use vstd::string::*;

use serde_json::Value;

use crate::base64::{b64_decoded, b64_text, law_decode_undoes_encode};
pub use crate::base64::{b64decode, b64encode};
pub use crate::cipher::ctr_at;
use crate::cipher::{
    aes128_decrypt, aes128_encrypt, cipher_key, decrypt_block, invalid_length_text,
    new_cipher_from_slice,
};
use crate::json::{json_document, json_of, read_document, text_field, Json};
pub use crate::mac::ChunkedMac;
use crate::mac::{block_at, xor16, xor_blocks};
use crate::text::{chars_of, decimal, push_decimal, string_of};

verus! {

/// A 32-byte node key, unpacked into its parts.
#[derive(Clone, Copy)]
pub struct FileKey {
    pub aes: [u8; 16],
    pub nonce: [u8; 8],
    pub meta_mac: [u8; 8],
}

/// The AES key in a node key: its halves, XORed.
pub open spec fn folded_key(k: Seq<u8>) -> Seq<u8> {
    Seq::new(16, |i: int| k[i] ^ k[i + 16])
}

/// `key` is `k` taken apart.
pub open spec fn unpacks_to(k: Seq<u8>, key: FileKey) -> bool {
    &&& key.aes@ == folded_key(k)
    &&& key.nonce@ == k.subrange(16, 24)
    &&& key.meta_mac@ == k.subrange(24, 32)
}

/// The complaint about a file key that is `len` bytes long.
pub open spec fn key_length_error(len: nat) -> Seq<char> {
    "file key is "@ + decimal(len) + " bytes, want 32"@
}

fn eight_at(k: &[u8], from: usize) -> (out: [u8; 8])
    requires
        from + 8 <= k@.len(),
    ensures
        out@ == k@.subrange(from as int, from + 8),
{
    let total: usize = k.len();
    let mut out = [0u8; 8];
    let mut i: usize = 0;
    while i < 8
        invariant
            i <= 8,
            from + 8 <= total == k@.len(),
            forall|j: int| 0 <= j < i ==> #[trigger] out@[j] == k@[from + j],
        decreases 8 - i,
    {
        out[i] = k[from + i];
        i += 1;
    }
    assert(out@ =~= k@.subrange(from as int, from + 8));
    out
}

/// Takes a 32-byte node key apart.
pub fn unpack_file_key(node_key: &[u8]) -> (r: Result<FileKey, String>)
    ensures
        match r {
            Ok(key) => node_key@.len() == 32 && unpacks_to(node_key@, key),
            Err(e) => node_key@.len() != 32 && e@ == key_length_error(node_key@.len()),
        },
{
    if node_key.len() != 32 {
        let mut message = String::new();
        message.append("file key is ");
        push_decimal(&mut message, node_key.len() as u64);
        message.append(" bytes, want 32");
        assert(message@ =~= key_length_error(node_key@.len()));
        return Err(message);
    }
    let low = block_at(node_key, 0);
    let high = block_at(node_key, 16);
    let aes = xor_blocks(&low, &high);
    assert(aes@ =~= folded_key(node_key@));
    Ok(FileKey { aes, nonce: eight_at(node_key, 16), meta_mac: eight_at(node_key, 24) })
}

/// Blocks decrypted one by one.
pub open spec fn ecb_plain(key: Seq<u8>, d: Seq<u8>) -> Seq<u8> {
    Seq::new(
        d.len(),
        |i: int| aes128_decrypt(key, d.subrange(i / 16 * 16, i / 16 * 16 + 16))[i % 16],
    )
}

/// What unwrapping a key blob gives.
pub open spec fn ecb_decrypted(key: Seq<u8>, s: Seq<char>) -> Result<Seq<u8>, Seq<char>> {
    match b64_decoded(s) {
        Err(e) => Err(e),
        Ok(d) => if d.len() == 0 || d.len() % 16 != 0 {
            Err("cipher length "@ + decimal(d.len()) + " not a block multiple"@)
        } else if key.len() != 16 {
            Err("Invalid Length"@)
        } else {
            Ok(ecb_plain(key, d))
        },
    }
}

/// The `k`th block of `d`.
pub open spec fn block_of(d: Seq<u8>, k: int) -> Seq<u8> {
    d.subrange(16 * k, 16 * k + 16)
}

/// Decrypting the block gives back whatever was encrypted into it.
pub open spec fn opens(key: Seq<u8>, block: Seq<u8>) -> bool {
    forall|plain: Seq<u8>|
        plain.len() == 16 && #[trigger] aes128_encrypt(key, plain) == block ==> aes128_decrypt(key, block) == plain
}

/// Decrypting each of the first `n` blocks gives back what was encrypted
/// into it.
pub open spec fn all_open(key: Seq<u8>, d: Seq<u8>, n: int) -> bool {
    forall|k: int| 0 <= k < n ==> opens(key, #[trigger] block_of(d, k))
}

/// `d` is made of the blocks of `plain`, each of them encrypted.
pub open spec fn is_ecb_of(key: Seq<u8>, plain: Seq<u8>, d: Seq<u8>) -> bool {
    &&& d.len() == plain.len()
    &&& plain.len() % 16 == 0
    &&& forall|k: int|
        0 <= k < plain.len() / 16 ==> #[trigger] block_of(d, k) == aes128_encrypt(key, block_of(plain, k))
}

/// `s` is a key blob in which `plain` is wrapped: its blocks encrypted, in
/// base64.
pub open spec fn wraps(key: Seq<u8>, plain: Seq<u8>, s: Seq<char>) -> bool {
    plain.len() > 0 && exists|d: Seq<u8>| #[trigger] is_ecb_of(key, plain, d) && s == b64_text(d)
}

proof fn lemma_wraps(key: Seq<u8>, plain: Seq<u8>, s: Seq<char>)
    requires
        wraps(key, plain, s),
    ensures
        b64_decoded(s) matches Ok(d) && is_ecb_of(key, plain, d) && d.len() > 0,
{
    let d = choose|d: Seq<u8>| #[trigger] is_ecb_of(key, plain, d) && s == b64_text(d);
    law_decode_undoes_encode(d, 0);
    assert(s + Seq::new(0, |i: int| '=') =~= s);
}

proof fn lemma_ecb_reads_back(key: Seq<u8>, plain: Seq<u8>, d: Seq<u8>)
    requires
        is_ecb_of(key, plain, d),
        all_open(key, d, (d.len() / 16) as int),
    ensures
        ecb_plain(key, d) == plain,
{
    assert forall|i: int| 0 <= i < d.len() implies #[trigger] ecb_plain(key, d)[i] == plain[i] by {
        let k = i / 16;
        assert(block_of(d, k) == aes128_encrypt(key, block_of(plain, k)));
        assert(opens(key, block_of(d, k)));
        assert(16 * k == i / 16 * 16);
        assert(block_of(plain, k)[i % 16] == plain[i]);
    }
    assert(ecb_plain(key, d) =~= plain);
}

/// Decodes a key blob and decrypts it block by block. What was wrapped with
/// the same key is unwrapped.
pub fn decrypt_ecb_b64(key: &[u8], s: &str) -> (r: Result<Vec<u8>, String>)
    ensures
        match r {
            Ok(v) => ecb_decrypted(key@, s@) == Ok::<Seq<u8>, Seq<char>>(v@),
            Err(e) => ecb_decrypted(key@, s@) == Err::<Seq<u8>, Seq<char>>(e@),
        },
        forall|plain: Seq<u8>|
            key@.len() == 16 && #[trigger] wraps(key@, plain, s@) ==> (r matches Ok(v) && v@ == plain),
{
    proof {
        assert forall|plain: Seq<u8>| #[trigger] wraps(key@, plain, s@) implies (b64_decoded(s@) matches Ok(d)
            && is_ecb_of(key@, plain, d) && d.len() > 0) by {
            lemma_wraps(key@, plain, s@);
        }
    }
    let data = match b64decode(s) {
        Ok(d) => d,
        Err(e) => return Err(e),
    };
    if data.len() == 0 || data.len() % 16 != 0 {
        let mut message = String::new();
        message.append("cipher length ");
        push_decimal(&mut message, data.len() as u64);
        message.append(" not a block multiple");
        assert(message@ =~= "cipher length "@ + decimal(data@.len()) + " not a block multiple"@);
        return Err(message);
    }
    let cipher = match new_cipher_from_slice(key) {
        Ok(c) => c,
        Err(e) => return Err(invalid_length_text(&e)),
    };
    let len: usize = data.len();
    let mut out: Vec<u8> = Vec::new();
    let mut i: usize = 0;
    while i < len
        invariant
            i <= len == data@.len(),
            i % 16 == 0,
            len % 16 == 0,
            cipher_key(cipher) == key@,
            out@ == ecb_plain(key@, data@).take(i as int),
            all_open(key@, data@, i as int / 16),
        decreases len - i,
    {
        let mut block = block_at(&data, i);
        assert(block@ == block_of(data@, i as int / 16));
        decrypt_block(&cipher, &mut block);
        assert(opens(key@, block_of(data@, i as int / 16)));
        push_block(&mut out, &block);
        assert(out@ =~= ecb_plain(key@, data@).take(i + 16));
        i += 16;
    }
    assert(out@ =~= ecb_plain(key@, data@));
    proof {
        assert forall|plain: Seq<u8>| #[trigger] wraps(key@, plain, s@) implies out@ == plain by {
            lemma_ecb_reads_back(key@, plain, data@);
        }
    }
    Ok(out)
}

fn push_block(out: &mut Vec<u8>, block: &[u8; 16])
    ensures
        final(out)@ == old(out)@ + block@,
{
    let mut i: usize = 0;
    while i < 16
        invariant
            i <= 16,
            out@ == old(out)@ + block@.take(i as int),
        decreases 16 - i,
    {
        out.push(block[i]);
        i += 1;
        assert(out@ =~= old(out)@ + block@.take(i as int));
    }
    assert(block@.take(16) =~= block@);
}

// ---------------------------------------------------------------------------
// Attributes
// ---------------------------------------------------------------------------

/// CBC decryption with an initial vector of zeros.
pub open spec fn cbc_plain(key: Seq<u8>, d: Seq<u8>) -> Seq<u8> {
    Seq::new(
        d.len(),
        |i: int|
            aes128_decrypt(key, d.subrange(i / 16 * 16, i / 16 * 16 + 16))[i % 16] ^ if i < 16 {
                0u8
            } else {
                d[i - 16]
            },
    )
}

/// The four bytes that decrypted attributes begin with: `MEGA`.
pub open spec fn attribute_magic() -> Seq<u8> {
    seq![77u8, 69u8, 71u8, 65u8]
}

/// `s` up to its first zero byte.
pub open spec fn until_zero(s: Seq<u8>) -> Seq<u8>
    decreases s.len(),
{
    if s.len() == 0 || s[0] == 0 {
        Seq::empty()
    } else {
        seq![s[0]] + until_zero(s.skip(1))
    }
}

/// The JSON inside decrypted attributes, if they begin as they should.
pub open spec fn attribute_document(plain: Seq<u8>) -> Option<Seq<u8>> {
    if plain.len() >= 4 && plain.take(4) == attribute_magic() {
        Some(until_zero(plain.skip(4)))
    } else {
        None
    }
}

/// The node name in a document of attributes.
pub open spec fn document_name(doc: Result<Json, Seq<char>>) -> Result<Seq<char>, Seq<char>> {
    match doc {
        Err(e) => Err("malformed attributes: "@ + e),
        Ok(v) => match v.text_field("n"@) {
            Some(name) => if name.len() > 0 {
                Ok(name)
            } else {
                Err("attributes are missing the node name"@)
            },
            None => Err("attributes are missing the node name"@),
        },
    }
}

/// What decrypting an attribute blob gives: the node's name.
pub open spec fn attributes_name(key: Seq<u8>, at: Seq<char>) -> Result<Seq<char>, Seq<char>> {
    match b64_decoded(at) {
        Err(e) => Err(e),
        Ok(d) => if d.len() == 0 || d.len() % 16 != 0 {
            Err("attribute length "@ + decimal(d.len()) + " not a block multiple"@)
        } else {
            match attribute_document(cbc_plain(key, d)) {
                None => Err("malformed attributes"@),
                Some(j) => document_name(json_document(j)),
            }
        },
    }
}

proof fn lemma_until_zero(s: Seq<u8>, i: int)
    requires
        0 <= i <= s.len(),
        forall|j: int| 0 <= j < i ==> #[trigger] s[j] != 0,
        i < s.len() ==> s[i] == 0,
    ensures
        until_zero(s) == s.take(i),
    decreases s.len(),
{
    if i == 0 {
        assert(until_zero(s) =~= s.take(0));
    } else {
        assert forall|j: int| 0 <= j < i - 1 implies #[trigger] s.skip(1)[j] != 0 by {
            assert(s.skip(1)[j] == s[j + 1]);
        }
        lemma_until_zero(s.skip(1), i - 1);
        assert(until_zero(s) =~= s.take(i));
    }
}

/// Cuts the JSON out of decrypted attributes.
pub fn attribute_json(plain: &Vec<u8>) -> (r: Option<Vec<u8>>)
    ensures
        match r {
            Some(j) => attribute_document(plain@) == Some(j@),
            None => attribute_document(plain@) is None,
        },
{
    if plain.len() < 4 || plain[0] != 77 || plain[1] != 69 || plain[2] != 71 || plain[3] != 65 {
        assert(plain@.len() >= 4 ==> plain@.take(4) != attribute_magic()) by {
            if plain@.len() >= 4 && plain@.take(4) == attribute_magic() {
                assert(plain@.take(4)[0] == 77 && plain@.take(4)[1] == 69 && plain@.take(4)[2] == 71
                    && plain@.take(4)[3] == 65);
            }
        }
        return None;
    }
    assert(plain@.take(4) =~= attribute_magic());
    let ghost rest = plain@.skip(4);
    let mut j: Vec<u8> = Vec::new();
    let mut i: usize = 4;
    while i < plain.len() && plain[i] != 0
        invariant
            4 <= i <= plain@.len(),
            rest == plain@.skip(4),
            j@ == rest.take(i - 4),
            forall|k: int| 0 <= k < i - 4 ==> #[trigger] rest[k] != 0,
        decreases plain@.len() - i,
    {
        j.push(plain[i]);
        i += 1;
        assert(j@ =~= rest.take(i - 4));
    }
    proof {
        lemma_until_zero(rest, i - 4);
    }
    Some(j)
}

/// Picks the node name out of a document of attributes.
pub fn attribute_name(doc: &Result<Value, String>) -> (r: Result<String, String>)
    ensures
        ({
            let read = match *doc {
                Ok(v) => Ok::<Json, Seq<char>>(json_of(v)),
                Err(e) => Err::<Json, Seq<char>>(e@),
            };
            match r {
                Ok(name) => document_name(read) == Ok::<Seq<char>, Seq<char>>(name@),
                Err(e) => document_name(read) == Err::<Seq<char>, Seq<char>>(e@),
            }
        }),
{
    match doc {
        Err(e) => {
            let mut message = String::new();
            message.append("malformed attributes: ");
            message.append(e.as_str());
            assert(message@ =~= "malformed attributes: "@ + e@);
            Err(message)
        },
        Ok(v) => match text_field(v, "n") {
            Some(name) => if name.is_empty() {
                Err("attributes are missing the node name".to_owned())
            } else {
                Ok(name.to_owned())
            },
            None => Err("attributes are missing the node name".to_owned()),
        },
    }
}

/// What a block of `d` is mixed with before it is encrypted: the block
/// before it, or zeros.
pub open spec fn mixed_with(d: Seq<u8>, k: int) -> Seq<u8> {
    if k == 0 {
        Seq::new(16, |i: int| 0u8)
    } else {
        block_of(d, k - 1)
    }
}

/// `d` is the CBC encryption of `plain`, with an initial vector of zeros.
pub open spec fn is_cbc_of(key: Seq<u8>, plain: Seq<u8>, d: Seq<u8>) -> bool {
    &&& d.len() == plain.len()
    &&& plain.len() % 16 == 0
    &&& forall|k: int|
        0 <= k < plain.len() / 16 ==> #[trigger] block_of(d, k) == aes128_encrypt(
            key,
            xor16(block_of(plain, k), mixed_with(d, k)),
        )
}

/// A document of attributes behind the four bytes, filled up with zeros to
/// whole blocks.
pub open spec fn attribute_blocks(doc: Seq<u8>) -> Seq<u8> {
    let text = attribute_magic() + doc;
    text + Seq::new(((16 - text.len() % 16) % 16) as nat, |i: int| 0u8)
}

/// `at` is an attribute blob that holds the document `doc`, which has no
/// zero bytes: encrypted, in base64.
pub open spec fn seals(key: Seq<u8>, doc: Seq<u8>, at: Seq<char>) -> bool {
    !doc.contains(0u8) && exists|d: Seq<u8>| #[trigger] is_cbc_of(key, attribute_blocks(doc), d) && at == b64_text(d)
}

proof fn lemma_seals(key: Seq<u8>, doc: Seq<u8>, at: Seq<char>)
    requires
        seals(key, doc, at),
    ensures
        b64_decoded(at) matches Ok(d) && is_cbc_of(key, attribute_blocks(doc), d) && d.len() > 0,
{
    let d = choose|d: Seq<u8>| #[trigger] is_cbc_of(key, attribute_blocks(doc), d) && at == b64_text(d);
    law_decode_undoes_encode(d, 0);
    assert(at + Seq::new(0, |i: int| '=') =~= at);
}

proof fn lemma_cbc_reads_back(key: Seq<u8>, plain: Seq<u8>, d: Seq<u8>)
    requires
        is_cbc_of(key, plain, d),
        all_open(key, d, (d.len() / 16) as int),
    ensures
        cbc_plain(key, d) == plain,
{
    assert forall|i: int| 0 <= i < d.len() implies #[trigger] cbc_plain(key, d)[i] == plain[i] by {
        let k = i / 16;
        let prev = mixed_with(d, k);
        let mixed = xor16(block_of(plain, k), prev);
        assert(block_of(d, k) == aes128_encrypt(key, mixed));
        assert(opens(key, block_of(d, k)));
        assert(16 * k == i / 16 * 16);
        let x = plain[i];
        let y = prev[i % 16];
        assert(block_of(plain, k)[i % 16] == x);
        assert(y == if i < 16 {
            0u8
        } else {
            d[i - 16]
        });
        assert((x ^ y) ^ y == x) by (bit_vector);
    }
    assert(cbc_plain(key, d) =~= plain);
}

/// The document is found again between the four bytes and the zeros.
proof fn lemma_document_reads_back(doc: Seq<u8>)
    requires
        !doc.contains(0u8),
    ensures
        attribute_document(attribute_blocks(doc)) == Some(doc),
{
    let plain = attribute_blocks(doc);
    assert(plain.take(4) =~= attribute_magic());
    let rest = plain.skip(4);
    let n = doc.len() as int;
    assert forall|j: int| 0 <= j < n implies #[trigger] rest[j] != 0 by {
        assert(rest[j] == doc[j]);
        assert(doc.contains(doc[j]));
    }
    lemma_until_zero(rest, n);
    assert(rest.take(n) =~= doc);
}

/// Decrypts an attribute blob and returns the node name. A blob that was
/// sealed with the same key gives the name in its document.
pub fn decrypt_attrs(key: &[u8; 16], at: &str) -> (r: Result<String, String>)
    ensures
        match r {
            Ok(name) => attributes_name(key@, at@) == Ok::<Seq<char>, Seq<char>>(name@),
            Err(e) => attributes_name(key@, at@) == Err::<Seq<char>, Seq<char>>(e@),
        },
        forall|doc: Seq<u8>| #[trigger]
            seals(key@, doc, at@) ==> match document_name(json_document(doc)) {
                Ok(name) => r matches Ok(n) && n@ == name,
                Err(message) => r matches Err(e) && e@ == message,
            },
{
    proof {
        assert forall|doc: Seq<u8>| #[trigger] seals(key@, doc, at@) implies (b64_decoded(at@) matches Ok(d)
            && is_cbc_of(key@, attribute_blocks(doc), d) && d.len() > 0) by {
            lemma_seals(key@, doc, at@);
        }
    }
    let data = match b64decode(at) {
        Ok(d) => d,
        Err(e) => return Err(e),
    };
    if data.len() == 0 || data.len() % 16 != 0 {
        let mut message = String::new();
        message.append("attribute length ");
        push_decimal(&mut message, data.len() as u64);
        message.append(" not a block multiple");
        assert(message@ =~= "attribute length "@ + decimal(data@.len()) + " not a block multiple"@);
        return Err(message);
    }
    let cipher = match new_cipher_from_slice(key) {
        Ok(c) => c,
        Err(e) => return Err(invalid_length_text(&e)),
    };
    let len: usize = data.len();
    let mut plain: Vec<u8> = Vec::new();
    let mut prev = [0u8; 16];
    let mut i: usize = 0;
    while i < len
        invariant
            i <= len == data@.len(),
            i % 16 == 0,
            len % 16 == 0,
            cipher_key(cipher) == key@,
            i == 0 ==> prev@ =~= Seq::new(16, |k: int| 0u8),
            i > 0 ==> prev@ == data@.subrange(i - 16, i as int),
            plain@ == cbc_plain(key@, data@).take(i as int),
            all_open(key@, data@, i as int / 16),
        decreases len - i,
    {
        let ct = block_at(&data, i);
        let mut block = ct;
        assert(block@ == block_of(data@, i as int / 16));
        decrypt_block(&cipher, &mut block);
        assert(opens(key@, block_of(data@, i as int / 16)));
        let text = xor_blocks(&block, &prev);
        push_block(&mut plain, &text);
        assert(plain@ =~= cbc_plain(key@, data@).take(i + 16));
        prev = ct;
        i += 16;
    }
    assert(plain@ =~= cbc_plain(key@, data@));
    proof {
        assert forall|doc: Seq<u8>| #[trigger] seals(key@, doc, at@) implies attribute_document(plain@) == Some(doc) by {
            lemma_cbc_reads_back(key@, attribute_blocks(doc), data@);
            lemma_document_reads_back(doc);
        }
    }
    let j = match attribute_json(&plain) {
        Some(j) => j,
        None => return Err("malformed attributes".to_owned()),
    };
    let doc = read_document(&j);
    attribute_name(&doc)
}

// ---------------------------------------------------------------------------
// Names
// ---------------------------------------------------------------------------

/// `name` with every slash turned into an underscore.
pub open spec fn without_slashes(name: Seq<char>) -> Seq<char> {
    name.map_values(
        |c: char|
            if c == '/' {
                '_'
            } else {
                c
            },
    )
}

/// `s` is no name for an entry of a directory.
pub open spec fn is_reserved(s: Seq<char>) -> bool {
    s.len() == 0 || s == seq!['.'] || s == seq!['.', '.']
}

/// The local name for a remote one, or the message that refuses it.
pub open spec fn safe_name(name: Seq<char>) -> Result<Seq<char>, Seq<char>> {
    let s = without_slashes(name);
    if is_reserved(s) {
        Err("invalid remote file name "@ + seq!['"'] + s + seq!['"'])
    } else {
        Ok(s)
    }
}

/// Makes a remote node name safe as one local path component.
pub fn sanitize_name(name: &str) -> (r: Result<String, String>)
    ensures
        match r {
            Ok(s) => safe_name(name@) == Ok::<Seq<char>, Seq<char>>(s@),
            Err(e) => safe_name(name@) == Err::<Seq<char>, Seq<char>>(e@),
        },
{
    let mut v = chars_of(name);
    let mut i: usize = 0;
    while i < v.len()
        invariant
            i <= v@.len() == name@.len(),
            forall|j: int| 0 <= j < i ==> #[trigger] v@[j] == without_slashes(name@)[j],
            forall|j: int| i <= j < v@.len() ==> #[trigger] v@[j] == name@[j],
        decreases v@.len() - i,
    {
        if v[i] == '/' {
            v.set(i, '_');
        }
        i += 1;
    }
    assert(v@ =~= without_slashes(name@));
    let reserved = v.len() == 0 || (v.len() == 1 && v[0] == '.') || (v.len() == 2 && v[0] == '.' && v[1]
        == '.');
    proof {
        if v@.len() == 1 && v@[0] == '.' {
            assert(v@ =~= seq!['.']);
        }
        if v@.len() == 2 && v@[0] == '.' && v@[1] == '.' {
            assert(v@ =~= seq!['.', '.']);
        }
    }
    let text = string_of(&v);
    if reserved {
        let mut message = String::new();
        message.append("invalid remote file name ");
        message.push('"');
        message.append(text.as_str());
        message.push('"');
        assert(message@ =~= "invalid remote file name "@ + seq!['"'] + text@ + seq!['"']);
        return Err(message);
    }
    Ok(text)
}

/// A name that was made safe is one component of a path: it is not empty,
/// holds no slash, and names neither its directory nor the parent. Making it
/// safe once more changes nothing.
pub proof fn law_safe_name_is_component(name: Seq<char>)
    requires
        safe_name(name) is Ok,
    ensures
        ({
            let s = safe_name(name)->Ok_0;
            &&& s.len() > 0
            &&& !s.contains('/')
            &&& s != seq!['.']
            &&& s != seq!['.', '.']
            &&& s.len() == name.len()
            &&& safe_name(s) == Ok::<Seq<char>, Seq<char>>(s)
        }),
{
    let s = safe_name(name)->Ok_0;
    if s.contains('/') {
        let i = choose|i: int| 0 <= i < s.len() && s[i] == '/';
        assert(s[i] == without_slashes(name)[i]);
    }
    assert forall|i: int| 0 <= i < s.len() implies #[trigger] without_slashes(s)[i] == s[i] by {
        if s[i] == '/' {
            assert(s.contains(s[i]));
        }
    }
    assert(without_slashes(s) =~= s);
}

/// A node key holds the file key as the XOR of its halves; the second half
/// is the nonce and the MAC. Every part is taken from its own bytes.
pub proof fn law_unpacked_key(k: Seq<u8>, key: FileKey, i: int)
    requires
        k.len() == 32,
        unpacks_to(k, key),
        0 <= i < 8,
    ensures
        key.aes@[i] == k[i] ^ k[16 + i],
        key.aes@[8 + i] == k[8 + i] ^ k[24 + i],
        key.nonce@[i] == k[16 + i],
        key.meta_mac@[i] == k[24 + i],
{
}

/// Unpacking loses nothing: the node key can be put together again from its
/// parts.
pub proof fn law_unpacking_loses_nothing(k: Seq<u8>, key: FileKey, i: int)
    requires
        k.len() == 32,
        unpacks_to(k, key),
        0 <= i < 8,
    ensures
        k[16 + i] == key.nonce@[i],
        k[24 + i] == key.meta_mac@[i],
        k[i] == key.aes@[i] ^ key.nonce@[i],
        k[8 + i] == key.aes@[8 + i] ^ key.meta_mac@[i],
{
    law_unpacked_key(k, key, i);
    let a = k[i];
    let b = k[16 + i];
    let c = k[8 + i];
    let d = k[24 + i];
    assert((a ^ b) ^ b == a) by (bit_vector);
    assert((c ^ d) ^ d == c) by (bit_vector);
}

/// A key blob is decrypted block by block, each by itself: block `k` of the
/// outcome is block `k` of the blob, decrypted.
pub proof fn law_key_blobs(key: Seq<u8>, d: Seq<u8>, k: int, j: int)
    requires
        d.len() > 0 && d.len() % 16 == 0,
        0 <= k < d.len() / 16,
        0 <= j < 16,
        key.len() == 16,
    ensures
        ecb_decrypted(key, b64_text(d)) matches Ok(plain) && plain.len() == d.len() && plain[16 * k + j]
            == aes128_decrypt(key, d.subrange(16 * k, 16 * k + 16))[j],
{
    law_decode_undoes_encode(d, 0);
    assert(b64_text(d) + Seq::new(0, |i: int| '=') =~= b64_text(d));
    assert((16 * k + j) / 16 == k && (16 * k + j) % 16 == j);
}

/// A key blob that is empty or no whole number of blocks is refused, and so
/// is a key that is not 16 bytes long.
pub proof fn law_key_blobs_refused(key: Seq<u8>, d: Seq<u8>)
    ensures
        d.len() == 0 || d.len() % 16 != 0 || key.len() != 16 ==> ecb_decrypted(key, b64_text(d)) is Err,
{
    law_decode_undoes_encode(d, 0);
    assert(b64_text(d) + Seq::new(0, |i: int| '=') =~= b64_text(d));
}

/// In attributes every block but the first is mixed with the block of the
/// blob before it, once it was decrypted; the first is mixed with nothing.
pub proof fn law_attribute_blocks(key: Seq<u8>, d: Seq<u8>, k: int, j: int)
    requires
        0 <= k,
        16 * k + 16 <= d.len(),
        0 <= j < 16,
    ensures
        k == 0 ==> cbc_plain(key, d)[j] == aes128_decrypt(key, d.take(16))[j],
        k > 0 ==> cbc_plain(key, d)[16 * k + j] == aes128_decrypt(key, d.subrange(16 * k, 16 * k + 16))[j] ^ d[16 * (k
            - 1) + j],
{
    assert((16 * k + j) / 16 == k && (16 * k + j) % 16 == j);
    if k == 0 {
        assert(d.subrange(0, 16) =~= d.take(16));
        let x = aes128_decrypt(key, d.take(16))[j];
        assert(x ^ 0u8 == x) by (bit_vector);
    }
}

/// Decrypted attributes are the letters `MEGA`, a document, and zeros; the
/// document is what is found in them. Without the letters there is none.
pub proof fn law_document_in_attributes(doc: Seq<u8>, zeros: Seq<u8>, other: Seq<u8>)
    requires
        !doc.contains(0u8),
        zeros.len() > 0 ==> zeros[0] == 0,
        other.len() < 4 || other[0] != 77 || other[1] != 69 || other[2] != 71 || other[3] != 65,
    ensures
        attribute_document(seq![77u8, 69u8, 71u8, 65u8] + doc + zeros) == Some(doc),
        attribute_document(other) is None,
{
    let magic = seq![77u8, 69u8, 71u8, 65u8];
    let plain = magic + doc + zeros;
    assert(plain.take(4) =~= magic);
    let rest = plain.skip(4);
    assert(rest =~= doc + zeros);
    let n = doc.len() as int;
    assert forall|j: int| 0 <= j < n implies #[trigger] rest[j] != 0 by {
        assert(doc.contains(doc[j]));
    }
    if n < rest.len() {
        assert(rest[n] == zeros[0]);
    }
    lemma_until_zero(rest, n);
    assert(rest.take(n) =~= doc);
    if other.len() >= 4 && other.take(4) == attribute_magic() {
        assert(other.take(4)[0] == 77 && other.take(4)[1] == 69 && other.take(4)[2] == 71 && other.take(4)[3] == 65);
    }
}

/// The name of a node is the text under `n` of its attributes. Attributes
/// that hold no text there, or an empty one, are refused.
pub proof fn law_names_in_documents(m: Map<Seq<char>, Json>, name: Seq<char>)
    ensures
        m.contains_pair("n"@, Json::Text(name)) && name.len() > 0 ==> document_name(Ok(Json::Object(m))) == Ok::<
            Seq<char>,
            Seq<char>,
        >(name),
        m.contains_pair("n"@, Json::Text(name)) && name.len() == 0 ==> document_name(Ok(Json::Object(m))) is Err,
        document_name(Ok(Json::Object(m.remove("n"@)))) is Err,
        document_name(Err(name)) is Err,
{
}

/// Attributes give the name in their document: what decoding and decrypting
/// the blob leads to is read as a document, and the name is taken out of it.
pub proof fn law_attributes_name(key: Seq<u8>, d: Seq<u8>, doc: Seq<u8>, zeros: Seq<u8>)
    requires
        !doc.contains(0u8),
        zeros.len() > 0 ==> zeros[0] == 0,
        d.len() > 0,
    ensures
        d.len() % 16 == 0 && cbc_plain(key, d) == seq![77u8, 69u8, 71u8, 65u8] + doc + zeros ==> attributes_name(
            key,
            b64_text(d),
        ) == document_name(json_document(doc)),
        d.len() % 16 != 0 ==> attributes_name(key, b64_text(d)) is Err,
        attributes_name(key, Seq::empty()) is Err,
{
    law_decode_undoes_encode(d, 0);
    assert(b64_text(d) + Seq::new(0, |i: int| '=') =~= b64_text(d));
    law_document_in_attributes(doc, zeros, Seq::empty());
    let none = Seq::<u8>::empty();
    law_decode_undoes_encode(none, 0);
    assert(b64_text(none) + Seq::new(0, |i: int| '=') =~= Seq::<char>::empty());
}

/// Making a name safe turns slashes into underscores and changes nothing
/// else. Only the empty name and the two that stand for directories are
/// refused.
pub proof fn law_safe_names(name: Seq<char>, i: int)
    ensures
        safe_name(name) is Err <==> name == Seq::<char>::empty() || name == seq!['.'] || name == seq!['.', '.'],
        safe_name(name) matches Ok(s) ==> s.len() == name.len() && (0 <= i < name.len() ==> (name[i] != '/' ==> s[i]
            == name[i]) && (name[i] == '/' ==> s[i] == '_')),
{
    let s = without_slashes(name);
    if s == seq!['.'] || s == seq!['.', '.'] {
        assert(s[0] == '.');
        assert(name[0] == '.');
        if s.len() == 2 {
            assert(s[1] == '.');
            assert(name[1] == '.');
            assert(name =~= seq!['.', '.']);
        } else {
            assert(name =~= seq!['.']);
        }
    }
    if name == seq!['.'] {
        assert(s =~= seq!['.']);
    }
    if name == seq!['.', '.'] {
        assert(s =~= seq!['.', '.']);
    }
    if s.len() == 0 {
        assert(name =~= Seq::<char>::empty());
    }
}

} // verus!
