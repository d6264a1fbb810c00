//! AES-128 on single blocks, and its counter mode placed at any byte of a
//! file.

use vstd::prelude::*;

use aes::cipher::generic_array::GenericArray;
use aes::cipher::{BlockDecrypt, BlockEncrypt, InvalidLength, KeyInit, KeyIvInit, StreamCipher};
use aes::Aes128;
use ctr::Ctr128BE;

verus! {

// ---------------------------------------------------------------------------
// Big-endian numbers
// ---------------------------------------------------------------------------

/// The number that `s` holds, most significant byte first.
pub open spec fn be_value(s: Seq<u8>) -> nat
    decreases s.len(),
{
    if s.len() == 0 {
        0
    } else {
        be_value(s.drop_last()) * 256 + s.last() as nat
    }
}

/// The low `len` bytes of `n`, most significant byte first.
pub open spec fn be_bytes(n: nat, len: nat) -> Seq<u8>
    decreases len,
{
    if len == 0 {
        Seq::empty()
    } else {
        be_bytes(n / 256, (len - 1) as nat).push((n % 256) as u8)
    }
}

/// `256` to the power of `k`.
pub open spec fn byte_span(k: nat) -> nat
    decreases k,
{
    if k == 0 {
        1
    } else {
        byte_span((k - 1) as nat) * 256
    }
}

pub proof fn lemma_be_len(n: nat, len: nat)
    ensures
        be_bytes(n, len).len() == len,
    decreases len,
{
    if len > 0 {
        lemma_be_len(n / 256, (len - 1) as nat);
    }
}

/// Writing out what was read in gives the same bytes.
pub proof fn lemma_be_round_trip(s: Seq<u8>)
    ensures
        be_bytes(be_value(s), s.len()) == s,
    decreases s.len(),
{
    if s.len() == 0 {
        assert(be_bytes(0, 0) =~= s);
    } else {
        let v = be_value(s.drop_last());
        lemma_be_round_trip(s.drop_last());
        assert((v * 256 + s.last() as nat) / 256 == v);
        assert((v * 256 + s.last() as nat) % 256 == s.last() as nat);
        assert(s =~= s.drop_last().push(s.last()));
    }
}

/// Reading bytes after bytes shifts the first number up.
pub proof fn lemma_be_concat(a: Seq<u8>, b: Seq<u8>)
    ensures
        be_value(a + b) == be_value(a) * byte_span(b.len()) + be_value(b),
    decreases b.len(),
{
    if b.len() == 0 {
        assert(a + b =~= a);
        assert(byte_span(0) == 1);
    } else {
        assert((a + b).drop_last() =~= a + b.drop_last());
        lemma_be_concat(a, b.drop_last());
        let x = be_value(a);
        let p = byte_span((b.len() - 1) as nat);
        let y = be_value(b.drop_last());
        assert((x * p + y) * 256 == x * (p * 256) + y * 256) by (nonlinear_arith);
    }
}

/// A number below the span of its bytes is read back as written.
pub proof fn lemma_be_value_of_bytes(n: nat, len: nat)
    requires
        n < byte_span(len),
    ensures
        be_value(be_bytes(n, len)) == n,
    decreases len,
{
    if len > 0 {
        lemma_be_value_of_bytes(n / 256, (len - 1) as nat);
        assert(be_bytes(n, len).drop_last() =~= be_bytes(n / 256, (len - 1) as nat));
    }
}

/// A number written in bytes is its high part before its low part.
pub proof fn lemma_be_split(high: nat, low: nat, lh: nat, ll: nat)
    requires
        low < byte_span(ll),
    ensures
        be_bytes(high * byte_span(ll) + low, lh + ll) == be_bytes(high, lh) + be_bytes(low, ll),
    decreases ll,
{
    if ll == 0 {
        assert(high * byte_span(0) + low == high);
        assert(be_bytes(high, lh) + be_bytes(low, 0) =~= be_bytes(high, lh));
    } else {
        let p = byte_span((ll - 1) as nat);
        let n = high * byte_span(ll) + low;
        assert(high * (p * 256) == (high * p) * 256) by (nonlinear_arith);
        assert(n / 256 == high * p + low / 256);
        assert(n % 256 == low % 256);
        lemma_be_split(high, low / 256, lh, (ll - 1) as nat);
        assert(be_bytes(high, lh) + be_bytes(low, ll) =~= (be_bytes(high, lh) + be_bytes(
            low / 256,
            (ll - 1) as nat,
        )).push((low % 256) as u8));
    }
}

/// `n` as eight bytes, most significant first.
pub fn be8(n: u64) -> (out: [u8; 8])
    ensures
        out@ == be_bytes(n as nat, 8),
{
    let mut out = [0u8; 8];
    let mut rest: u64 = n;
    let mut i: usize = 8;
    assert(be_bytes(n as nat, 8) =~= be_bytes(rest as nat, 8) + out@.skip(8));
    while i > 0
        invariant
            i <= 8,
            be_bytes(n as nat, 8) == be_bytes(rest as nat, i as nat) + out@.skip(i as int),
        decreases i,
    {
        let ghost before = out@;
        let ghost r0 = rest;
        out[i - 1] = (rest % 256) as u8;
        rest = rest / 256;
        i -= 1;
        assert(out@.skip(i as int) =~= seq![(r0 % 256) as u8] + before.skip(i + 1));
        assert(be_bytes(n as nat, 8) =~= be_bytes(rest as nat, i as nat) + out@.skip(i as int));
    }
    assert(out@.skip(0) =~= out@);
    out
}

// ---------------------------------------------------------------------------
// AES-128 on one block
// ---------------------------------------------------------------------------

#[verifier::external_type_specification]
#[verifier::external_body]
pub struct ExAes128(Aes128);

#[verifier::external_type_specification]
#[verifier::external_body]
pub struct ExInvalidLength(InvalidLength);

/// The key that a cipher was made with.
pub uninterp spec fn cipher_key(cipher: Aes128) -> Seq<u8>;

/// What AES-128 makes of one block of sixteen bytes.
pub uninterp spec fn aes128_encrypt(key: Seq<u8>, block: Seq<u8>) -> Seq<u8>;

/// What AES-128 decryption makes of one block of sixteen bytes.
pub uninterp spec fn aes128_decrypt(key: Seq<u8>, block: Seq<u8>) -> Seq<u8>;

/// Wraps `aes::Aes128::new`: a cipher with the given key.
#[verifier::external_body]
pub(crate) fn new_cipher(key: &[u8; 16]) -> (cipher: Aes128)
    ensures
        cipher_key(cipher) == key@,
{
    Aes128::new(key.into())
}

/// Wraps `aes::Aes128::new_from_slice`: a cipher with the given key, or an
/// error when the key is not sixteen bytes long.
#[verifier::external_body]
pub(crate) fn new_cipher_from_slice(key: &[u8]) -> (cipher: Result<Aes128, InvalidLength>)
    ensures
        cipher is Ok <==> key@.len() == 16,
        cipher matches Ok(c) ==> cipher_key(c) == key@,
{
    Aes128::new_from_slice(key)
}

/// Wraps `InvalidLength`'s `to_string`, which is a fixed text.
#[verifier::external_body]
pub(crate) fn invalid_length_text(e: &InvalidLength) -> (text: String)
    ensures
        text@ == "Invalid Length"@,
{
    e.to_string()
}

/// Wraps `BlockEncrypt::encrypt_block` of `aes::Aes128`: encrypts one block
/// in place.
#[verifier::external_body]
pub(crate) fn encrypt_block(cipher: &Aes128, block: &mut [u8; 16])
    ensures
        final(block)@ == aes128_encrypt(cipher_key(*cipher), old(block)@),
{
    cipher.encrypt_block(GenericArray::from_mut_slice(block));
}

/// Wraps `BlockDecrypt::decrypt_block` of `aes::Aes128`: decrypts one block
/// in place. A block that was encrypted under the same key comes back as it
/// was before.
#[verifier::external_body]
pub(crate) fn decrypt_block(cipher: &Aes128, block: &mut [u8; 16])
    ensures
        final(block)@ == aes128_decrypt(cipher_key(*cipher), old(block)@),
        forall|plain: Seq<u8>|
            plain.len() == 16 && #[trigger] aes128_encrypt(cipher_key(*cipher), plain) == old(block)@ ==> final(block)@
                == plain,
{
    cipher.decrypt_block(GenericArray::from_mut_slice(block));
}

// ---------------------------------------------------------------------------
// Counter mode
// ---------------------------------------------------------------------------

/// The `i`-th byte of AES-128 counter mode: the sixteen bytes of the
/// initial vector count up as one big-endian number, a block at a time.
pub open spec fn ctr_byte(key: Seq<u8>, iv: Seq<u8>, i: nat) -> u8 {
    aes128_encrypt(key, be_bytes(be_value(iv) + i / 16, 16))[(i % 16) as int]
}

/// Wraps `ctr::Ctr128BE::<Aes128>::new` and `apply_keystream` on the fresh
/// cipher: XORs the counter-mode key stream over the data, from its start.
#[verifier::external_body]
fn ctr_apply(key: &[u8; 16], iv: &[u8; 16], data: &mut [u8])
    ensures
        final(data)@ == Seq::new(old(data)@.len(), |i: int| old(data)@[i] ^ ctr_byte(key@, iv@, i as nat)),
{
    Ctr128BE::<Aes128>::new(key.into(), iv.into()).apply_keystream(data);
}

/// The key-stream byte for byte `p` of a file: the initial vector is the
/// nonce followed by the number of the block as eight bytes.
pub open spec fn stream_byte(key: Seq<u8>, nonce: Seq<u8>, p: nat) -> u8 {
    aes128_encrypt(key, nonce + be_bytes(p / 16, 8))[(p % 16) as int]
}

/// `data` with the key stream of a file XORed over it, starting at byte
/// `pos` of the file.
pub open spec fn stream_xor(key: Seq<u8>, nonce: Seq<u8>, pos: nat, data: Seq<u8>) -> Seq<u8> {
    Seq::new(data.len(), |i: int| data[i] ^ stream_byte(key, nonce, (pos + i) as nat))
}

/// A counter-mode key stream that stands at some byte of a file.
pub struct CtrStream {
    key: [u8; 16],
    nonce: [u8; 8],
    pos: u64,
}

impl CtrStream {
    /// The file key.
    pub closed spec fn key(&self) -> Seq<u8> {
        self.key@
    }

    /// The file's nonce.
    pub closed spec fn nonce(&self) -> Seq<u8> {
        self.nonce@
    }

    /// The byte of the file at which the stream stands.
    pub closed spec fn pos(&self) -> nat {
        self.pos as nat
    }

    /// XORs the key stream over `data` and moves on by its length.
    pub fn apply_keystream(&mut self, data: &mut [u8])
        requires
            old(self).pos() + old(data)@.len() <= u64::MAX,
        ensures
            final(data)@ == stream_xor(old(self).key(), old(self).nonce(), old(self).pos(), old(data)@),
            final(self).key() == old(self).key(),
            final(self).nonce() == old(self).nonce(),
            final(self).pos() == old(self).pos() + old(data)@.len(),
    {
        let ghost plain = data@;
        let len: usize = data.len();
        let iv = self.iv();
        let pad: usize = (self.pos % 16) as usize;
        let ghost first = self.pos as nat / 16;
        assert(self.pos as nat == first * 16 + pad as nat);
        if pad == 0 {
            ctr_apply(&self.key, &iv, data);
            proof {
                assert forall|i: int| 0 <= i < plain.len() implies data@[i] == plain[i] ^ stream_byte(
                    self.key@,
                    self.nonce@,
                    (self.pos + i) as nat,
                ) by {
                    lemma_stream(self.key@, self.nonce@, first, i as nat);
                }
                assert(data@ =~= stream_xor(self.key@, self.nonce@, self.pos as nat, plain));
            }
        } else {
            let mut scratch: Vec<u8> = Vec::new();
            let mut k: usize = 0;
            while k < pad
                invariant
                    k <= pad,
                    scratch@.len() == k,
                decreases pad - k,
            {
                scratch.push(0);
                k += 1;
            }
            let mut j: usize = 0;
            while j < len
                invariant
                    j <= len == data@.len(),
                    data@ == plain,
                    scratch@.len() == pad + j,
                    forall|i: int| 0 <= i < j ==> #[trigger] scratch@[pad + i] == plain[i],
                decreases len - j,
            {
                scratch.push(data[j]);
                j += 1;
            }
            let ghost padded = scratch@;
            ctr_apply(&self.key, &iv, scratch.as_mut_slice());
            let total: usize = scratch.len();
            let mut j: usize = 0;
            while j < len
                invariant
                    j <= len == data@.len() == plain.len(),
                    total == pad + len,
                    self.pos + plain.len() <= u64::MAX,
                    self.pos as nat == first * 16 + pad as nat,
                    0 < pad < 16,
                    iv@ == self.nonce@ + be_bytes(first, 8),
                    self.nonce@.len() == 8,
                    first == self.pos as nat / 16,
                    padded.len() == scratch@.len() == pad + len,
                    forall|i: int| 0 <= i < len ==> #[trigger] padded[pad + i] == plain[i],
                    scratch@ == Seq::new(padded.len(), |i: int| padded[i] ^ ctr_byte(self.key@, iv@, i as nat)),
                    forall|i: int| 0 <= i < j ==> #[trigger] data@[i] == plain[i] ^ stream_byte(
                        self.key@,
                        self.nonce@,
                        (self.pos + i) as nat,
                    ),
                decreases len - j,
            {
                data[j] = scratch[pad + j];
                proof {
                    assert(padded[pad + j] == plain[j as int]);
                    lemma_stream(self.key@, self.nonce@, first, (pad + j) as nat);
                }
                j += 1;
            }
            assert(data@ =~= stream_xor(self.key@, self.nonce@, self.pos as nat, plain));
        }
        self.pos = self.pos + len as u64;
    }

    /// The counter block in which the stream stands.
    fn iv(&self) -> (iv: [u8; 16])
        ensures
            iv@ == self.nonce@ + be_bytes(self.pos as nat / 16, 8),
    {
        let counter = be8(self.pos / 16);
        let mut iv = [0u8; 16];
        let mut i: usize = 0;
        while i < 8
            invariant
                i <= 8,
                forall|j: int| 0 <= j < i ==> #[trigger] iv@[j] == self.nonce@[j],
                forall|j: int| 8 <= j < 8 + i ==> #[trigger] iv@[j] == counter@[j - 8],
            decreases 8 - i,
        {
            iv[i] = self.nonce[i];
            iv[i + 8] = counter[i];
            i += 1;
        }
        assert(iv@ =~= self.nonce@ + counter@);
        iv
    }
}

/// A key stream that stands exactly at byte `off` of the file.
pub fn ctr_at(key: [u8; 16], nonce: [u8; 8], off: u64) -> (stream: CtrStream)
    ensures
        stream.key() == key@,
        stream.nonce() == nonce@,
        stream.pos() == off,
{
    CtrStream { key, nonce, pos: off }
}

/// Counting up from block `first` reaches the same counter blocks as
/// numbering the blocks of the whole file.
proof fn lemma_stream(key: Seq<u8>, nonce: Seq<u8>, first: nat, i: nat)
    requires
        nonce.len() == 8,
        first + i / 16 < 0x1_0000_0000_0000_0000,
        first < 0x1_0000_0000_0000_0000,
    ensures
        ctr_byte(key, nonce + be_bytes(first, 8), i) == stream_byte(key, nonce, first * 16 + i),
{
    let iv = nonce + be_bytes(first, 8);
    reveal_with_fuel(byte_span, 9);
    assert(byte_span(8) == 0x1_0000_0000_0000_0000);
    lemma_be_len(first, 8);
    lemma_be_concat(nonce, be_bytes(first, 8));
    lemma_be_value_of_bytes(first, 8);
    let high = be_value(nonce);
    let low = first + i / 16;
    assert(be_value(iv) + i / 16 == high * byte_span(8) + low);
    lemma_be_split(high, low, 8, 8);
    lemma_be_round_trip(nonce);
    assert((first * 16 + i) / 16 == low);
    assert((first * 16 + i) % 16 == i % 16);
}

/// Decrypting a file in two pieces, the second with a stream placed where
/// the first ended, gives the same bytes as decrypting it in one.
pub proof fn law_stream_resumes(key: Seq<u8>, nonce: Seq<u8>, pos: nat, a: Seq<u8>, b: Seq<u8>)
    ensures
        stream_xor(key, nonce, pos, a + b) == stream_xor(key, nonce, pos, a) + stream_xor(
            key,
            nonce,
            pos + a.len(),
            b,
        ),
{
    assert(stream_xor(key, nonce, pos, a + b) =~= stream_xor(key, nonce, pos, a) + stream_xor(
        key,
        nonce,
        pos + a.len(),
        b,
    ));
}

/// Encrypting and decrypting are the same operation.
pub proof fn law_stream_is_involution(key: Seq<u8>, nonce: Seq<u8>, pos: nat, data: Seq<u8>)
    ensures
        stream_xor(key, nonce, pos, stream_xor(key, nonce, pos, data)) == data,
{
    let once = stream_xor(key, nonce, pos, data);
    assert forall|i: int| 0 <= i < data.len() implies #[trigger] stream_xor(key, nonce, pos, once)[i]
        == data[i] by {
        let x = data[i];
        let y = stream_byte(key, nonce, (pos + i) as nat);
        assert((x ^ y) ^ y == x) by (bit_vector);
    }
    assert(stream_xor(key, nonce, pos, once) =~= data);
}

/// Byte `i` of a piece that begins at byte `pos` of a file is XORed with one
/// byte of an encrypted block: the block is the nonce and the number of the
/// file's block, highest byte first, and the byte is the one at the same
/// place in it.
pub proof fn law_stream_bytes(key: Seq<u8>, nonce: Seq<u8>, pos: nat, data: Seq<u8>, i: int, block: Seq<u8>)
    requires
        0 <= i < data.len(),
        nonce.len() == 8,
        block.len() == 16,
        block.take(8) == nonce,
        be_value(block.skip(8)) == (pos + i) / 16,
    ensures
        stream_xor(key, nonce, pos, data).len() == data.len(),
        stream_xor(key, nonce, pos, data)[i] == data[i] ^ aes128_encrypt(key, block)[(pos + i) % 16],
{
    lemma_be_round_trip(block.skip(8));
    assert(block =~= nonce + block.skip(8));
}

/// The highest byte of a number comes first: one more byte behind it makes
/// 256 times the number, and adds the byte.
pub proof fn law_highest_byte_first(s: Seq<u8>, b: u8)
    ensures
        be_value(s.push(b)) == 256 * be_value(s) + b,
        be_value(Seq::empty()) == 0,
{
    assert(s.push(b).drop_last() =~= s);
}

} // verus!
