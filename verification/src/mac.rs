//! The chunked CBC-MAC that verifies a file's plaintext: one CBC-MAC per
//! chunk, the chunk MACs folded into one block, and that block condensed to
//! eight bytes.

use vstd::prelude::*;

use aes::Aes128;

use crate::cipher::{aes128_encrypt, cipher_key, encrypt_block, new_cipher};

verus! {

/// Size of chunk `k`: 128 KiB, 256 KiB, and so on up to 1 MiB, then 1 MiB
/// for ever.
pub open spec fn chunk_size(k: nat) -> nat {
    if k < 8 {
        (k + 1) * 131072
    } else {
        1048576
    }
}

/// Where chunk `k` starts.
pub open spec fn chunk_start(k: nat) -> nat
    decreases k,
{
    if k == 0 {
        0
    } else {
        chunk_start((k - 1) as nat) + chunk_size((k - 1) as nat)
    }
}

/// The part of `data` that falls into chunk `k`.
pub open spec fn chunk_of(data: Seq<u8>, k: nat) -> Seq<u8> {
    let end = if chunk_start(k + 1) <= data.len() {
        chunk_start(k + 1)
    } else {
        data.len()
    };
    data.subrange(chunk_start(k) as int, end as int)
}

/// What is left of `len` bytes where chunk `k` starts.
pub open spec fn left_of(k: nat, len: nat) -> nat {
    if chunk_start(k) >= len {
        0
    } else {
        (len - chunk_start(k)) as nat
    }
}

/// How many chunks `len` bytes reach into, counted from chunk `k` on.
pub open spec fn chunks_from(k: nat, len: nat) -> nat
    decreases left_of(k, len),
{
    if chunk_start(k) >= len {
        k
    } else {
        chunks_from(k + 1, len)
    }
}

/// How many chunks `len` bytes reach into.
pub open spec fn chunk_count(len: nat) -> nat {
    chunks_from(0, len)
}

/// Two blocks, XORed.
pub open spec fn xor16(a: Seq<u8>, b: Seq<u8>) -> Seq<u8> {
    Seq::new(16, |i: int| a[i] ^ b[i])
}

/// At most sixteen bytes, filled up with zeros.
pub open spec fn pad16(b: Seq<u8>) -> Seq<u8> {
    Seq::new(
        16,
        |i: int|
            if i < b.len() {
                b[i]
            } else {
                0u8
            },
    )
}

/// The CBC-MAC of `d`, its last block filled up with zeros.
pub open spec fn cbc_mac(key: Seq<u8>, iv: Seq<u8>, d: Seq<u8>) -> Seq<u8>
    decreases d.len(),
{
    if d.len() == 0 {
        iv
    } else {
        let n = (d.len() - 1) / 16 * 16;
        aes128_encrypt(key, xor16(cbc_mac(key, iv, d.take(n)), pad16(d.skip(n))))
    }
}

/// The MACs of the first `k` chunks, folded into one block.
pub open spec fn meta_mac(key: Seq<u8>, iv: Seq<u8>, data: Seq<u8>, k: nat) -> Seq<u8>
    decreases k,
{
    if k == 0 {
        Seq::new(16, |i: int| 0u8)
    } else {
        aes128_encrypt(
            key,
            xor16(
                meta_mac(key, iv, data, (k - 1) as nat),
                cbc_mac(key, iv, chunk_of(data, (k - 1) as nat)),
            ),
        )
    }
}

/// A block condensed to eight bytes.
pub open spec fn condense(m: Seq<u8>) -> Seq<u8> {
    Seq::new(
        8,
        |i: int|
            if i < 4 {
                m[i] ^ m[i + 4]
            } else {
                m[i + 4] ^ m[i + 8]
            },
    )
}

/// The eight bytes that vouch for a file with plaintext `data`.
pub open spec fn chunked_mac(key: Seq<u8>, nonce: Seq<u8>, data: Seq<u8>) -> Seq<u8> {
    condense(meta_mac(key, nonce + nonce, data, chunk_count(data.len())))
}

/// How far a MAC may run: the next chunk boundary has to fit its counter.
pub const MAC_LIMIT: u64 = 0x7fff_ffff_ffdf_ffff;

proof fn lemma_chunk_start(k: nat)
    ensures
        chunk_start(k) >= k * 131072,
        chunk_start(k) % 16 == 0,
        chunk_start(k + 1) == chunk_start(k) + chunk_size(k),
        131072 <= chunk_size(k) <= 1048576,
        chunk_size(k) % 16 == 0,
    decreases k,
{
    if k > 0 {
        lemma_chunk_start((k - 1) as nat);
    }
}

proof fn lemma_chunks(j: nat, k: nat, len: nat)
    requires
        j <= k,
        k == 0 || chunk_start((k - 1) as nat) < len,
        len <= chunk_start(k),
    ensures
        chunks_from(j, len) == k,
    decreases k - j,
{
    if j < k {
        lemma_start_monotone(j, (k - 1) as nat);
        lemma_chunks(j + 1, k, len);
    }
}

proof fn lemma_start_monotone(j: nat, k: nat)
    requires
        j <= k,
    ensures
        chunk_start(j) <= chunk_start(k),
    decreases k - j,
{
    if j < k {
        lemma_start_monotone(j, (k - 1) as nat);
        lemma_chunk_start((k - 1) as nat);
    }
}

/// Bytes after the end of chunk `k - 1` do not change the first `k` MACs.
proof fn lemma_meta_prefix(key: Seq<u8>, iv: Seq<u8>, a: Seq<u8>, b: Seq<u8>, k: nat)
    requires
        chunk_start(k) <= a.len(),
    ensures
        meta_mac(key, iv, a + b, k) == meta_mac(key, iv, a, k),
    decreases k,
{
    if k > 0 {
        let j = (k - 1) as nat;
        lemma_chunk_start(j);
        lemma_meta_prefix(key, iv, a, b, j);
        assert(chunk_of(a + b, j) =~= chunk_of(a, j));
    }
}

/// The state inside a chunk after its bytes `d`: the CBC-MAC so far, with
/// the bytes of an unfinished block XORed in.
spec fn in_chunk(key: Seq<u8>, iv: Seq<u8>, d: Seq<u8>) -> Seq<u8> {
    if d.len() % 16 == 0 {
        cbc_mac(key, iv, d)
    } else {
        let n = d.len() / 16 * 16;
        xor16(cbc_mac(key, iv, d.take(n as int)), pad16(d.skip(n as int)))
    }
}

/// Size of the idx-th chunk.
fn mac_chunk_size(idx: i64) -> (size: i64)
    requires
        idx >= 0,
    ensures
        size == chunk_size(idx as nat),
{
    if idx < 8 {
        (idx + 1) * 131072
    } else {
        1048576
    }
}

/// A MAC in progress. Its view is the plaintext it was fed.
pub struct ChunkedMac {
    cipher: Aes128,
    chunk_idx: i64,
    next_boundary: i64,
    pos: i64,
    iv: [u8; 16],
    chunk: [u8; 16],
    meta: [u8; 16],
    fed: Ghost<Seq<u8>>,
}

impl View for ChunkedMac {
    type V = Seq<u8>;

    closed spec fn view(&self) -> Seq<u8> {
        self.fed@
    }
}

impl ChunkedMac {
    /// The file key.
    pub closed spec fn key(&self) -> Seq<u8> {
        cipher_key(self.cipher)
    }

    /// The file's nonce.
    pub closed spec fn nonce(&self) -> Seq<u8> {
        self.iv@.take(8)
    }

    /// The counters and blocks agree with what was fed.
    pub closed spec fn wf(&self) -> bool {
        &&& self.iv@ == self.nonce() + self.nonce()
        &&& self.chunk_idx >= 0
        &&& self.pos == self.fed@.len()
        &&& self.fed@.len() <= MAC_LIMIT
        &&& self.next_boundary == chunk_start(self.chunk_idx as nat + 1)
        &&& chunk_start(self.chunk_idx as nat) <= self.pos < self.next_boundary
        &&& self.meta@ == meta_mac(self.key(), self.iv@, self.fed@, self.chunk_idx as nat)
        &&& self.chunk@ == in_chunk(
            self.key(),
            self.iv@,
            self.fed@.skip(chunk_start(self.chunk_idx as nat) as int),
        )
    }

    /// A MAC that was fed nothing.
    pub fn new(key: [u8; 16], nonce: [u8; 8]) -> (mac: ChunkedMac)
        ensures
            mac.wf(),
            mac.key() == key@,
            mac.nonce() == nonce@,
            mac@ == Seq::<u8>::empty(),
    {
        let mut iv = [0u8; 16];
        let mut i: usize = 0;
        while i < 8
            invariant
                i <= 8,
                forall|j: int| 0 <= j < i ==> #[trigger] iv@[j] == nonce@[j],
                forall|j: int| 8 <= j < 8 + i ==> #[trigger] iv@[j] == nonce@[j - 8],
            decreases 8 - i,
        {
            iv[i] = nonce[i];
            iv[i + 8] = nonce[i];
            i += 1;
        }
        assert(iv@ =~= nonce@ + nonce@);
        assert(iv@.take(8) =~= nonce@);
        let meta = [0u8; 16];
        assert(meta@ =~= Seq::new(16, |i: int| 0u8));
        proof {
            lemma_chunk_start(0);
            assert(Seq::<u8>::empty().skip(0) =~= Seq::<u8>::empty());
        }
        ChunkedMac {
            cipher: new_cipher(&key),
            chunk_idx: 0,
            next_boundary: mac_chunk_size(0),
            pos: 0,
            iv,
            chunk: iv,
            meta,
            fed: Ghost(Seq::empty()),
        }
    }

    /// Folds the finished chunk in and starts the next one.
    fn close_chunk(&mut self)
        requires
            old(self).chunk_idx >= 0,
            old(self).fed@.len() <= MAC_LIMIT,
            old(self).next_boundary == chunk_start(old(self).chunk_idx as nat + 1),
            chunk_start(old(self).chunk_idx as nat) < old(self).fed@.len() <= old(self).next_boundary,
            old(self).meta@ == meta_mac(
                old(self).key(),
                old(self).iv@,
                old(self).fed@,
                old(self).chunk_idx as nat,
            ),
            old(self).chunk@ == cbc_mac(
                old(self).key(),
                old(self).iv@,
                old(self).fed@.skip(chunk_start(old(self).chunk_idx as nat) as int),
            ),
        ensures
            final(self).cipher == old(self).cipher,
            final(self).iv == old(self).iv,
            final(self).fed == old(self).fed,
            final(self).pos == old(self).pos,
            final(self).chunk_idx == old(self).chunk_idx + 1,
            final(self).next_boundary == chunk_start(final(self).chunk_idx as nat + 1),
            final(self).meta@ == meta_mac(
                final(self).key(),
                final(self).iv@,
                final(self).fed@,
                final(self).chunk_idx as nat,
            ),
            final(self).chunk@ == final(self).iv@,
    {
        let ghost k = self.chunk_idx as nat;
        proof {
            lemma_chunk_start(k);
            lemma_chunk_start(k + 1);
            assert(chunk_of(self.fed@, k) =~= self.fed@.skip(chunk_start(k) as int));
        }
        let mut meta = xor_blocks(&self.meta, &self.chunk);
        encrypt_block(&self.cipher, &mut meta);
        self.meta = meta;
        self.chunk = self.iv;
        self.chunk_idx = self.chunk_idx + 1;
        self.next_boundary = self.next_boundary + mac_chunk_size(self.chunk_idx);
    }

    /// Closes the chunk if it is full.
    fn close_if_full(&mut self)
        requires
            old(self).iv@ == old(self).nonce() + old(self).nonce(),
            old(self).chunk_idx >= 0,
            old(self).pos == old(self).fed@.len(),
            old(self).fed@.len() <= MAC_LIMIT,
            old(self).next_boundary == chunk_start(old(self).chunk_idx as nat + 1),
            chunk_start(old(self).chunk_idx as nat) < old(self).pos <= old(self).next_boundary,
            old(self).meta@ == meta_mac(
                old(self).key(),
                old(self).iv@,
                old(self).fed@,
                old(self).chunk_idx as nat,
            ),
            old(self).chunk@ == in_chunk(
                old(self).key(),
                old(self).iv@,
                old(self).fed@.skip(chunk_start(old(self).chunk_idx as nat) as int),
            ),
        ensures
            final(self).wf(),
            final(self).key() == old(self).key(),
            final(self).nonce() == old(self).nonce(),
            final(self)@ == old(self)@,
    {
        if self.pos == self.next_boundary {
            let ghost k = self.chunk_idx as nat;
            proof {
                lemma_chunk_start(k);
                lemma_chunk_start(k + 1);
            }
            self.close_chunk();
            assert(self.fed@.skip(chunk_start(k + 1) as int) =~= Seq::<u8>::empty());
        }
    }

    /// Feeds one whole block at a block boundary.
    fn feed_block(&mut self, block: &[u8; 16])
        requires
            old(self).wf(),
            old(self).pos % 16 == 0,
            old(self).pos + 16 <= old(self).next_boundary,
            old(self).fed@.len() + 16 <= MAC_LIMIT,
        ensures
            final(self).wf(),
            final(self).key() == old(self).key(),
            final(self).nonce() == old(self).nonce(),
            final(self)@ == old(self)@ + block@,
    {
        let ghost k = self.chunk_idx as nat;
        let ghost before = self.fed@;
        let ghost after = before + block@;
        let ghost d = before.skip(chunk_start(k) as int);
        let ghost e = after.skip(chunk_start(k) as int);
        proof {
            lemma_chunk_start(k);
            lemma_meta_prefix(self.key(), self.iv@, before, block@, k);
            assert(e =~= d + block@);
            assert((e.len() - 1) / 16 * 16 == d.len());
            assert(e.take(d.len() as int) =~= d);
            assert(pad16(e.skip(d.len() as int)) =~= block@);
        }
        let mut chunk = xor_blocks(&self.chunk, block);
        encrypt_block(&self.cipher, &mut chunk);
        self.chunk = chunk;
        self.pos = self.pos + 16;
        self.fed = Ghost(after);
        self.close_if_full();
    }

    /// Feeds one byte.
    fn feed_byte(&mut self, b: u8)
        requires
            old(self).wf(),
            old(self).fed@.len() + 1 <= MAC_LIMIT,
        ensures
            final(self).wf(),
            final(self).key() == old(self).key(),
            final(self).nonce() == old(self).nonce(),
            final(self)@ == old(self)@.push(b),
    {
        let ghost k = self.chunk_idx as nat;
        let ghost before = self.fed@;
        let ghost after = before.push(b);
        let ghost d = before.skip(chunk_start(k) as int);
        let ghost e = after.skip(chunk_start(k) as int);
        let ghost n = d.len() as int / 16 * 16;
        let at: usize = (self.pos % 16) as usize;
        proof {
            lemma_chunk_start(k);
            lemma_meta_prefix(self.key(), self.iv@, before, seq![b], k);
            assert(before + seq![b] =~= after);
            assert(e =~= d.push(b));
            assert(at == d.len() % 16);
        }
        let ghost c0 = self.chunk@;
        let byte = self.chunk[at] ^ b;
        self.chunk[at] = byte;
        self.pos = self.pos + 1;
        self.fed = Ghost(after);
        proof {
            // The new byte joins the unfinished block.
            let base = cbc_mac(self.key(), self.iv@, d.take(n));
            assert(e.take(n) =~= d.take(n));
            assert(d.len() % 16 == 0 ==> d.take(n) =~= d);
            let block = pad16(e.skip(n));
            assert(e.skip(n) =~= d.skip(n).push(b));
            assert forall|i: int| 0 <= i < 16 implies self.chunk@[i] == #[trigger] xor16(base, block)[i] by {
                let x = base[i];
                assert(x ^ 0u8 == x) by (bit_vector);
                assert(0u8 ^ b == b) by (bit_vector);
            }
            assert(self.chunk@ =~= xor16(base, block));
            assert((e.len() - 1) / 16 * 16 == n);
        }
        if self.pos % 16 == 0 {
            let mut chunk = self.chunk;
            encrypt_block(&self.cipher, &mut chunk);
            self.chunk = chunk;
        }
        self.close_if_full();
    }

    /// Feeds the next bytes of the plaintext.
    pub fn update(&mut self, data: &[u8])
        requires
            old(self).wf(),
            old(self)@.len() + data@.len() <= MAC_LIMIT,
        ensures
            final(self).wf(),
            final(self).key() == old(self).key(),
            final(self).nonce() == old(self).nonce(),
            final(self)@ == old(self)@ + data@,
    {
        let len: usize = data.len();
        let mut i: usize = 0;
        assert(self@ + data@.take(0) =~= self@);
        while i < len
            invariant
                i <= len == data@.len(),
                self.wf(),
                self.key() == old(self).key(),
                self.nonce() == old(self).nonce(),
                self@ == old(self)@ + data@.take(i as int),
                old(self)@.len() + data@.len() <= MAC_LIMIT,
            decreases len - i,
        {
            if self.pos % 16 == 0 && len - i >= 16 && self.pos + 16 <= self.next_boundary {
                let block = block_at(data, i);
                self.feed_block(&block);
                assert(data@.take(i + 16) =~= data@.take(i as int) + block@);
                i += 16;
            } else {
                self.feed_byte(data[i]);
                assert(data@.take(i + 1) =~= data@.take(i as int).push(data@[i as int]));
                i += 1;
            }
            assert(self@ =~= old(self)@ + data@.take(i as int));
        }
        assert(data@.take(i as int) =~= data@);
    }

    /// Fills up the last block, folds an unfinished chunk in and condenses
    /// the result to the eight bytes kept in a node key.
    pub fn finish(self) -> (out: [u8; 8])
        requires
            self.wf(),
        ensures
            out@ == chunked_mac(self.key(), self.nonce(), self@),
    {
        let mut mac = self;
        let ghost k = mac.chunk_idx as nat;
        let ghost d = mac.fed@.skip(chunk_start(k) as int);
        proof {
            lemma_chunk_start(k);
        }
        if mac.pos % 16 != 0 {
            let mut chunk = mac.chunk;
            encrypt_block(&mac.cipher, &mut chunk);
            mac.chunk = chunk;
            assert(d.len() % 16 != 0);
            assert((d.len() - 1) / 16 * 16 == d.len() as int / 16 * 16);
        }
        if mac.pos > mac.next_boundary - mac_chunk_size(mac.chunk_idx) {
            mac.close_chunk();
            proof {
                lemma_chunks(0, k + 1, self@.len());
            }
        } else {
            proof {
                if k > 0 {
                    lemma_chunk_start((k - 1) as nat);
                }
                lemma_chunks(0, k, self@.len());
            }
        }
        condensed(&mac.meta)
    }
}

/// A block condensed to eight bytes.
fn condensed(meta: &[u8; 16]) -> (out: [u8; 8])
    ensures
        out@ == condense(meta@),
{
    let mut out = [0u8; 8];
    let mut i: usize = 0;
    while i < 4
        invariant
            i <= 4,
            forall|j: int| 0 <= j < i ==> #[trigger] out@[j] == meta@[j] ^ meta@[j + 4],
            forall|j: int| 4 <= j < 4 + i ==> #[trigger] out@[j] == meta@[j + 4] ^ meta@[j + 8],
        decreases 4 - i,
    {
        out[i] = meta[i] ^ meta[i + 4];
        out[i + 4] = meta[i + 8] ^ meta[i + 12];
        i += 1;
    }
    assert(out@ =~= condense(meta@));
    out
}

/// Two blocks, XORed.
pub(crate) fn xor_blocks(a: &[u8; 16], b: &[u8; 16]) -> (out: [u8; 16])
    ensures
        out@ == xor16(a@, b@),
{
    let mut out = [0u8; 16];
    let mut i: usize = 0;
    while i < 16
        invariant
            i <= 16,
            forall|j: int| 0 <= j < i ==> #[trigger] out@[j] == a@[j] ^ b@[j],
        decreases 16 - i,
    {
        out[i] = a[i] ^ b[i];
        i += 1;
    }
    assert(out@ =~= xor16(a@, b@));
    out
}

/// The sixteen bytes of `data` at `from`.
pub(crate) fn block_at(data: &[u8], from: usize) -> (block: [u8; 16])
    requires
        from + 16 <= data@.len(),
    ensures
        block@ == data@.subrange(from as int, from + 16),
{
    let total: usize = data.len();
    let mut block = [0u8; 16];
    let mut i: usize = 0;
    while i < 16
        invariant
            i <= 16,
            from + 16 <= total == data@.len(),
            forall|j: int| 0 <= j < i ==> #[trigger] block@[j] == data@[from + j],
        decreases 16 - i,
    {
        block[i] = data[from + i];
        i += 1;
    }
    assert(block@ =~= data@.subrange(from as int, from + 16));
    block
}

// ---------------------------------------------------------------------------
// Laws
// ---------------------------------------------------------------------------

/// The chunks cover the file: the last one that is counted reaches its end,
/// and the one before does not.
pub proof fn law_chunks_cover(len: nat)
    ensures
        len <= chunk_start(chunk_count(len)),
        chunk_count(len) > 0 ==> chunk_start((chunk_count(len) - 1) as nat) < len,
{
    lemma_chunks_cover(0, len);
}

proof fn lemma_chunks_cover(k: nat, len: nat)
    requires
        k == 0 || chunk_start((k - 1) as nat) < len,
    ensures
        len <= chunk_start(chunks_from(k, len)),
        chunks_from(k, len) >= k,
        chunks_from(k, len) > 0 ==> chunk_start((chunks_from(k, len) - 1) as nat) < len,
    decreases left_of(k, len),
{
    if chunk_start(k) < len {
        lemma_chunk_start(k);
        lemma_chunks_cover(k + 1, len);
    }
}

/// The MAC of an empty file is eight zero bytes.
pub proof fn law_empty_file_mac(key: Seq<u8>, nonce: Seq<u8>)
    ensures
        chunked_mac(key, nonce, Seq::empty()) == Seq::new(8, |i: int| 0u8),
{
    assert(0u8 ^ 0u8 == 0u8) by (bit_vector);
    assert(chunked_mac(key, nonce, Seq::empty()) =~= Seq::new(8, |i: int| 0u8));
}

/// The first eight chunks grow by 128 KiB each, so the boundaries up to the
/// eighth are 128 KiB times 1, 3, 6, 10 and so on. From there on they lie
/// 1 MiB apart, however long the file is.
pub proof fn law_chunk_boundaries(k: nat)
    ensures
        k <= 8 ==> chunk_start(k) == 131072 * (k * (k + 1) / 2),
        k >= 8 ==> chunk_start(k) == 36 * 131072 + (k - 8) * 1048576,
        k >= 7 ==> chunk_start(k + 1) - chunk_start(k) == 1048576,
        k <= 7 ==> chunk_start(k + 1) - chunk_start(k) == 131072 * (k + 1),
    decreases k,
{
    if k > 0 {
        law_chunk_boundaries((k - 1) as nat);
        let j = (k - 1) as nat;
        assert(k * (k + 1) == j * (j + 1) + 2 * k) by (nonlinear_arith)
            requires
                k == j + 1,
        ;
        assert(k * (k + 1) / 2 == j * (j + 1) / 2 + k);
        if k == 8 {
            assert(k * (k + 1) == 72) by (nonlinear_arith)
                requires
                    k == 8,
            ;
        }
    } else {
        assert(k * (k + 1) == 0) by (nonlinear_arith)
            requires
                k == 0,
        ;
    }
}

proof fn lemma_boundaries_grow(a: nat, b: nat)
    requires
        a < b,
    ensures
        chunk_start(a) < chunk_start(b),
    decreases b,
{
    law_chunk_boundaries((b - 1) as nat);
    if a + 1 < b {
        lemma_boundaries_grow(a, (b - 1) as nat);
    }
}

/// Chunk `k` of a file holds the file's bytes from one boundary to the next,
/// or to the end of the file.
pub proof fn law_chunks_hold_the_file(data: Seq<u8>, k: nat, p: int)
    requires
        chunk_start(k) <= p < chunk_start(k + 1),
        p < data.len(),
    ensures
        p - chunk_start(k) < chunk_of(data, k).len(),
        chunk_of(data, k)[p - chunk_start(k)] == data[p],
        chunk_of(data, k).len() <= chunk_start(k + 1) - chunk_start(k),
        chunk_of(data, k).len() <= data.len() - chunk_start(k),
{
}

/// One more block is XORed to the MAC so far, and the result encrypted. A
/// last block that is short is filled up with zeros. The MAC of nothing is
/// what it starts from.
pub proof fn law_mac_goes_on_block_by_block(key: Seq<u8>, iv: Seq<u8>, d: Seq<u8>, b: Seq<u8>, x: Seq<u8>)
    requires
        d.len() % 16 == 0,
        0 < b.len() <= 16,
        x.len() == 16,
        forall|i: int|
            0 <= i < 16 ==> #[trigger] x[i] == cbc_mac(key, iv, d)[i] ^ if i < b.len() {
                b[i]
            } else {
                0u8
            },
    ensures
        cbc_mac(key, iv, d + b) == aes128_encrypt(key, x),
        cbc_mac(key, iv, Seq::empty()) == iv,
{
    let all = d + b;
    let n = (all.len() - 1) / 16 * 16;
    assert(n == d.len());
    assert(all.take(n) =~= d);
    assert(all.skip(n) =~= b);
    assert(x =~= xor16(cbc_mac(key, iv, d), pad16(b)));
}

/// The MAC of one more chunk is XORed to what the chunks so far came to, and
/// the result encrypted. Each chunk starts afresh. Without chunks it is
/// zeros.
pub proof fn law_chunks_are_folded_in(key: Seq<u8>, iv: Seq<u8>, data: Seq<u8>, k: nat, x: Seq<u8>)
    requires
        x.len() == 16,
        forall|i: int|
            0 <= i < 16 ==> #[trigger] x[i] == meta_mac(key, iv, data, k)[i] ^ cbc_mac(key, iv, chunk_of(data, k))[i],
    ensures
        meta_mac(key, iv, data, k + 1) == aes128_encrypt(key, x),
        forall|i: int| 0 <= i < 16 ==> #[trigger] meta_mac(key, iv, data, 0)[i] == 0,
{
    assert(x =~= xor16(meta_mac(key, iv, data, k), cbc_mac(key, iv, chunk_of(data, k))));
}

/// The MAC of a file is that of all the chunks that it reaches into, each of
/// them started with the nonce written twice. Of the four words of the last
/// block, the first two are XORed, and the last two.
pub proof fn law_file_mac(key: Seq<u8>, nonce: Seq<u8>, iv: Seq<u8>, data: Seq<u8>, n: nat, i: int)
    requires
        nonce.len() == 8,
        iv.len() == 16,
        forall|j: int| 0 <= j < 16 ==> #[trigger] iv[j] == nonce[j % 8],
        n > 0 ==> chunk_start((n - 1) as nat) < data.len(),
        data.len() <= chunk_start(n),
        0 <= i < 4,
    ensures
        ({
            let m = meta_mac(key, iv, data, n);
            let mac = chunked_mac(key, nonce, data);
            &&& mac.len() == 8
            &&& mac[i] == m[i] ^ m[4 + i]
            &&& mac[4 + i] == m[8 + i] ^ m[12 + i]
        }),
{
    assert(iv =~= nonce + nonce);
    law_chunks_cover(data.len());
    let c = chunk_count(data.len());
    if c < n {
        if c < n - 1 {
            lemma_boundaries_grow(c, (n - 1) as nat);
        }
    } else if n < c {
        if n < c - 1 {
            lemma_boundaries_grow(n, (c - 1) as nat);
        }
    }
    assert(c == n);
}

} // verus!
