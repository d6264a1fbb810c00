use aes::cipher::generic_array::GenericArray;
use aes::cipher::{BlockEncrypt, KeyInit, KeyIvInit, StreamCipher};
use aes::Aes128;
use ctr::Ctr128BE;
use megadl::crypto::{
    b64decode, b64encode, ctr_at, decrypt_attrs, decrypt_ecb_b64, sanitize_name, unpack_file_key, ChunkedMac,
};

fn encrypted(key: &[u8; 16], block: [u8; 16]) -> [u8; 16] {
    let mut b = GenericArray::from(block);
    Aes128::new(&GenericArray::from(*key)).encrypt_block(&mut b);
    b.into()
}

fn xored(a: [u8; 16], b: &[u8]) -> [u8; 16] {
    let mut out = a;
    for (x, y) in out.iter_mut().zip(b) {
        *x ^= y;
    }
    out
}

fn attributes(key: &[u8; 16], text: &str) -> String {
    let mut data = text.as_bytes().to_vec();
    while data.len() % 16 != 0 {
        data.push(0);
    }
    let mut prev = [0u8; 16];
    let mut out = Vec::new();
    for block in data.chunks(16) {
        prev = encrypted(key, xored(prev, block));
        out.extend_from_slice(&prev);
    }
    b64encode(&out)
}

fn noise(len: usize) -> Vec<u8> {
    let mut x: u32 = 12345;
    (0..len)
        .map(|_| {
            x = x.wrapping_mul(1664525).wrapping_add(1013904223);
            (x >> 24) as u8
        })
        .collect()
}

fn mac_by_chunks(key: &[u8; 16], nonce: &[u8; 8], data: &[u8]) -> [u8; 8] {
    let mut iv = [0u8; 16];
    iv[..8].copy_from_slice(nonce);
    iv[8..].copy_from_slice(nonce);
    let mut meta = [0u8; 16];
    let mut rest = data;
    let mut k = 1;
    while !rest.is_empty() {
        let n = rest.len().min(131072 * k.min(8));
        let mut mac = iv;
        for block in rest[..n].chunks(16) {
            mac = encrypted(key, xored(mac, block));
        }
        meta = encrypted(key, xored(meta, &mac));
        rest = &rest[n..];
        k += 1;
    }
    let mut out = [0u8; 8];
    for i in 0..4 {
        out[i] = meta[i] ^ meta[i + 4];
        out[i + 4] = meta[i + 8] ^ meta[i + 12];
    }
    out
}

#[test]
fn base64_known_answers() {
    assert_eq!(b64encode(b""), "");
    assert_eq!(b64encode(b"f"), "Zg");
    assert_eq!(b64encode(b"foobar"), "Zm9vYmFy");
    assert_eq!(b64encode(&[0xfb, 0xff, 0xfe]), "-__-");
    assert_eq!(b64decode("Zm9vYmE=").unwrap(), b"fooba");
    assert_eq!(b64decode("-__-").unwrap(), vec![0xfb, 0xff, 0xfe]);
    assert_eq!(b64decode("Zg==").unwrap(), b"f");
    assert_eq!(b64decode("Zg!").unwrap_err(), "invalid base64 byte 33");
}

#[test]
fn base64_decodes_what_it_encoded() {
    for len in 0..70 {
        let data = noise(len);
        assert_eq!(b64decode(&b64encode(&data)).unwrap(), data);
    }
}

#[test]
fn key_blobs_are_decrypted_block_by_block() {
    // The example of FIPS 197, twice.
    let key: Vec<u8> = (0..16).collect();
    let cipher: [u8; 16] =
        [0x69, 0xc4, 0xe0, 0xd8, 0x6a, 0x7b, 0x04, 0x30, 0xd8, 0xcd, 0xb7, 0x80, 0x70, 0xb4, 0xc5, 0x5a];
    let plain: Vec<u8> = (0..16).map(|i| i * 17).collect();
    let twice = [cipher, cipher].concat();
    assert_eq!(decrypt_ecb_b64(&key, &b64encode(&twice)).unwrap(), [plain.clone(), plain].concat());
    assert_eq!(decrypt_ecb_b64(&key, &b64encode(&cipher[..15])).unwrap_err(), "cipher length 15 not a block multiple");
    assert_eq!(decrypt_ecb_b64(&key, "").unwrap_err(), "cipher length 0 not a block multiple");
    assert_eq!(decrypt_ecb_b64(&key[..5], &b64encode(&cipher)).unwrap_err(), "Invalid Length");
    assert_eq!(decrypt_ecb_b64(&key, "*").unwrap_err(), "invalid base64 byte 42");
}

#[test]
fn file_keys_are_unpacked() {
    let raw: Vec<u8> = (0..32).collect();
    let key = unpack_file_key(&raw).unwrap();
    assert_eq!(key.aes, [16u8; 16]);
    assert_eq!(key.nonce, [16, 17, 18, 19, 20, 21, 22, 23]);
    assert_eq!(key.meta_mac, [24, 25, 26, 27, 28, 29, 30, 31]);
    match unpack_file_key(&raw[..31]) {
        Err(e) => assert_eq!(e, "file key is 31 bytes, want 32"),
        Ok(_) => panic!("a short key was taken"),
    }
}

#[test]
fn attributes_give_the_name() {
    let key = [7u8; 16];
    assert_eq!(decrypt_attrs(&key, &attributes(&key, "MEGA{\"n\":\"a \u{e9}.txt\",\"c\":1}")).unwrap(), "a \u{e9}.txt");
    assert_eq!(decrypt_attrs(&key, &attributes(&key, "MEGA{\"n\":\"\"}")).unwrap_err(), "attributes are missing the node name");
    assert_eq!(decrypt_attrs(&key, &attributes(&key, "MEGA{\"n\":3}")).unwrap_err(), "attributes are missing the node name");
    assert_eq!(decrypt_attrs(&key, &attributes(&key, "MEGX{\"n\":\"a\"}")).unwrap_err(), "malformed attributes");
    assert_eq!(decrypt_attrs(&[8u8; 16], &attributes(&key, "MEGA{\"n\":\"a\"}")).unwrap_err(), "malformed attributes");
    let broken = decrypt_attrs(&key, &attributes(&key, "MEGA{\"n\":")).unwrap_err();
    let expected = serde_json::from_slice::<serde_json::Value>(b"{\"n\":").unwrap_err().to_string();
    assert_eq!(broken, format!("malformed attributes: {expected}"));
    assert_eq!(decrypt_attrs(&key, "AAAA").unwrap_err(), "attribute length 3 not a block multiple");
    assert_eq!(decrypt_attrs(&key, "\u{e9}").unwrap_err(), "invalid base64 byte 195");
}

#[test]
fn names_become_path_components() {
    assert_eq!(sanitize_name("a/b/c").unwrap(), "a_b_c");
    assert_eq!(sanitize_name("...").unwrap(), "...");
    assert_eq!(sanitize_name("/").unwrap(), "_");
    assert_eq!(sanitize_name("").unwrap_err(), "invalid remote file name \"\"");
    assert_eq!(sanitize_name(".").unwrap_err(), "invalid remote file name \".\"");
    assert_eq!(sanitize_name("..").unwrap_err(), "invalid remote file name \"..\"");
}

#[test]
fn the_key_stream_starts_anywhere() {
    let key = [1u8; 16];
    let nonce = [9, 8, 7, 6, 5, 4, 3, 2];
    let mut iv = [0u8; 16];
    iv[..8].copy_from_slice(&nonce);
    let mut whole = noise(1000);
    let plain = whole.clone();
    Ctr128BE::<Aes128>::new(&key.into(), &iv.into()).apply_keystream(&mut whole);
    assert_ne!(plain, whole);
    for off in [0usize, 1, 15, 16, 17, 333, 992, 1000] {
        let mut part = plain[off..].to_vec();
        let mut stream = ctr_at(key, nonce, off as u64);
        let cut = part.len() / 3;
        stream.apply_keystream(&mut part[..cut]);
        stream.apply_keystream(&mut part[cut..]);
        assert_eq!(part, whole[off..]);
        // Once more gives the plaintext back.
        ctr_at(key, nonce, off as u64).apply_keystream(&mut part);
        assert_eq!(part, plain[off..]);
    }
}

#[test]
fn the_mac_is_that_of_the_chunks() {
    let key = [3u8; 16];
    let nonce = [1, 2, 3, 4, 5, 6, 7, 8];
    let data = noise(800_000);
    for len in [0usize, 1, 15, 16, 17, 131071, 131072, 131073, 393216, 393217, 393232, 800_000] {
        let expected = mac_by_chunks(&key, &nonce, &data[..len]);
        for step in [7919usize, 65536, 800_000] {
            let mut mac = ChunkedMac::new(key, nonce);
            for part in data[..len].chunks(step) {
                mac.update(part);
            }
            assert_eq!(mac.finish(), expected, "{len} {step}");
        }
    }
    assert_eq!(ChunkedMac::new(key, nonce).finish(), [0u8; 8]);
}

#[test]
fn chunks_stop_growing_at_one_mebibyte() {
    let key = [5u8; 16];
    let nonce = [0u8; 8];
    let data = noise(36 * 131072 + 2 * 1048576 + 5);
    let mut mac = ChunkedMac::new(key, nonce);
    mac.update(&data);
    assert_eq!(mac.finish(), mac_by_chunks(&key, &nonce, &data));
}
