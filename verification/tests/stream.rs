//! Messages are made, taken apart again, and compared with what went in.

use std::cmp;

use openssl::bn::BigNum;
use openssl::ec::{EcGroup, EcKey};
use openssl::ecdsa::EcdsaSig;
use openssl::hash::MessageDigest;
use openssl::md::Md;
use openssl::nid::Nid;
use openssl::pkey::{Id, PKey, Private};
use openssl::pkey_ctx::PkeyCtx;
use openssl::symm::Cipher;

use openpgp_stream::cipher::AEAD_CHUNK_SIZE;
use openpgp_stream::crypto::{AnySigner, Signature, Signer as CryptoSigner};
use openpgp_stream::ecdh::{decrypt, decrypt_unwrap};
use openpgp_stream::error::{Error, Result};
use openpgp_stream::framing::Tag;
use openpgp_stream::key::{
    Ciphertext, Fingerprint, Key, PublicKey, SecretKeyMaterial,
};
use openpgp_stream::signature::SignatureBuilder;
use openpgp_stream::stream::{
    ArbitraryWriter, Armorer, Compressor, Encryptor, Finalized, LiteralWriter, Message, Recipient,
    Signer,
};
use openpgp_stream::types::{
    AEADAlgorithm, CompressionAlgorithm, Curve, DataFormat, Features,
    HashAlgorithm, PublicKeyAlgorithm, SignatureType, SymmetricAlgorithm,
};

/// Takes the underlying writer out of what finalizing a writer has left.
fn inner(f: Finalized) -> Message {
    match f {
        Finalized::Inner(m) => m,
        Finalized::Sink(_) => panic!("no writer is left"),
    }
}

/// Splits octets into packets: the tag, and the body.
fn packets(mut s: &[u8]) -> Vec<(u8, Vec<u8>)> {
    let mut result = Vec::new();
    while !s.is_empty() {
        assert_eq!(s[0] & 0xC0, 0xC0);
        let tag = s[0] & 0x3F;
        s = &s[1..];
        let mut body = Vec::new();
        loop {
            let (n, used, last) = match s[0] {
                0..=191 => (s[0] as usize, 1, true),
                192..=223 => (((s[0] as usize - 192) << 8) + s[1] as usize + 192, 2, true),
                255 => (
                    u32::from_be_bytes([s[1], s[2], s[3], s[4]]) as usize,
                    5,
                    true,
                ),
                p => (1usize << (p - 224), 1, false),
            };
            body.extend_from_slice(&s[used..used + n]);
            s = &s[used + n..];
            if last {
                break;
            }
        }
        result.push((tag, body));
    }
    result
}

/// The body of a literal data packet.
fn literal_body(body: &[u8]) -> &[u8] {
    let n = body[1] as usize;
    &body[2 + n + 4..]
}

fn digest_of(algo: u8, data: &[u8]) -> Vec<u8> {
    let md = match algo {
        2 => MessageDigest::sha1(),
        8 => MessageDigest::sha256(),
        9 => MessageDigest::sha384(),
        10 => MessageDigest::sha512(),
        a => panic!("unexpected hash algorithm {}", a),
    };
    openssl::hash::hash(md, data).unwrap().to_vec()
}

/// A signer with a key in memory.
enum Secret {
    Ed25519(PKey<Private>),
    Rsa(PKey<Private>),
    Dsa(PKey<Private>),
    Ecdsa(EcKey<Private>),
}

struct KeyPair {
    key: Key,
    secret: Secret,
    hashes: Vec<HashAlgorithm>,
}

fn fingerprint4(seed: u8) -> Fingerprint {
    let mut fp = [0u8; 20];
    for (i, b) in fp.iter_mut().enumerate() {
        *b = seed.wrapping_mul(31).wrapping_add(i as u8);
    }
    Fingerprint::V4(fp)
}

fn fingerprint6(seed: u8) -> Fingerprint {
    let mut fp = [0u8; 32];
    for (i, b) in fp.iter_mut().enumerate() {
        *b = seed.wrapping_mul(37).wrapping_add(i as u8);
    }
    Fingerprint::V6(fp)
}

impl KeyPair {
    fn new(fingerprint: Fingerprint, algo: PublicKeyAlgorithm, secret: Secret) -> KeyPair {
        KeyPair {
            key: Key::new(fingerprint, PublicKey::Other { algo }),
            secret,
            hashes: vec![
                HashAlgorithm::SHA256,
                HashAlgorithm::SHA384,
                HashAlgorithm::SHA512,
            ],
        }
    }

    fn ed25519(seed: u8) -> (KeyPair, PKey<Private>) {
        let pkey = PKey::generate_ed25519().unwrap();
        let kp = KeyPair::new(
            fingerprint4(seed),
            PublicKeyAlgorithm::EdDSA,
            Secret::Ed25519(pkey.clone()),
        );
        (kp, pkey)
    }

    fn ed25519_v6(seed: u8) -> (KeyPair, PKey<Private>) {
        let pkey = PKey::generate_ed25519().unwrap();
        let kp = KeyPair::new(
            fingerprint6(seed),
            PublicKeyAlgorithm::Ed25519,
            Secret::Ed25519(pkey.clone()),
        );
        (kp, pkey)
    }

    fn boxed(self) -> AnySigner {
        AnySigner(Box::new(self))
    }
}

fn md_of(algo: HashAlgorithm) -> &'static openssl::md::MdRef {
    match algo {
        HashAlgorithm::SHA256 => Md::sha256(),
        HashAlgorithm::SHA384 => Md::sha384(),
        HashAlgorithm::SHA512 => Md::sha512(),
        _ => panic!("unexpected hash algorithm"),
    }
}

/// Splits the DER encoding of a pair of integers.
fn der_pair(der: &[u8]) -> Vec<Vec<u8>> {
    let mut i = if der[1] & 0x80 != 0 { 2 + (der[1] & 0x7F) as usize } else { 2 };
    let mut r = Vec::new();
    for _ in 0..2 {
        assert_eq!(der[i], 2);
        let n = der[i + 1] as usize;
        r.push(der[i + 2..i + 2 + n].to_vec());
        i += 2 + n;
    }
    r
}

impl CryptoSigner for KeyPair {
    fn public(&self) -> &Key {
        &self.key
    }

    fn acceptable_hashes(&self) -> &[HashAlgorithm] {
        &self.hashes
    }

    fn sign(&mut self, algo: HashAlgorithm, digest: &[u8]) -> Result<Signature> {
        match &self.secret {
            Secret::Ed25519(pkey) => {
                let mut s = openssl::sign::Signer::new_without_digest(pkey).unwrap();
                let sig = s.sign_oneshot_to_vec(digest).unwrap();
                if self.key.version() == 6 {
                    Ok(Signature::Octets(sig))
                } else {
                    Ok(Signature::MPIs(vec![sig[..32].to_vec(), sig[32..].to_vec()]))
                }
            }
            Secret::Rsa(pkey) => {
                let mut ctx = PkeyCtx::new(pkey).unwrap();
                ctx.sign_init().unwrap();
                ctx.set_rsa_padding(openssl::rsa::Padding::PKCS1).unwrap();
                ctx.set_signature_md(md_of(algo)).unwrap();
                let mut sig = Vec::new();
                ctx.sign_to_vec(digest, &mut sig).unwrap();
                Ok(Signature::MPIs(vec![sig]))
            }
            Secret::Dsa(pkey) => {
                let mut ctx = PkeyCtx::new(pkey).unwrap();
                ctx.sign_init().unwrap();
                let mut sig = Vec::new();
                ctx.sign_to_vec(&digest[..32], &mut sig).unwrap();
                Ok(Signature::MPIs(der_pair(&sig)))
            }
            Secret::Ecdsa(key) => {
                let sig = EcdsaSig::sign(digest, key).unwrap();
                Ok(Signature::MPIs(vec![sig.r().to_vec(), sig.s().to_vec()]))
            }
        }
    }
}

/// The parts of a signature packet.
struct ParsedSignature {
    version: u8,
    typ: u8,
    hash: u8,
    hashed: Vec<(u8, Vec<u8>)>,
    unhashed: Vec<(u8, Vec<u8>)>,
    trailer: Vec<u8>,
    prefix: Vec<u8>,
    salt: Vec<u8>,
    rest: Vec<u8>,
}

fn subpackets(mut s: &[u8]) -> Vec<(u8, Vec<u8>)> {
    let mut r = Vec::new();
    while !s.is_empty() {
        let (n, used) = match s[0] {
            0..=191 => (s[0] as usize, 1),
            192..=254 => (((s[0] as usize - 192) << 8) + s[1] as usize + 192, 2),
            255 => (u32::from_be_bytes([s[1], s[2], s[3], s[4]]) as usize, 5),
        };
        r.push((s[used], s[used + 1..used + n].to_vec()));
        s = &s[used + n..];
    }
    r
}

fn parse_signature(body: &[u8]) -> ParsedSignature {
    let v6 = body[0] == 6;
    let count = |s: &[u8]| {
        if v6 {
            (u32::from_be_bytes([s[0], s[1], s[2], s[3]]) as usize, 4)
        } else {
            (u16::from_be_bytes([s[0], s[1]]) as usize, 2)
        }
    };
    let (n, used) = count(&body[4..]);
    let head_len = 4 + used + n;
    let hashed = subpackets(&body[4 + used..head_len]);
    let (n, used) = count(&body[head_len..]);
    let unhashed = subpackets(&body[head_len + used..head_len + used + n]);
    let mut i = head_len + used + n;
    let prefix = body[i..i + 2].to_vec();
    i += 2;
    let mut salt = Vec::new();
    if v6 {
        let n = body[i] as usize;
        salt = body[i + 1..i + 1 + n].to_vec();
        i += 1 + n;
    }
    let mut trailer = body[..head_len].to_vec();
    trailer.push(body[0]);
    trailer.push(0xFF);
    trailer.extend_from_slice(&(head_len as u32).to_be_bytes());
    ParsedSignature {
        version: body[0],
        typ: body[1],
        hash: body[3],
        hashed,
        unhashed,
        trailer,
        prefix,
        salt,
        rest: body[i..].to_vec(),
    }
}

impl ParsedSignature {
    /// The digest of the signature over some data.
    fn digest(&self, data: &[u8]) -> Vec<u8> {
        let mut all = self.salt.clone();
        all.extend_from_slice(data);
        all.extend_from_slice(&self.trailer);
        digest_of(self.hash, &all)
    }

    fn mpis(&self) -> Vec<Vec<u8>> {
        let mut s = &self.rest[..];
        let mut r = Vec::new();
        while !s.is_empty() {
            let bits = u16::from_be_bytes([s[0], s[1]]) as usize;
            let n = (bits + 7) / 8;
            assert!(n == 0 || s[2] != 0);
            r.push(s[2..2 + n].to_vec());
            s = &s[2 + n..];
        }
        r
    }

    fn creation_time(&self) -> u32 {
        let (_, b) = self.hashed.iter().find(|(t, _)| t & 0x7F == 2).unwrap();
        u32::from_be_bytes([b[0], b[1], b[2], b[3]])
    }

    fn issuer_fingerprint(&self) -> &[u8] {
        let (_, b) = self.hashed.iter().find(|(t, _)| *t == 33).unwrap();
        &b[1..]
    }

    /// Verifies an Ed25519 signature over some data.
    fn verifies(&self, pkey: &PKey<Private>, data: &[u8]) -> bool {
        let digest = self.digest(data);
        assert_eq!(&digest[..2], &self.prefix[..]);
        let sig = if self.version == 6 {
            self.rest.clone()
        } else {
            let pad = |v: &Vec<u8>| {
                let mut r = vec![0; 32 - v.len()];
                r.extend_from_slice(v);
                r
            };
            let m = self.mpis();
            let mut sig = pad(&m[0]);
            sig.extend(pad(&m[1]));
            sig
        };
        let mut v = openssl::sign::Verifier::new_without_digest(pkey).unwrap();
        v.verify_oneshot(&sig, &digest).unwrap()
    }
}

#[test]
fn arbitrary() {
    let m = Message::new(Vec::new());
    let mut ustr = ArbitraryWriter::new(m, Tag::Literal).unwrap();
    ustr.write_all(b"u").unwrap(); // type
    ustr.write_all(b"\x00").unwrap(); // fn length
    ustr.write_all(b"\x00\x00\x00\x00").unwrap(); // date
    ustr.write_all(b"Hello world.").unwrap(); // body
    let o = ustr.finalize().unwrap();

    let p = packets(&o);
    assert_eq!(p.len(), 1);
    assert_eq!(p[0].0, 11);
    // Format, no filename, no date.
    assert_eq!(&p[0].1[..6], b"u\x00\x00\x00\x00\x00");
    assert_eq!(literal_body(&p[0].1), b"Hello world.");
}

/// A literal data packet with a text.
fn literal(body: &[u8]) -> Vec<u8> {
    let mut r = vec![0xCB, (6 + body.len()) as u8];
    r.extend_from_slice(b"u\x00\x00\x00\x00\x00");
    r.extend_from_slice(body);
    r
}

/// A compressed data packet that is not compressed.
fn uncompressed(children: &[Vec<u8>]) -> Vec<u8> {
    let body: Vec<u8> = children.concat();
    let mut r = vec![0xC8, (1 + body.len()) as u8, 0];
    r.extend(body);
    r
}

#[test]
fn stream_0() {
    // 1: CompressedData(CompressedData { algo: 0 })
    //  1: Literal(Literal { body: "one (3 bytes)" })
    //  2: Literal(Literal { body: "two (3 bytes)" })
    // 2: Literal(Literal { body: "three (5 bytes)" })
    let mut reference = uncompressed(&[literal(b"one"), literal(b"two")]);
    reference.extend(literal(b"three"));

    let m = Message::new(Vec::new());
    let c = Compressor::new(m).algo(CompressionAlgorithm::Uncompressed).build().unwrap();
    let mut ls = LiteralWriter::new(c).format(DataFormat::Unicode).build().unwrap();
    ls.write_all(b"one").unwrap();
    let c = inner(ls.finalize_one().unwrap()); // Pop the LiteralWriter.
    let mut ls = LiteralWriter::new(c).format(DataFormat::Unicode).build().unwrap();
    ls.write_all(b"two").unwrap();
    let c = inner(ls.finalize_one().unwrap()); // Pop the LiteralWriter.
    let c = inner(c.finalize_one().unwrap()); // Pop the Compressor.
    let mut ls = LiteralWriter::new(c).format(DataFormat::Unicode).build().unwrap();
    ls.write_all(b"three").unwrap();
    let o = ls.finalize().unwrap();

    assert_eq!(o, reference);
}

#[test]
fn stream_1() {
    // 1: CompressedData(CompressedData { algo: 0 })
    //  1: CompressedData(CompressedData { algo: 0 })
    //   1: Literal(Literal { body: "one (3 bytes)" })
    //   2: Literal(Literal { body: "two (3 bytes)" })
    //  2: CompressedData(CompressedData { algo: 0 })
    //   1: Literal(Literal { body: "three (5 bytes)" })
    //   2: Literal(Literal { body: "four (4 bytes)" })
    let reference = uncompressed(&[
        uncompressed(&[literal(b"one"), literal(b"two")]),
        uncompressed(&[literal(b"three"), literal(b"four")]),
    ]);

    let m = Message::new(Vec::new());
    let c0 = Compressor::new(m).algo(CompressionAlgorithm::Uncompressed).build().unwrap();
    let c = Compressor::new(c0).algo(CompressionAlgorithm::Uncompressed).build().unwrap();
    let mut ls = LiteralWriter::new(c).format(DataFormat::Unicode).build().unwrap();
    ls.write_all(b"one").unwrap();
    let c = inner(ls.finalize_one().unwrap());
    let mut ls = LiteralWriter::new(c).format(DataFormat::Unicode).build().unwrap();
    ls.write_all(b"two").unwrap();
    let c = inner(ls.finalize_one().unwrap());
    let c0 = inner(c.finalize_one().unwrap());
    let c = Compressor::new(c0).algo(CompressionAlgorithm::Uncompressed).build().unwrap();
    let mut ls = LiteralWriter::new(c).format(DataFormat::Unicode).build().unwrap();
    ls.write_all(b"three").unwrap();
    let c = inner(ls.finalize_one().unwrap());
    let mut ls = LiteralWriter::new(c).format(DataFormat::Unicode).build().unwrap();
    ls.write_all(b"four").unwrap();
    let o = ls.finalize().unwrap();

    assert_eq!(o, reference);
}

#[test]
fn stream_big() {
    let zeros = vec![0; 1024 * 1024 * 4];
    let m = Message::new(Vec::new());
    let c = Compressor::new(m).algo(CompressionAlgorithm::BZip2).build().unwrap();
    let mut ls = LiteralWriter::new(c).build().unwrap();
    // Write 64 megabytes of zeroes.
    for _ in 0..16 {
        ls.write_all(&zeros).unwrap();
    }
    // Nothing is finalized yet.
    let mut o = ls.drain();
    assert!(o.len() < 1024);

    // Nor does the rest take more.
    o.extend(ls.finalize().unwrap());
    assert!(o.len() < 1024);

    // And it is all there.
    let p = packets(&o);
    assert_eq!(p[0].0, 8);
    assert_eq!(p[0].1[0], 3);
    let mut d = bzip2::read::BzDecoder::new(&p[0].1[1..]);
    let mut plain = Vec::new();
    std::io::Read::read_to_end(&mut d, &mut plain).unwrap();
    let q = packets(&plain);
    assert_eq!(literal_body(&q[0].1).len(), 16 * zeros.len());
}

#[test]
fn signature() {
    let (a, pa) = KeyPair::ed25519(1);
    let (b, pb) = KeyPair::ed25519(2);
    let fpa = a.key.fingerprint().as_bytes().to_vec();

    let m = Message::new(Vec::new());
    let signer = Signer::new(m, a.boxed()).unwrap().add_signer(b.boxed()).unwrap();
    let signer = signer.build().unwrap();
    let mut ls = LiteralWriter::new(signer).build().unwrap();
    ls.write_all(b"Tis, tis, tis.  Tis is important.").unwrap();
    let o = ls.finalize().unwrap();

    let mut good = 0;
    for (tag, body) in packets(&o) {
        if tag == 2 {
            let sig = parse_signature(&body);
            let key = if sig.issuer_fingerprint() == &fpa[..] { &pa } else { &pb };
            assert!(sig.verifies(key, b"Tis, tis, tis.  Tis is important."));
            good += 1;
        }
    }
    assert_eq!(good, 2);
}

/// Derives a key from a password, as the specifier in a packet says.
fn s2k(specifier: &[u8], password: &[u8], len: usize) -> Vec<u8> {
    assert_eq!(specifier[0], 3);
    assert_eq!(specifier[1], 8);
    let c = specifier[10] as usize;
    let count = (16 + (c & 15)) << ((c >> 4) + 6);
    let mut s = specifier[2..10].to_vec();
    s.extend_from_slice(password);
    let mut h = openssl::hash::Hasher::new(MessageDigest::sha256()).unwrap();
    let block: Vec<u8> = s.iter().cloned().cycle().take(s.len() * 4096).collect();
    let mut left = count;
    while left > 0 {
        let n = cmp::min(left, block.len());
        h.update(&block[..n]).unwrap();
        left -= n;
    }
    h.finish().unwrap()[..len].to_vec()
}

/// Decrypts the session key in a packet for a password.
fn open_skesk4(body: &[u8], password: &[u8]) -> Option<(u8, Vec<u8>)> {
    assert_eq!(body[0], 4);
    assert_eq!(body[1], 9);
    let key = s2k(&body[2..13], password, 32);
    let plain = cfb_decrypt(&key, &body[13..]);
    if plain[0] == 9 && plain.len() == 33 {
        Some((plain[0], plain[1..].to_vec()))
    } else {
        None
    }
}

fn cfb_decrypt(key: &[u8], data: &[u8]) -> Vec<u8> {
    openssl::symm::decrypt(Cipher::aes_256_cfb128(), key, Some(&[0; 16]), data).unwrap()
}

/// Decrypts version 1 of an encrypted data packet, and checks its integrity.
fn open_seip1(body: &[u8], sk: &[u8]) -> Option<Vec<u8>> {
    assert_eq!(body[0], 1);
    let plain = cfb_decrypt(sk, &body[1..]);
    if plain[14..16] != plain[16..18] {
        return None;
    }
    let n = plain.len() - 20;
    assert_eq!(&plain[n - 2..n], b"\xD3\x14");
    assert_eq!(digest_of(2, &plain[..n]), &plain[n..]);
    Some(plain[18..n - 2].to_vec())
}

fn hkdf(ikm: &[u8], salt: &[u8], info: &[u8], len: usize) -> Vec<u8> {
    let mut ctx = PkeyCtx::new_id(Id::HKDF).unwrap();
    ctx.derive_init().unwrap();
    ctx.set_hkdf_md(Md::sha256()).unwrap();
    ctx.set_hkdf_key(ikm).unwrap();
    ctx.set_hkdf_salt(salt).unwrap();
    ctx.add_hkdf_info(info).unwrap();
    let mut out = vec![0; len];
    ctx.derive(Some(&mut out)).unwrap();
    out
}

fn aead_open(aead: u8, key: &[u8], nonce: &[u8], aad: &[u8], data: &[u8]) -> Option<Vec<u8>> {
    let cipher = match aead {
        2 => Cipher::aes_256_ocb(),
        3 => Cipher::aes_256_gcm(),
        _ => panic!("unexpected mode"),
    };
    let n = data.len() - 16;
    openssl::symm::decrypt_aead(cipher, key, Some(nonce), aad, &data[..n], &data[n..]).ok()
}

/// Decrypts version 2 of an encrypted data packet.  Returns what could be
/// read, and whether all of it was intact.
fn open_seip2(body: &[u8], sk: &[u8]) -> (Vec<u8>, bool) {
    assert_eq!(&body[..2], &[2, 9]);
    let aead = body[2];
    assert_eq!(body[3], 6);
    let nonce_size = if aead == 2 { 15 } else { 12 };
    let aad = [0xD2, 2, 9, aead, 6];
    let derived = hkdf(sk, &body[4..36], &aad, 32 + nonce_size - 8);
    let nonce = |i: u64| {
        let mut n = derived[32..].to_vec();
        n.extend_from_slice(&i.to_be_bytes());
        n
    };
    let mut rest = &body[36..];
    let mut plain = Vec::new();
    let mut index = 0u64;
    while rest.len() > 16 {
        let n = cmp::min(AEAD_CHUNK_SIZE + 16, rest.len() - 16);
        match aead_open(aead, &derived[..32], &nonce(index), &aad, &rest[..n]) {
            Some(chunk) => plain.extend(chunk),
            None => return (plain, false),
        }
        rest = &rest[n..];
        index += 1;
    }
    let mut last = aad.to_vec();
    last.extend_from_slice(&(plain.len() as u64).to_be_bytes());
    let ok = aead_open(aead, &derived[..32], &nonce(index), &last, rest).is_some();
    (plain, ok)
}

#[test]
fn encryptor() {
    let passwords: Vec<Vec<u8>> = vec![b"streng geheim".to_vec(), b"top secret".to_vec()];
    let message = b"Hello world.";

    // Write a simple encrypted message...
    let m = Message::new(Vec::new());
    let encryptor = Encryptor::with_passwords(m, passwords.clone()).build().unwrap();
    let mut literal = LiteralWriter::new(encryptor).build().unwrap();
    literal.write_all(message).unwrap();
    let o = literal.finalize().unwrap();

    // ... and recover it with every password.
    let p = packets(&o);
    assert_eq!(p.iter().map(|p| p.0).collect::<Vec<u8>>(), vec![3, 3, 18]);
    for (i, password) in passwords.iter().enumerate() {
        let (algo, sk) = open_skesk4(&p[i].1, password).unwrap();
        assert_eq!(algo, SymmetricAlgorithm::AES256.octet());
        let plain = open_seip1(&p[2].1, &sk).unwrap();
        let q = packets(&plain);
        assert_eq!(q.len(), 1);
        assert_eq!(q[0].0, 11);
        assert_eq!(literal_body(&q[0].1), message);
    }
    assert_ne!(open_skesk4(&p[0].1, b"guess"), open_skesk4(&p[0].1, &passwords[0]));
}

/// A key that messages can be encrypted for.
struct EncryptionKey {
    key: Key,
    secret: EncryptionSecret,
}

enum EncryptionSecret {
    Rsa(openssl::rsa::Rsa<Private>),
    X25519(PKey<Private>),
    Cv25519(PKey<Private>),
    Ec(SecretKeyMaterial),
}

fn encryption_key(fingerprint: Fingerprint, curve: Curve, nid: Nid) -> EncryptionKey {
    let group = EcGroup::from_curve_name(nid).unwrap();
    let ec = EcKey::generate(&group).unwrap();
    let mut ctx = openssl::bn::BigNumContext::new().unwrap();
    let q = ec
        .public_key()
        .to_bytes(&group, openssl::ec::PointConversionForm::UNCOMPRESSED, &mut ctx)
        .unwrap();
    EncryptionKey {
        key: Key::new(
            fingerprint,
            PublicKey::ECDH {
                curve,
                q,
                hash: HashAlgorithm::SHA256,
                sym: SymmetricAlgorithm::AES256,
            },
        ),
        secret: EncryptionSecret::Ec(SecretKeyMaterial::ECDH {
            scalar: ec.private_key().to_vec(),
        }),
    }
}

fn nistp256(fingerprint: Fingerprint) -> EncryptionKey {
    encryption_key(fingerprint, Curve::NistP256, Nid::X9_62_PRIME256V1)
}

fn rsa_key(fingerprint: Fingerprint) -> EncryptionKey {
    let rsa = openssl::rsa::Rsa::generate(2048).unwrap();
    EncryptionKey {
        key: Key::new(
            fingerprint,
            PublicKey::RSA { e: rsa.e().to_vec(), n: rsa.n().to_vec() },
        ),
        secret: EncryptionSecret::Rsa(rsa),
    }
}

fn cv25519_key(fingerprint: Fingerprint) -> EncryptionKey {
    let pkey = PKey::generate_x25519().unwrap();
    let mut q = vec![0x40];
    q.extend(pkey.raw_public_key().unwrap());
    EncryptionKey {
        key: Key::new(
            fingerprint,
            PublicKey::ECDH {
                curve: Curve::Cv25519,
                q,
                hash: HashAlgorithm::SHA256,
                sym: SymmetricAlgorithm::AES128,
            },
        ),
        secret: EncryptionSecret::Cv25519(pkey),
    }
}

fn x25519_key(fingerprint: Fingerprint) -> EncryptionKey {
    let pkey = PKey::generate_x25519().unwrap();
    EncryptionKey {
        key: Key::new(
            fingerprint,
            PublicKey::X25519 { u: pkey.raw_public_key().unwrap() },
        ),
        secret: EncryptionSecret::X25519(pkey),
    }
}

fn x25519_secret(key: &PKey<Private>, peer: &[u8]) -> Vec<u8> {
    let peer = PKey::public_key_from_raw_bytes(peer, Id::X25519).unwrap();
    let mut d = openssl::derive::Deriver::new(key).unwrap();
    d.set_peer(&peer).unwrap();
    d.derive_to_vec().unwrap()
}

/// Reads a multiprecision integer, and what follows it.
fn mpi(s: &[u8]) -> (Vec<u8>, &[u8]) {
    let n = (u16::from_be_bytes([s[0], s[1]]) as usize + 7) / 8;
    (s[2..2 + n].to_vec(), &s[2 + n..])
}

/// Decrypts the session key in a packet for a recipient.
fn open_pkesk(body: &[u8], key: &EncryptionKey) -> Vec<u8> {
    let i = match body[0] {
        3 => 9,
        6 => 2 + body[1] as usize,
        v => panic!("unexpected version {}", v),
    };
    assert_eq!(body[i], key.key.pk_algo().octet());
    let rest = &body[i + 1..];
    let plain = match &key.secret {
        EncryptionSecret::Rsa(rsa) => {
            let (c, rest) = mpi(rest);
            assert!(rest.is_empty());
            let mut padded = vec![0; 256 - c.len()];
            padded.extend(c);
            let mut out = vec![0; 256];
            let n =
                rsa.private_decrypt(&padded, &mut out, openssl::rsa::Padding::PKCS1).unwrap();
            out[..n].to_vec()
        }
        EncryptionSecret::X25519(pkey) => {
            let e = &rest[..32];
            let mut wrapped = &rest[33..];
            assert_eq!(rest[32] as usize, wrapped.len());
            if body[0] == 3 {
                assert_eq!(wrapped[0], 9);
                wrapped = &wrapped[1..];
            }
            let mut ikm = e.to_vec();
            ikm.extend(pkey.raw_public_key().unwrap());
            ikm.extend(x25519_secret(pkey, e));
            let kek = hkdf(&ikm, &[], b"OpenPGP X25519", 16);
            let kek = openssl::aes::AesKey::new_decrypt(&kek).unwrap();
            let mut out = vec![0; wrapped.len() - 8];
            openssl::aes::unwrap_key(&kek, None, &mut out, wrapped).unwrap();
            return out;
        }
        EncryptionSecret::Cv25519(pkey) => {
            let (e, rest) = mpi(rest);
            assert_eq!(rest[0] as usize, rest.len() - 1);
            let secret = x25519_secret(pkey, &e[1..]);
            let c = Ciphertext::ECDH { e, key: rest[1..].to_vec() };
            decrypt_unwrap(&key.key, &secret, &c, None).unwrap()
        }
        EncryptionSecret::Ec(secret) => {
            let (e, rest) = mpi(rest);
            assert_eq!(rest[0] as usize, rest.len() - 1);
            let c = Ciphertext::ECDH { e, key: rest[1..].to_vec() };
            decrypt(&key.key, secret, &c, None).unwrap()
        }
    };
    let sk = if body[0] == 3 { &plain[1..plain.len() - 2] } else { &plain[..plain.len() - 2] };
    let sum: u32 = sk.iter().map(|b| *b as u32).sum();
    assert_eq!(&((sum % 65536) as u16).to_be_bytes()[..], &plain[plain.len() - 2..]);
    sk.to_vec()
}

fn aead_messages(algo: AEADAlgorithm) {
    aead_messages_for(algo, cv25519_key(fingerprint4(7)));
    aead_messages_for(algo, x25519_key(fingerprint6(7)));
}

fn aead_messages_for(algo: AEADAlgorithm, key: EncryptionKey) {
    // AEAD data is of the form:
    //
    //   [ chunk1 ][ tag1 ] ... [ chunkN ][ tagN ][ tag ]
    //
    // All chunks are the same size except for the last chunk, which may be
    // shorter.
    for chunks in 0..3 {
        for msg_len in
            cmp::max(24, chunks * AEAD_CHUNK_SIZE) - 24..chunks * AEAD_CHUNK_SIZE + 24
        {
            let mut content: Vec<u8> = Vec::new();
            for i in 0..msg_len {
                content.push(b'0' + ((i % 10) as u8));
            }

            let m = Message::new(Vec::new());
            let r = Recipient::from_features(
                Some(Features::empty().set_seipdv1().set_seipdv2()),
                &key.key,
            );
            let encryptor = match Encryptor::for_recipients(m, vec![r]).aead_algo(algo).build() {
                Ok(e) => e,
                // Skipping because the mode is not supported.
                Err(Error::UnsupportedAEADAlgorithm(a)) => {
                    assert_eq!(a, algo);
                    assert_eq!(a, AEADAlgorithm::EAX);
                    return;
                }
                Err(e) => panic!("{:?}", e),
            };
            let mut literal = LiteralWriter::new(encryptor).build().unwrap();
            literal.write_all(&content).unwrap();
            let msg = literal.finalize().unwrap();

            for do_err in [false, true] {
                let mut msg = msg.clone();
                if do_err {
                    let l = msg.len() - 1;
                    if msg[l] == 0 {
                        msg[l] = 1;
                    } else {
                        msg[l] = 0;
                    }
                }
                let p = packets(&msg);
                assert_eq!(p[0].0, 1);
                assert_eq!(p[0].1[0], 6);
                assert_eq!(p[1].0, 18);
                let sk = open_pkesk(&p[0].1, &key);
                let (plain, ok) = open_seip2(&p[1].1, &sk);
                assert_eq!(ok, !do_err);
                // We only corrupted the final tag, so we should get all the
                // content.
                let q = packets(&plain);
                assert_eq!(msg_len, literal_body(&q[0].1).len());
                assert_eq!(content, literal_body(&q[0].1));
            }
        }
    }
}

#[test]
fn aead_eax() {
    aead_messages(AEADAlgorithm::EAX)
}

#[test]
fn aead_ocb() {
    aead_messages(AEADAlgorithm::OCB)
}

#[test]
fn aead_gcm() {
    aead_messages(AEADAlgorithm::GCM)
}

#[test]
fn signature_at_time() {
    // Generates a signature with a specific Signature Creation Time.
    let (kp, pkey) = KeyPair::ed25519(3);
    let timestamp: i64 = 1_600_000_000 + 14 * 24 * 60 * 60;

    let m = Message::new(Vec::new());
    let signer = Signer::new(m, kp.boxed()).unwrap();
    let signer = signer.creation_time(timestamp);
    let signer = signer.build().unwrap();
    let mut ls = LiteralWriter::new(signer).build().unwrap();
    ls.write_all(b"Tis, tis, tis.  Tis is important.").unwrap();
    let signer = inner(ls.finalize_one().unwrap());
    let mut m = inner(signer.finalize_one().unwrap());
    let o = m.drain();

    let mut good = 0;
    for (tag, body) in packets(&o) {
        if tag == 2 {
            let sig = parse_signature(&body);
            assert_eq!(sig.creation_time() as i64, timestamp);
            assert!(sig.verifies(&pkey, b"Tis, tis, tis.  Tis is important."));
            good += 1;
        }
    }
    assert_eq!(good, 1);
}

/// Checks that newlines are properly normalized when making text
/// signatures.
#[test]
fn issue_530_signing() {
    let normalized_data = b"one\r\ntwo\r\nthree";

    for data in [
        &b"one\r\ntwo\r\nthree"[..], // dos
        b"one\ntwo\nthree",          // unix
        b"one\ntwo\r\nthree",        // mixed
        b"one\r\ntwo\nthree",
        b"one\rtwo\rthree", // classic mac
    ] {
        let (kp, pkey) = KeyPair::ed25519(4);
        let message = Message::new(Vec::new());
        let mut message = Signer::with_template(
            message,
            kp.boxed(),
            SignatureBuilder::new(SignatureType::Text),
        )
        .unwrap()
        .detached()
        .build()
        .unwrap();
        message.write_all(data).unwrap();
        let signature = message.finalize().unwrap();

        let p = packets(&signature);
        assert_eq!(p.len(), 1);
        let sig = parse_signature(&p[0].1);
        assert_eq!(sig.typ, 1);
        assert!(sig.verifies(&pkey, normalized_data));
    }
}

struct BadSigner;

impl CryptoSigner for BadSigner {
    fn public(&self) -> &Key {
        panic!("public not impl")
    }

    /// Returns a list of hashes that this signer accepts.
    fn acceptable_hashes(&self) -> &[HashAlgorithm] {
        &[]
    }

    fn sign(&mut self, _hash_algo: HashAlgorithm, _digest: &[u8]) -> Result<Signature> {
        panic!("sign not impl")
    }
}

struct GoodSigner(Vec<HashAlgorithm>, Key);

impl CryptoSigner for GoodSigner {
    fn public(&self) -> &Key {
        &self.1
    }

    /// Returns a list of hashes that this signer accepts.
    fn acceptable_hashes(&self) -> &[HashAlgorithm] {
        &self.0
    }

    fn sign(&mut self, _hash_algo: HashAlgorithm, _digest: &[u8]) -> Result<Signature> {
        panic!("sign not impl")
    }
}

impl GoodSigner {
    fn boxed(hashes: Vec<HashAlgorithm>, fingerprint: Fingerprint) -> AnySigner {
        AnySigner(Box::new(GoodSigner(
            hashes,
            Key::new(fingerprint, PublicKey::Other { algo: PublicKeyAlgorithm::EdDSA }),
        )))
    }

    fn default_boxed() -> AnySigner {
        GoodSigner::boxed(vec![HashAlgorithm::default()], fingerprint4(5))
    }
}

#[test]
fn overlapping_hashes() {
    let message = Message::new(Vec::new());

    Signer::new(message, GoodSigner::default_boxed()).unwrap().build().unwrap();
}

#[test]
fn no_overlapping_hashes() {
    let message = Message::new(Vec::new());

    if let Err(e) = Signer::new(message, AnySigner(Box::new(BadSigner))) {
        assert!(matches!(e, Error::NoAcceptableHash));
    } else {
        unreachable!();
    };
}

#[test]
fn no_overlapping_hashes_for_new_signer() {
    let message = Message::new(Vec::new());

    let signer = Signer::new(message, GoodSigner::default_boxed()).unwrap();
    if let Err(e) = signer.add_signer(AnySigner(Box::new(BadSigner))) {
        assert!(matches!(e, Error::NoAcceptableHash));
    } else {
        unreachable!();
    };
}

/// Tests that multiple signatures are in the correct order.
#[test]
fn issue_816() {
    let (signer_a, _) = KeyPair::ed25519(8);
    let (signer_b, _) = KeyPair::ed25519(9);
    let first = signer_a.key.keyid().0;
    let second = signer_b.key.keyid().0;

    let message = Message::new(Vec::new());
    let message = Signer::new(message, signer_a.boxed())
        .unwrap()
        .add_signer(signer_b.boxed())
        .unwrap()
        .build()
        .unwrap();
    let mut message = LiteralWriter::new(message).build().unwrap();
    message.write_all(b"Make it so, number one!").unwrap();
    let sink = message.finalize().unwrap();

    let p = packets(&sink);
    assert_eq!(p.len(), 5);
    assert_eq!(p.iter().map(|p| p.0).collect::<Vec<u8>>(), vec![4, 4, 11, 2, 2]);

    // The first signer comes first, and only the last packet says that it is
    // the last one.
    assert_eq!(&p[0].1[4..12], &first[..]);
    assert_eq!(p[0].1[12], 0);
    assert_eq!(&p[1].1[4..12], &second[..]);
    assert_eq!(p[1].1[12], 1);

    // OPS and Signature packets "bracket" the literal, i.e. the last
    // occurring ops packet is met by the first occurring signature packet.
    let issuer = |body: &[u8]| {
        let sig = parse_signature(body);
        let (_, id) = sig.unhashed.iter().find(|(t, _)| *t == 16).unwrap();
        id.clone()
    };
    assert_eq!(issuer(&p[3].1), second);
    assert_eq!(issuer(&p[4].1), first);
}

/// Decrypts the session key in a packet of version 6 for a password.
fn open_skesk6(body: &[u8], password: &[u8]) -> Option<Vec<u8>> {
    assert_eq!(body[0], 6);
    let aead = body[3];
    assert_eq!(body[4], 11);
    let nonce_size = if aead == 2 { 15 } else { 12 };
    assert_eq!(body[1] as usize, 3 + 11 + nonce_size);
    let ikm = s2k(&body[5..16], password, 32);
    let aad = [0xC3, 6, 9, aead];
    let key = hkdf(&ikm, &[], &aad, 32);
    aead_open(aead, &key, &body[16..16 + nonce_size], &aad, &body[16 + nonce_size..])
}

#[test]
fn experimental_aead_encryptor() {
    let message = Message::new(Vec::new());
    let message =
        Encryptor::with_passwords(message, vec!["совершенно секретно".as_bytes().to_vec()])
            .aead_algo(AEADAlgorithm::default())
            .build()
            .unwrap();
    let mut message = LiteralWriter::new(message).build().unwrap();
    message.write_all(b"Hello world.").unwrap();
    let sink = message.finalize().unwrap();

    let p = packets(&sink);
    assert_eq!(p.iter().map(|p| p.0).collect::<Vec<u8>>(), vec![3, 18]);
    let sk = open_skesk6(&p[0].1, "совершенно секретно".as_bytes()).unwrap();
    let (plain, ok) = open_seip2(&p[1].1, &sk);
    assert!(ok);
    assert_eq!(literal_body(&packets(&plain)[0].1), b"Hello world.");
    assert!(open_skesk6(&p[0].1, b"guess").is_none());
}

/// Signs using keys of different algorithms.
#[test]
fn signer() {
    let text = b"Hello world.";
    let sign = |kp: KeyPair| {
        let message = Message::new(Vec::new());
        let message = Signer::new(message, kp.boxed()).unwrap().build().unwrap();
        let mut message = LiteralWriter::new(message).build().unwrap();
        message.write_all(text).unwrap();
        let sink = message.finalize().unwrap();
        let p = packets(&sink);
        assert_eq!(p.iter().map(|p| p.0).collect::<Vec<u8>>(), vec![4, 11, 2]);
        assert_eq!(literal_body(&p[1].1), text);
        let sig = parse_signature(&p[2].1);
        assert_eq!(sig.version, 4);
        assert_eq!(sig.typ, 0);
        sig
    };

    // RSA.
    let rsa = PKey::from_rsa(openssl::rsa::Rsa::generate(2048).unwrap()).unwrap();
    let sig = sign(KeyPair::new(
        fingerprint4(10),
        PublicKeyAlgorithm::RSAEncryptSign,
        Secret::Rsa(rsa.clone()),
    ));
    let mut ctx = PkeyCtx::new(&rsa).unwrap();
    ctx.verify_init().unwrap();
    ctx.set_rsa_padding(openssl::rsa::Padding::PKCS1).unwrap();
    ctx.set_signature_md(Md::sha512()).unwrap();
    let mut padded = vec![0; 256 - sig.mpis()[0].len()];
    padded.extend(&sig.mpis()[0]);
    assert!(ctx.verify(&sig.digest(text), &padded).unwrap());

    // DSA.
    let dsa = openssl::dsa::Dsa::generate(1024).unwrap();
    let dsa = PKey::from_dsa(dsa).unwrap();
    let sig = sign(KeyPair::new(
        fingerprint4(11),
        PublicKeyAlgorithm::DSA,
        Secret::Dsa(dsa.clone()),
    ));
    let m = sig.mpis();
    assert_eq!(m.len(), 2);
    let parsed = openssl::dsa::DsaSig::from_private_components(
        BigNum::from_slice(&m[0]).unwrap(),
        BigNum::from_slice(&m[1]).unwrap(),
    )
    .unwrap();
    let mut ctx = PkeyCtx::new(&dsa).unwrap();
    ctx.verify_init().unwrap();
    assert!(ctx.verify(&sig.digest(text)[..32], &parsed.to_der().unwrap()).unwrap());

    // Elliptic curves.
    for nid in [
        Nid::X9_62_PRIME256V1,
        Nid::SECP384R1,
        Nid::SECP521R1,
        Nid::BRAINPOOL_P256R1,
        Nid::BRAINPOOL_P384R1,
        Nid::BRAINPOOL_P512R1,
        Nid::SECP256K1,
    ] {
        let group = EcGroup::from_curve_name(nid).unwrap();
        let ec = EcKey::generate(&group).unwrap();
        let sig = sign(KeyPair::new(
            fingerprint4(12),
            PublicKeyAlgorithm::ECDSA,
            Secret::Ecdsa(ec.clone()),
        ));
        let m = sig.mpis();
        let parsed = EcdsaSig::from_private_components(
            BigNum::from_slice(&m[0]).unwrap(),
            BigNum::from_slice(&m[1]).unwrap(),
        )
        .unwrap();
        assert!(parsed.verify(&sig.digest(text), &ec).unwrap());
    }
}

/// Encrypts using public key cryptography.
#[test]
fn pk_encryptor() {
    let mut keys = vec![
        rsa_key(fingerprint4(18)),
        rsa_key(fingerprint6(18)),
        cv25519_key(fingerprint4(19)),
        x25519_key(fingerprint4(19)),
        x25519_key(fingerprint6(19)),
    ];
    for (curve, nid) in [
        (Curve::NistP256, Nid::X9_62_PRIME256V1),
        (Curve::NistP384, Nid::SECP384R1),
        (Curve::NistP521, Nid::SECP521R1),
        (Curve::BrainpoolP256, Nid::BRAINPOOL_P256R1),
        (Curve::BrainpoolP384, Nid::BRAINPOOL_P384R1),
        (Curve::BrainpoolP512, Nid::BRAINPOOL_P512R1),
        (Curve::Unknown(vec![0x2b, 0x81, 0x04, 0x00, 0x0a]), Nid::SECP256K1),
    ] {
        keys.push(encryption_key(fingerprint4(20), curve.clone(), nid));
        keys.push(encryption_key(fingerprint6(20), curve, nid));
    }
    for key in keys {
        for features in [Features::sequoia(), Features::empty().set_seipdv1()] {
            let recipient = Recipient::from_features(Some(features), &key.key);
            let message = Message::new(Vec::new());
            let message = Encryptor::for_recipients(message, vec![recipient]).build().unwrap();
            let mut message = LiteralWriter::new(message).build().unwrap();
            message.write_all(b"Hello world.").unwrap();
            let sink = message.finalize().unwrap();

            let p = packets(&sink);
            let sk = open_pkesk(&p[0].1, &key);
            let plain = if features.supports_seipdv2() {
                let (plain, ok) = open_seip2(&p[1].1, &sk);
                assert!(ok);
                plain
            } else {
                open_seip1(&p[1].1, &sk).unwrap()
            };
            assert_eq!(literal_body(&packets(&plain)[0].1), b"Hello world.");
        }
    }
}

#[test]
fn encryptor_lifetime() {
    // The sink and the recipients need not live equally long.
    pub fn encrypt_data<'a>(data: &[u8], recipients: Vec<Recipient<'a>>) -> Result<Vec<u8>> {
        let sink = vec![];
        let message = Message::new(sink);
        let armorer = Armorer::new(message).build()?;
        let encryptor = Encryptor::for_recipients(armorer, recipients).build()?;
        let mut writer = LiteralWriter::new(encryptor).build()?;
        writer.write_all(data)?;
        writer.finalize()
    }

    let key = nistp256(fingerprint4(21));
    let recipient = Recipient::from_features(None, &key.key);
    let o = encrypt_data(b"Hello world.", vec![recipient]).unwrap();
    assert!(o.starts_with(b"-----BEGIN PGP MESSAGE-----\n\n"));
}

/// Encrypts to a v4 and a v6 recipient using SEIPDv1.
#[test]
fn mixed_recipients_seipd1() {
    mixed_recipients(Features::empty().set_seipdv1(), 1)
}

/// Encrypts to a v4 and a v6 recipient using SEIPDv2.
#[test]
fn mixed_recipients_seipd2() {
    mixed_recipients(Features::sequoia(), 2)
}

fn mixed_recipients(bobs_features: Features, seipdv: u8) {
    let alice = x25519_key(fingerprint6(22));
    let bob = cv25519_key(fingerprint4(23));

    let message = Message::new(Vec::new());
    let message = Encryptor::for_recipients(
        message,
        vec![
            Recipient::from_features(Some(Features::sequoia()), &alice.key),
            Recipient::from_features(Some(bobs_features), &bob.key),
        ],
    )
    .build()
    .unwrap();
    let mut message = LiteralWriter::new(message).build().unwrap();
    message.write_all(b"Hello world.").unwrap();
    let sink = message.finalize().unwrap();

    let p = packets(&sink);
    assert_eq!(p.iter().map(|p| p.0).collect::<Vec<u8>>(), vec![1, 1, 18]);
    for (i, key) in [&alice, &bob].iter().enumerate() {
        let sk = open_pkesk(&p[i].1, key);
        let plain = match seipdv {
            1 => {
                assert_eq!(p[i].1[0], 3);
                assert_eq!(p[2].1[0], 1);
                open_seip1(&p[2].1, &sk).unwrap()
            }
            _ => {
                assert_eq!(p[i].1[0], 6);
                assert_eq!(p[2].1[0], 2);
                let (plain, ok) = open_seip2(&p[2].1, &sk);
                assert!(ok);
                plain
            }
        };
        assert_eq!(literal_body(&packets(&plain)[0].1), b"Hello world.");
    }
}
