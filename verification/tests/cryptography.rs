//! Digests, ciphers, session keys and signatures.

use openssl::bn::BigNum;
use openssl::ec::{EcGroup, EcKey, PointConversionForm};
use openssl::nid::Nid;
use openssl::pkey::{Id, PKey, Private};

use openpgp_stream::armor::ArmorWriter;
use openpgp_stream::bytes::{push_be16, push_be32, push_be64, to_decimal};
use openpgp_stream::cipher::{cfb_once, schedule, AeadEncryptor};
use openpgp_stream::crypto::{AnySigner, Signature, Signer as CryptoSigner};
use openpgp_stream::ecdh;
use openpgp_stream::encryptor::{start_seip2, Draws};
use openpgp_stream::error::{Error, Result};
use openpgp_stream::esk::{
    assemble_skesk4, assemble_skesk6, make_payload, make_pkesk3, make_pkesk6,
};
use openpgp_stream::hashing::{derive_key, hash_once, Context, HashingMode};
use openpgp_stream::key::{
    push_mpi, Ciphertext, Fingerprint, Key, KeyHandle, KeyID, PublicKey, SecretKeyMaterial,
};
use openpgp_stream::pk::{encrypt_for, x25519_encrypt, x25519_wrap};
use openpgp_stream::signature::{SignatureBuilder, Subpacket};
use openpgp_stream::signing::{SignatureMode, Signing};
use openpgp_stream::stack::{write_mdc, Cookie, Filter, Layer};
use openpgp_stream::stream::{
    Armorer, Compressor, Encryptor, Finalized, LiteralWriter, Message, Recipient, Signer,
};
use openpgp_stream::textfilter::DashEscapeFilter;
use openpgp_stream::types::{
    AEADAlgorithm, Curve, Features, HashAlgorithm, Kind, PublicKeyAlgorithm, SignatureType,
    SymmetricAlgorithm,
};

fn unhex(s: &str) -> Vec<u8> {
    (0..s.len() / 2).map(|i| u8::from_str_radix(&s[2 * i..2 * i + 2], 16).unwrap()).collect()
}

#[test]
fn numbers() {
    let mut v = Vec::new();
    push_be16(&mut v, 0x0102);
    push_be32(&mut v, 0x03040506);
    push_be64(&mut v, 0x0708090a0b0c0d0e);
    assert_eq!(v, (1..15).collect::<Vec<u8>>());
    assert_eq!(to_decimal(0), "0");
    assert_eq!(to_decimal(1234567890), "1234567890");
    assert_eq!(to_decimal(u64::MAX), "18446744073709551615");
}

#[test]
fn multiprecision_integers() {
    let mpi = |s: &[u8]| {
        let mut v = Vec::new();
        push_mpi(&mut v, s).unwrap();
        v
    };
    assert_eq!(mpi(&[]), [0, 0]);
    assert_eq!(mpi(&[0, 0]), [0, 0]);
    assert_eq!(mpi(&[1]), [0, 1, 1]);
    assert_eq!(mpi(&[0, 1, 0xFF]), [0, 9, 1, 0xFF]);
    assert_eq!(mpi(&[0x40, 7]), [0, 15, 0x40, 7]);
    // The number of bits must fit into two octets.
    let mut v = Vec::new();
    assert!(matches!(push_mpi(&mut v, &[0xFF; 8192]), Err(Error::TooLarge)));
    let mut largest = vec![0xFF; 8192];
    largest[0] = 0x7F;
    assert_eq!(mpi(&largest)[..2], [0xFF, 0xFF]);
}

#[test]
fn digests() {
    assert_eq!(
        hash_once(HashAlgorithm::SHA256, b"abc").unwrap(),
        unhex("ba7816bf8f01cfea414140de5dae2223b00361a396177a9cb410ff61f20015ad")
    );
    assert_eq!(
        hash_once(HashAlgorithm::SHA1, b"abc").unwrap(),
        unhex("a9993e364706816aba3e25717850c26c9cd0d89d")
    );
    assert_eq!(hash_once(HashAlgorithm::SHA384, b"abc").unwrap().len(), 48);
    assert_eq!(hash_once(HashAlgorithm::SHA512, b"abc").unwrap().len(), 64);
    assert_eq!(hash_once(HashAlgorithm::SHA224, b"abc").unwrap().len(), 28);
    assert_eq!(hash_once(HashAlgorithm::SHA3_256, b"abc").unwrap().len(), 32);
    assert_eq!(hash_once(HashAlgorithm::SHA3_512, b"abc").unwrap().len(), 64);
    match hash_once(HashAlgorithm::Unknown(99), b"abc") {
        Err(Error::UnsupportedHashAlgorithm(a)) => assert_eq!(a, HashAlgorithm::Unknown(99)),
        _ => panic!("expected an error"),
    }
}

#[test]
fn feedback_mode() {
    // The first block is the plaintext, masked by the encryption of zeros.
    let key = unhex("2b7e151628aed2a6abf7158809cf4f3c");
    let out = cfb_once(SymmetricAlgorithm::AES128, &key, &[0; 16]).unwrap();
    assert_eq!(out, unhex("7df76b0c1ab899b33e42f047b91b546f"));
    match cfb_once(SymmetricAlgorithm::Twofish, &[0; 32], b"") {
        Err(Error::UnsupportedSymmetricAlgorithm(a)) => {
            assert_eq!(a, SymmetricAlgorithm::Twofish);
        }
        _ => panic!("expected an error"),
    }
}

#[test]
fn aead_chunks() {
    // However the data is cut into writes, the same comes out.
    let data: Vec<u8> = (0..10_000).map(|i| i as u8).collect();
    let seal = |cut: usize| {
        let mut a = AeadEncryptor::new(
            SymmetricAlgorithm::AES128,
            AEADAlgorithm::GCM,
            vec![1; 16],
            vec![2; 4],
            vec![3; 5],
        )
        .unwrap();
        let mut out = Vec::new();
        for piece in data.chunks(cut) {
            out.extend(a.push(piece).unwrap());
        }
        out.extend(a.finish().unwrap());
        out
    };
    let whole = seal(10_000);
    assert_eq!(whole.len(), 10_000 + 4 * 16);
    for cut in [1, 37, 4095, 4096, 4097, 8192] {
        assert_eq!(seal(cut), whole);
    }
    // Without data there is only the last tag.
    let a = AeadEncryptor::new(
        SymmetricAlgorithm::AES256,
        AEADAlgorithm::OCB,
        vec![1; 32],
        vec![2; 7],
        vec![3; 5],
    )
    .unwrap();
    assert_eq!(a.finish().unwrap().len(), 16);
}

#[test]
fn password_derivation() {
    let a = derive_key(b"saltsalt", b"password", 32).unwrap();
    assert_eq!(a.len(), 32);
    // The count is a multiple of the length of salt and password.
    let mut h = openssl::hash::Hasher::new(openssl::hash::MessageDigest::sha256()).unwrap();
    let block = b"saltsaltpassword".repeat(4096);
    let mut left = 0x3E0_0000usize;
    while left > 0 {
        let n = std::cmp::min(left, block.len());
        h.update(&block[..n]).unwrap();
        left -= n;
    }
    assert_eq!(a, h.finish().unwrap().to_vec());
    assert_eq!(derive_key(b"saltsalt", b"password", 16).unwrap(), a[..16]);
    assert_ne!(derive_key(b"saltsalt", b"passwort", 32).unwrap(), a);
}

fn ecdh_pair(curve: Curve, nid: Nid) -> (Key, SecretKeyMaterial) {
    let group = EcGroup::from_curve_name(nid).unwrap();
    let ec = EcKey::generate(&group).unwrap();
    let mut ctx = openssl::bn::BigNumContext::new().unwrap();
    let q =
        ec.public_key().to_bytes(&group, PointConversionForm::UNCOMPRESSED, &mut ctx).unwrap();
    (
        Key::new(
            Fingerprint::V4([9; 20]),
            PublicKey::ECDH {
                curve,
                q,
                hash: HashAlgorithm::SHA512,
                sym: SymmetricAlgorithm::AES256,
            },
        ),
        SecretKeyMaterial::ECDH { scalar: ec.private_key().to_vec() },
    )
}

fn p256() -> (Key, SecretKeyMaterial) {
    ecdh_pair(Curve::NistP256, Nid::X9_62_PRIME256V1)
}

#[test]
fn ecdh_reads_back() {
    for (curve, nid) in [
        (Curve::NistP256, Nid::X9_62_PRIME256V1),
        (Curve::NistP384, Nid::SECP384R1),
        (Curve::NistP521, Nid::SECP521R1),
    ] {
        let (key, secret) = ecdh_pair(curve, nid);
        for len in [16usize, 24, 32, 39, 40] {
            let sk: Vec<u8> = (0..len as u8).collect();
            let c = ecdh::encrypt(&key, &sk).unwrap();
            assert_eq!(ecdh::decrypt(&key, &secret, &c, Some(len)).unwrap(), sk);
            if len < 40 {
                assert_eq!(ecdh::decrypt(&key, &secret, &c, None).unwrap(), sk);
            }
            match &c {
                Ciphertext::ECDH { e, key } => {
                    assert_eq!(e[0], 4);
                    assert_eq!(key.len(), 48);
                    assert!(!key.windows(16).any(|w| w == &sk[..16]));
                }
                _ => panic!("expected ECDH"),
            }
        }
    }
}

#[test]
fn ecdh_with_given_ephemeral_key() {
    let (key, secret) = p256();
    let group = EcGroup::from_curve_name(Nid::X9_62_PRIME256V1).unwrap();
    let mut ctx = openssl::bn::BigNumContext::new().unwrap();
    let eph = EcKey::generate(&group).unwrap();
    let point =
        eph.public_key().to_bytes(&group, PointConversionForm::UNCOMPRESSED, &mut ctx).unwrap();
    let scalar = eph.private_key().to_vec();
    let wrapped = |c: Ciphertext| match c {
        Ciphertext::ECDH { e, key } => (e, key),
        _ => panic!("expected ECDH"),
    };
    let a = ecdh::encrypt_with(&key, b"0123456789abcdef", &scalar, point.clone()).unwrap();
    let b = ecdh::encrypt_with(&key, b"0123456789abcdef", &scalar, point.clone()).unwrap();
    assert_eq!(
        ecdh::decrypt(&key, &secret, &a, Some(16)).unwrap(),
        b"0123456789abcdef".to_vec()
    );
    let a = wrapped(a);
    assert_eq!(a, wrapped(b));
    assert_eq!(a.0, point);
}

fn ecdh_error(r: Result<Ciphertext>) -> Error {
    match r {
        Ok(_) => panic!("expected an error"),
        Err(e) => e,
    }
}

fn text(e: Error) -> String {
    match e {
        Error::InvalidArgument(t) => t,
        Error::InvalidOperation(t) => t,
        e => panic!("unexpected {:?}", e),
    }
}

#[test]
fn ecdh_errors() {
    let other = Key::new(
        Fingerprint::V4([9; 20]),
        PublicKey::Other { algo: PublicKeyAlgorithm::DSA },
    );
    assert_eq!(text(ecdh_error(ecdh::encrypt(&other, &[0; 16]))), "Expected an ECDHPublicKey");
    let (key, secret) = p256();
    assert_eq!(text(ecdh_error(ecdh::encrypt(&key, &[0; 41]))), "Plaintext data too large");
    let with_curve = |curve: Curve, q: Vec<u8>| {
        Key::new(
            Fingerprint::V4([9; 20]),
            PublicKey::ECDH {
                curve,
                q,
                hash: HashAlgorithm::SHA512,
                sym: SymmetricAlgorithm::AES256,
            },
        )
    };
    assert_eq!(
        text(ecdh_error(ecdh::encrypt(&with_curve(Curve::Cv25519, vec![0x40; 33]), &[0; 16]))),
        "implemented elsewhere"
    );
    assert!(matches!(
        ecdh_error(ecdh::encrypt(&with_curve(Curve::Ed25519, vec![0x40; 33]), &[0; 16])),
        Error::UnsupportedEllipticCurve(_)
    ));
    // Not a point on the curve.
    assert!(matches!(
        ecdh_error(ecdh::encrypt(&with_curve(Curve::NistP256, vec![4; 65]), &[0; 16])),
        Error::Backend
    ));

    let c = ecdh::encrypt(&key, b"0123456789abcdef").unwrap();
    let open = |key: &Key, secret: &SecretKeyMaterial, c: &Ciphertext, len: Option<usize>| {
        match ecdh::decrypt(key, secret, c, len) {
            Ok(_) => panic!("expected an error"),
            Err(e) => text(e),
        }
    };
    assert_eq!(open(&other, &secret, &c, None), "Expected an ECDHPublicKey");
    assert_eq!(
        open(&key, &SecretKeyMaterial::Other { algo: PublicKeyAlgorithm::DSA }, &c, None),
        "Expected an ECDHPublicKey"
    );
    assert_eq!(
        open(&key, &secret, &Ciphertext::RSA { c: vec![1] }, None),
        "Expected an ECDHPublicKey"
    );
    assert_eq!(open(&key, &secret, &c, Some(17)), "bad padding");
    assert_eq!(open(&key, &secret, &c, Some(41)), "message too small");
    assert_eq!(
        open(&with_curve(Curve::Cv25519, vec![0x40; 33]), &secret, &c, None),
        "implemented elsewhere"
    );
    // Another recipient.
    let (other_key, other_secret) = p256();
    assert_eq!(open(&other_key, &other_secret, &c, None), "Bad key");

    // The algorithms of the key encryption key.
    let with_kdf = |hash: HashAlgorithm, sym: SymmetricAlgorithm| {
        let q = match key.mpis() {
            PublicKey::ECDH { q, .. } => q.clone(),
            _ => panic!("expected ECDH"),
        };
        Key::new(
            Fingerprint::V4([9; 20]),
            PublicKey::ECDH { curve: Curve::NistP256, q, hash, sym },
        )
    };
    assert!(matches!(
        ecdh_error(ecdh::encrypt(
            &with_kdf(HashAlgorithm::SHA512, SymmetricAlgorithm::CAST5),
            &[0; 16]
        )),
        Error::UnsupportedSymmetricAlgorithm(SymmetricAlgorithm::CAST5)
    ));
    assert_eq!(
        text(ecdh_error(ecdh::encrypt(
            &with_kdf(HashAlgorithm::SHA1, SymmetricAlgorithm::AES256),
            &[0; 16]
        ))),
        "Digest too short"
    );
}

#[test]
fn padding_is_bound_to_the_length() {
    let (key, secret) = p256();
    // A wrapped session key of the full length has no padding.
    let c = ecdh::encrypt(&key, &[40; 40]).unwrap();
    assert_eq!(ecdh::decrypt(&key, &secret, &c, Some(40)).unwrap(), vec![40; 40]);
    assert_eq!(ecdh::decrypt(&key, &secret, &c, None).unwrap(), Vec::<u8>::new());
}

#[test]
fn payloads() {
    assert_eq!(make_payload(None, &[1, 2, 0xFF]), [1, 2, 0xFF, 1, 2]);
    assert_eq!(
        make_payload(Some(SymmetricAlgorithm::AES256), &[1, 2, 0xFF]),
        [9, 1, 2, 0xFF, 1, 2]
    );
    // The checksum wraps around.
    let many = vec![0xFF; 300];
    let p = make_payload(None, &many);
    assert_eq!(p[300..], ((300u32 * 255 % 65536) as u16).to_be_bytes());
}

#[test]
fn rsa_recipient() {
    let rsa = openssl::rsa::Rsa::generate(2048).unwrap();
    let key = Key::new(
        Fingerprint::V4([1; 20]),
        PublicKey::RSA { e: rsa.e().to_vec(), n: rsa.n().to_vec() },
    );
    let sk = [7u8; 32];
    let c = match encrypt_for(&key, Some(SymmetricAlgorithm::AES256), &sk).unwrap() {
        Ciphertext::RSA { c } => c,
        _ => panic!("expected RSA"),
    };
    let mut out = vec![0; 256];
    let n = rsa.private_decrypt(&c, &mut out, openssl::rsa::Padding::PKCS1).unwrap();
    assert_eq!(out[..n], make_payload(Some(SymmetricAlgorithm::AES256), &sk));

    let p = make_pkesk3(&None, SymmetricAlgorithm::AES256, &Ciphertext::RSA { c: vec![1, 2] });
    assert_eq!(
        p.unwrap(),
        [0xC1, 14, 3, 0, 0, 0, 0, 0, 0, 0, 0, 1, 0, 9, 1, 2]
    );
}

fn hkdf(ikm: &[u8], info: &[u8], len: usize) -> Vec<u8> {
    let mut ctx = openssl::pkey_ctx::PkeyCtx::new_id(Id::HKDF).unwrap();
    ctx.derive_init().unwrap();
    ctx.set_hkdf_md(openssl::md::Md::sha256()).unwrap();
    ctx.set_hkdf_key(ikm).unwrap();
    ctx.add_hkdf_info(info).unwrap();
    let mut out = vec![0; len];
    ctx.derive(Some(&mut out)).unwrap();
    out
}

fn x25519_secret(key: &PKey<Private>, peer: &[u8]) -> Vec<u8> {
    let peer = PKey::public_key_from_raw_bytes(peer, Id::X25519).unwrap();
    let mut d = openssl::derive::Deriver::new(key).unwrap();
    d.set_peer(&peer).unwrap();
    d.derive_to_vec().unwrap()
}

fn open_x25519(key: &PKey<Private>, e: &[u8], wrapped: &[u8]) -> Vec<u8> {
    let mut ikm = e.to_vec();
    ikm.extend(key.raw_public_key().unwrap());
    ikm.extend(x25519_secret(key, e));
    let kek = hkdf(&ikm, b"OpenPGP X25519", 16);
    let kek = openssl::aes::AesKey::new_decrypt(&kek).unwrap();
    let mut out = vec![0; wrapped.len() - 8];
    openssl::aes::unwrap_key(&kek, None, &mut out, wrapped).unwrap();
    out
}

#[test]
fn x25519_recipient() {
    let secret = PKey::generate_x25519().unwrap();
    let u = secret.raw_public_key().unwrap();
    let key = Key::new(Fingerprint::V6([1; 32]), PublicKey::X25519 { u: u.clone() });
    let sk = [7u8; 32];
    let c = encrypt_for(&key, None, &sk).unwrap();
    match &c {
        Ciphertext::X25519 { e, key } => assert_eq!(open_x25519(&secret, e, key), sk),
        _ => panic!("expected X25519"),
    }
    // The packet of version 3 tells the algorithm in the clear.
    let p6 = make_pkesk6(&None, &c).unwrap();
    assert_eq!(p6.len(), 2 + 1 + 1 + 1 + 32 + 1 + 40);
    assert_eq!(p6[2..5], [6, 0, 25]);
    assert_eq!(p6[37], 40);
    let p3 = make_pkesk3(&None, SymmetricAlgorithm::AES256, &c).unwrap();
    assert_eq!(p3[2 + 9], 25);
    assert_eq!(p3[2 + 10 + 32], 41);
    assert_eq!(p3[2 + 10 + 33], 9);

    // With a given ephemeral key, the result is determined.
    let eph = PKey::generate_x25519().unwrap();
    let scalar = eph.raw_private_key().unwrap();
    let e = eph.raw_public_key().unwrap();
    let octets = |c: Ciphertext| match c {
        Ciphertext::X25519 { e, key } => (e, key),
        _ => panic!("expected X25519"),
    };
    let a = octets(x25519_encrypt(&u, &sk, &scalar, e.clone()).unwrap());
    assert_eq!(a, octets(x25519_encrypt(&u, &sk, &scalar, e.clone()).unwrap()));
    assert_eq!(open_x25519(&secret, &a.0, &a.1), sk);
}

#[test]
fn cv25519_recipient() {
    let secret = PKey::generate_x25519().unwrap();
    let mut q = vec![0x40];
    q.extend(secret.raw_public_key().unwrap());
    let make = |q: Vec<u8>| {
        Key::new(
            Fingerprint::V4([3; 20]),
            PublicKey::ECDH {
                curve: Curve::Cv25519,
                q,
                hash: HashAlgorithm::SHA256,
                sym: SymmetricAlgorithm::AES128,
            },
        )
    };
    let key = make(q);
    let sk = [5u8; 16];
    let c = encrypt_for(&key, Some(SymmetricAlgorithm::AES128), &sk).unwrap();
    let e = match &c {
        Ciphertext::ECDH { e, .. } => e.clone(),
        _ => panic!("expected ECDH"),
    };
    assert_eq!(e.len(), 33);
    assert_eq!(e[0], 0x40);
    let shared = x25519_secret(&secret, &e[1..]);
    let plain = ecdh::decrypt_unwrap(&key, &shared, &c, None).unwrap();
    assert_eq!(plain, make_payload(Some(SymmetricAlgorithm::AES128), &sk));

    assert_eq!(
        text(ecdh_error(encrypt_for(&make(vec![0x41; 33]), None, &sk))),
        "Invalid Curve25519 public key"
    );
}

#[test]
fn recipients_of_other_algorithms() {
    let key = Key::new(
        Fingerprint::V4([1; 20]),
        PublicKey::Other { algo: PublicKeyAlgorithm::ElGamalEncrypt },
    );
    let m = Message::new(Vec::new());
    match Encryptor::for_recipients(m, vec![Recipient::new(None, None, &key)]).build() {
        Err(Error::UnsupportedPublicKeyAlgorithm(a)) => {
            assert_eq!(a, PublicKeyAlgorithm::ElGamalEncrypt);
        }
        _ => panic!("expected an error"),
    }
}

#[test]
fn recipient_handles() {
    let key4 = Key::new(
        Fingerprint::V4([4; 20]),
        PublicKey::Other { algo: PublicKeyAlgorithm::ElGamalEncrypt },
    );
    let key6 = Key::new(
        Fingerprint::V6([6; 32]),
        PublicKey::Other { algo: PublicKeyAlgorithm::ElGamalEncrypt },
    );
    // Without features that are understood, the key ID is used.
    let r = Recipient::from_features(None, &key4);
    match r.key_handle() {
        Some(KeyHandle::KeyID(id)) => assert_eq!(id.0, [4; 8]),
        _ => panic!("expected a key ID"),
    }
    let r = Recipient::from_features(Some(Features::sequoia()), &key4);
    assert!(matches!(r.key_handle(), Some(KeyHandle::Fingerprint(Fingerprint::V4(_)))));

    // A version 6 key is not referred to by a key ID.
    let r = Recipient::new(None, None, &key6);
    assert!(r.key_handle().is_none());
    let r = r
        .set_key_handle(Some(KeyHandle::Fingerprint(Fingerprint::V6([6; 32]))))
        .unwrap();
    match r.set_key_handle(Some(KeyHandle::KeyID(KeyID(vec![6; 8])))) {
        Err(Error::InvalidOperation(t)) => {
            assert_eq!(t, "need a fingerprint for v6 recipient key");
        }
        _ => panic!("expected an error"),
    }
    let r = Recipient::new(None, None, &key4);
    assert!(r.set_key_handle(Some(KeyHandle::KeyID(KeyID(vec![6; 8])))).is_ok());
}

#[test]
fn recipient_without_fingerprint() {
    let (key, _) = p256();
    let r = Recipient::new(None, Some(KeyHandle::KeyID(KeyID(vec![1; 8]))), &key);
    let m = Message::new(Vec::new());
    match Encryptor::for_recipients(m, vec![r]).build() {
        Err(Error::InvalidOperation(t)) => {
            assert_eq!(t, "Cannot convert keyid to fingerprint");
        }
        _ => panic!("expected an error"),
    }
}

fn encryptor_error(e: Encryptor) -> Error {
    match e.build() {
        Ok(_) => panic!("expected an error"),
        Err(e) => e,
    }
}

#[test]
fn encryptor_errors() {
    let m = Message::new(Vec::new());
    assert_eq!(
        text(encryptor_error(Encryptor::for_recipients(m, vec![]))),
        "Neither recipients, passwords, nor session key given"
    );
    let m = Message::new(Vec::new());
    match Encryptor::with_session_key(m, SymmetricAlgorithm::AES256, vec![0; 16]) {
        Err(Error::InvalidArgument(t)) => assert_eq!(
            t,
            "AES with 256-bit key requires a 32 bit key, but session key has 16"
        ),
        _ => panic!("expected an error"),
    }
    let m = Message::new(Vec::new());
    let e = Encryptor::with_session_key(m, SymmetricAlgorithm::AES256, vec![0; 32])
        .unwrap()
        .symmetric_algo(SymmetricAlgorithm::AES128);
    match e.build() {
        Err(Error::InvalidOperation(t)) => assert_eq!(
            t,
            "AES with 128-bit key requires a 16 bit key, but session key has 32"
        ),
        _ => panic!("expected an error"),
    }
    let m = Message::new(Vec::new());
    assert!(matches!(
        Encryptor::with_session_key(m, SymmetricAlgorithm::Unencrypted, vec![]),
        Err(Error::UnsupportedSymmetricAlgorithm(SymmetricAlgorithm::Unencrypted))
    ));
    let m = Message::new(Vec::new());
    assert!(matches!(
        encryptor_error(
            Encryptor::with_passwords(m, vec![b"x".to_vec()])
                .symmetric_algo(SymmetricAlgorithm::Twofish)
        ),
        Error::UnsupportedSymmetricAlgorithm(SymmetricAlgorithm::Twofish)
    ));
    let m = Message::new(Vec::new());
    assert!(matches!(
        encryptor_error(
            Encryptor::with_passwords(m, vec![b"x".to_vec()]).aead_algo(AEADAlgorithm::EAX)
        ),
        Error::UnsupportedAEADAlgorithm(AEADAlgorithm::EAX)
    ));
}

#[test]
fn encryption_with_given_draws() {
    // With the same draws the message is the same.
    let draws = || Draws {
        salt: vec![],
        session_key: vec![],
        ciphertexts: vec![],
        s2k_salts: vec![],
        nonces: vec![],
        iv: (1..17).collect(),
    };
    let make = || {
        let m = Message::new(Vec::new());
        let e = Encryptor::with_session_key(m, SymmetricAlgorithm::AES256, vec![3; 32]).unwrap();
        let m = e.build_with(draws()).unwrap();
        let mut m = LiteralWriter::new(m).build().unwrap();
        m.write_all(b"Hello world.").unwrap();
        m.finalize().unwrap()
    };
    let o = make();
    assert_eq!(o, make());
    // Tag, length, version, and then the encryption of the initialization
    // vector, the last two octets of it again, the literal data packet, and
    // the packet that detects modifications.
    assert_eq!(o[..3], [0xD2, 1 + 16 + 2 + 20 + 22, 1]);
    let mut plain: Vec<u8> = (1..17).collect();
    plain.extend([15, 16]);
    plain.extend_from_slice(b"\xcb\x12b\x00\x00\x00\x00\x00Hello world.\xd3\x14");
    let mdc = hash_once(HashAlgorithm::SHA1, &plain).unwrap();
    plain.extend(mdc);
    assert_eq!(o[3..], cfb_once(SymmetricAlgorithm::AES256, &[3; 32], &plain).unwrap());
}

#[test]
fn draws_differ() {
    let make = || {
        let m = Message::new(Vec::new());
        let e = Encryptor::with_session_key(m, SymmetricAlgorithm::AES256, vec![3; 32]).unwrap();
        e.build().unwrap().finalize().unwrap()
    };
    assert_ne!(make(), make());
}

#[test]
fn unnamed_recipients() {
    let (key, secret) = p256();
    for (features, version) in [(Features::sequoia(), 6u8), (Features::empty(), 3)] {
        let m = Message::new(Vec::new());
        let r = Recipient::new(Some(features), None, &key);
        let m = Encryptor::for_recipients(m, vec![r])
            .add_passwords(vec![b"password".to_vec()])
            .build()
            .unwrap();
        let o = m.finalize().unwrap();
        assert_eq!(o[0], 0xC1);
        assert_eq!(o[2], version);
        if version == 6 {
            assert_eq!(o[3], 0);
        } else {
            assert_eq!(o[3..11], [0; 8]);
        }
    }
    let _ = secret;
}

/// A signer that repeats the digest that it is given.
struct Echo {
    key: Key,
    hashes: Vec<HashAlgorithm>,
}

impl CryptoSigner for Echo {
    fn public(&self) -> &Key {
        &self.key
    }

    fn acceptable_hashes(&self) -> &[HashAlgorithm] {
        &self.hashes
    }

    fn sign(&mut self, _algo: HashAlgorithm, digest: &[u8]) -> Result<Signature> {
        Ok(Signature::Octets(digest.to_vec()))
    }
}

fn echo(fingerprint: Fingerprint, hashes: &[HashAlgorithm]) -> AnySigner {
    AnySigner(Box::new(Echo {
        key: Key::new(fingerprint, PublicKey::Other { algo: PublicKeyAlgorithm::Ed25519 }),
        hashes: hashes.to_vec(),
    }))
}

fn echo4() -> AnySigner {
    echo(
        Fingerprint::V4([4; 20]),
        &[HashAlgorithm::SHA256, HashAlgorithm::SHA512, HashAlgorithm::SHA384],
    )
}

#[test]
fn detached_signature_octets() {
    // The whole packet, octet by octet.
    let m = Message::new(Vec::new());
    let mut m = Signer::new(m, echo4())
        .unwrap()
        .hash_algo(HashAlgorithm::SHA256)
        .unwrap()
        .creation_time(0x5E874CC1)
        .detached()
        .build()
        .unwrap();
    m.write_all(b"Hello ").unwrap();
    m.write_all(b"world.").unwrap();
    let o = m.finalize().unwrap();

    let mut head = vec![4, 0, 27, 8];
    let mut hashed = vec![5, 0x82, 0x5E, 0x87, 0x4C, 0xC1, 22, 33, 4];
    hashed.extend([4; 20]);
    head.extend((hashed.len() as u16).to_be_bytes());
    head.extend(&hashed);
    let mut signed = b"Hello world.".to_vec();
    signed.extend(&head);
    signed.extend([4, 0xFF]);
    signed.extend((head.len() as u32).to_be_bytes());
    let digest = hash_once(HashAlgorithm::SHA256, &signed).unwrap();

    let mut body = head;
    body.extend([0, 10, 9, 16]);
    body.extend([4; 8]);
    body.extend(&digest[..2]);
    body.extend(&digest);
    let mut expected = vec![0xC2, body.len() as u8];
    expected.extend(body);
    assert_eq!(o, expected);
}

#[test]
fn template_and_recipients() {
    let mut template = SignatureBuilder::new(SignatureType::Binary);
    // An issuer of the template's own, and a creation time to be replaced.
    template.add_hashed(Subpacket { octet: 2, body: vec![1, 1, 1, 1] });
    template.add_hashed(Subpacket { octet: 0x80 + 20, body: vec![9; 300] });
    template.add_unhashed(Subpacket { octet: 16, body: vec![7; 8] });
    let recipient = Key::new(
        Fingerprint::V6([6; 32]),
        PublicKey::Other { algo: PublicKeyAlgorithm::Ed25519 },
    );
    let m = Message::new(Vec::new());
    let m = Signer::with_template(m, echo4(), template)
        .unwrap()
        .add_intended_recipient(&recipient)
        .creation_time(2)
        .detached()
        .build()
        .unwrap();
    let o = m.finalize().unwrap();
    // Tag, length of two octets, and the head.
    let body = &o[3..];
    let n = u16::from_be_bytes([body[4], body[5]]) as usize;
    let mut hashed = vec![192, 109, 0x80 + 20];
    hashed.extend([9; 300]);
    hashed.extend([5, 0x82, 0, 0, 0, 2]);
    hashed.extend([34, 35, 6]);
    hashed.extend([6; 32]);
    assert_eq!(body[6..6 + n], hashed);
    assert_eq!(body[6 + n..6 + n + 12], [0, 10, 9, 16, 7, 7, 7, 7, 7, 7, 7, 7]);
}

#[test]
fn cleartext_signed_message() {
    let m = Message::new(Vec::new());
    let mut m = Signer::new(m, echo4())
        .unwrap()
        .detached()
        .cleartext()
        .creation_time(1)
        .build()
        .unwrap();
    m.write_all(b"- one \nFrom").unwrap();
    m.write_all(b" two\nthree").unwrap();
    let o = String::from_utf8(m.finalize().unwrap()).unwrap();
    assert!(o.starts_with(
        "-----BEGIN PGP SIGNED MESSAGE-----\n\
         Hash: SHA512\n\
         \n\
         - - one\n\
         - From two\n\
         three\n\
         \n\
         -----BEGIN PGP SIGNATURE-----\n\
         \n"
    ));
    assert!(o.ends_with("-----END PGP SIGNATURE-----\n"));

    // What is hashed is the text without its escapes, with normalized line
    // endings.
    let mut head = vec![4, 1, 27, 10];
    let mut hashed = vec![5, 0x82, 0, 0, 0, 1, 22, 33, 4];
    hashed.extend([4; 20]);
    head.extend((hashed.len() as u16).to_be_bytes());
    head.extend(&hashed);
    let mut signed = b"- one\r\nFrom two\r\nthree\r\n".to_vec();
    signed.extend(&head);
    signed.extend([4, 0xFF]);
    signed.extend((head.len() as u32).to_be_bytes());
    let digest = hash_once(HashAlgorithm::SHA512, &signed).unwrap();
    let mut body = head;
    body.extend([0, 10, 9, 16]);
    body.extend([4; 8]);
    body.extend(&digest[..2]);
    body.extend(&digest);
    let mut expected = vec![0xC2, body.len() as u8];
    expected.extend(body);
    let armored: String = o
        .lines()
        .skip_while(|l| *l != "-----BEGIN PGP SIGNATURE-----")
        .skip(2)
        .take_while(|l| !l.starts_with('=') && !l.starts_with('-'))
        .collect();
    let encoded = openssl::base64::encode_block(&expected);
    assert_eq!(armored, encoded);
}

#[test]
fn version_6_signatures_are_salted() {
    let m = Message::new(Vec::new());
    let signer = Signer::new(
        m,
        echo(Fingerprint::V6([6; 32]), &[HashAlgorithm::SHA256]),
    )
    .unwrap()
    .creation_time(1);
    let salt: Vec<u8> = (0..16).collect();
    let mut m = signer.build_with_salts(vec![salt.clone()]).unwrap();
    m.write_all(b"data").unwrap();
    let o = m.finalize().unwrap();
    // The one-pass signature packet.
    let mut ops = vec![0xC4, 54, 6, 0, 8, 27, 16];
    ops.extend(&salt);
    ops.extend([6; 32]);
    ops.push(1);
    assert_eq!(o[..56], ops);
    assert_eq!(o[56..60], *b"data");
    // The signature packet.
    let body = &o[62..];
    let mut head = vec![6, 0, 27, 8];
    let mut hashed = vec![5, 0x82, 0, 0, 0, 1, 34, 33, 6];
    hashed.extend([6; 32]);
    head.extend((hashed.len() as u32).to_be_bytes());
    head.extend(&hashed);
    let mut signed = salt.clone();
    signed.extend(b"data");
    signed.extend(&head);
    signed.extend([6, 0xFF]);
    signed.extend((head.len() as u32).to_be_bytes());
    let digest = hash_once(HashAlgorithm::SHA256, &signed).unwrap();
    let mut expected = head;
    expected.extend([0, 0, 0, 0]);
    expected.extend(&digest[..2]);
    expected.push(16);
    expected.extend(&salt);
    expected.extend(&digest);
    assert_eq!(body, &expected[..]);
}

#[test]
fn salts_are_drawn() {
    let make = || {
        let m = Message::new(Vec::new());
        let m = Signer::new(m, echo(Fingerprint::V6([6; 32]), &[HashAlgorithm::SHA512]))
            .unwrap()
            .build()
            .unwrap();
        m.finalize().unwrap()[..40].to_vec()
    };
    assert_ne!(make(), make());
}

#[test]
fn signatures_are_made_now() {
    let m = Message::new(Vec::new());
    let m = Signer::new(m, echo4()).unwrap().detached().build().unwrap();
    let o = m.finalize().unwrap();
    let t = u32::from_be_bytes([o[10], o[11], o[12], o[13]]) as u64;
    let now = std::time::UNIX_EPOCH.elapsed().unwrap().as_secs();
    assert!(t <= now && now - t < 60);
}

#[test]
fn creation_time_out_of_range() {
    let m = Message::new(Vec::new());
    let m = Signer::new(m, echo4()).unwrap().creation_time(1 << 32).detached().build().unwrap();
    match m.finalize() {
        Err(Error::InvalidArgument(t)) => assert_eq!(t, "Time exceeds u32 epoch"),
        _ => panic!("expected an error"),
    }
}

#[test]
fn unknown_key_version() {
    let m = Message::new(Vec::new());
    let signer = Signer::new(
        m,
        echo(
            Fingerprint::Unknown { version: 5, octets: vec![5; 32] },
            &[HashAlgorithm::SHA256],
        ),
    )
    .unwrap();
    match signer.build() {
        Err(Error::InvalidOperation(t)) => assert_eq!(t, "Unsupported Key version 5"),
        _ => panic!("expected an error"),
    }
}

#[test]
fn hash_algorithms_that_all_signers_accept() {
    let fp = || Fingerprint::V4([4; 20]);
    let start = || Signer::new(Message::new(Vec::new()), echo(fp(), &[HashAlgorithm::SHA384, HashAlgorithm::SHA256])).unwrap();
    assert!(matches!(start().hash_algo(HashAlgorithm::SHA512), Err(Error::NoAcceptableHash)));
    assert!(start().hash_algo(HashAlgorithm::SHA256).is_ok());
    // The selected algorithm must be acceptable to new signers.
    let s = start().hash_algo(HashAlgorithm::SHA256).unwrap();
    assert!(matches!(s.add_signer(echo(fp(), &[HashAlgorithm::SHA384])), Err(Error::NoAcceptableHash)));
    let s = start().hash_algo(HashAlgorithm::SHA256).unwrap();
    assert!(s.add_signer(echo(fp(), &[HashAlgorithm::SHA512, HashAlgorithm::SHA256])).is_ok());
    // The preferred one of the acceptable algorithms is used.
    let o = start().detached().build().unwrap().finalize().unwrap();
    assert_eq!(o[5], HashAlgorithm::SHA384.octet());
    // In either order, the same algorithms stay acceptable.
    for (a, b) in [([HashAlgorithm::SHA256], [HashAlgorithm::SHA256, HashAlgorithm::SHA384]), ([HashAlgorithm::SHA256], [HashAlgorithm::SHA384, HashAlgorithm::SHA256])] {
        let s = start().add_signer(echo(fp(), &a)).unwrap();
        let s = s.add_signer(echo(fp(), &b)).unwrap();
        let o = s.detached().build().unwrap().finalize().unwrap();
        assert_eq!(o[5], HashAlgorithm::SHA256.octet());
        let s = start().add_signer(echo(fp(), &b)).unwrap();
        let s = s.add_signer(echo(fp(), &a)).unwrap();
        let o = s.detached().build().unwrap().finalize().unwrap();
        assert_eq!(o[5], HashAlgorithm::SHA256.octet());
    }
}

/// A signer whose signatures do not fit into a packet.
struct Huge(Key);

impl CryptoSigner for Huge {
    fn public(&self) -> &Key {
        &self.0
    }

    fn acceptable_hashes(&self) -> &[HashAlgorithm] {
        &[HashAlgorithm::SHA256]
    }

    fn sign(&mut self, _algo: HashAlgorithm, _digest: &[u8]) -> Result<Signature> {
        Ok(Signature::MPIs(vec![vec![0xFF; 8192]]))
    }
}

#[test]
fn too_large_signature() {
    let key = Key::new(
        Fingerprint::V4([4; 20]),
        PublicKey::Other { algo: PublicKeyAlgorithm::RSAEncryptSign },
    );
    let m = Message::new(Vec::new());
    let m = Signer::new(m, AnySigner(Box::new(Huge(key)))).unwrap().detached().build().unwrap();
    assert!(matches!(m.finalize(), Err(Error::TooLarge)));
}

/// A signer that declines to sign.
struct Unwilling(Key);

impl CryptoSigner for Unwilling {
    fn public(&self) -> &Key {
        &self.0
    }

    fn acceptable_hashes(&self) -> &[HashAlgorithm] {
        &[HashAlgorithm::SHA256]
    }

    fn sign(&mut self, _algo: HashAlgorithm, _digest: &[u8]) -> Result<Signature> {
        Err(Error::InvalidOperation("not today".to_string()))
    }
}

#[test]
fn declining_signer() {
    // The error of the signer comes out as it is.
    let key =
        Key::new(Fingerprint::V4([4; 20]), PublicKey::Other { algo: PublicKeyAlgorithm::Ed25519 });
    let m = Message::new(Vec::new());
    let m =
        Signer::new(m, AnySigner(Box::new(Unwilling(key)))).unwrap().detached().build().unwrap();
    match m.finalize() {
        Err(Error::InvalidOperation(t)) => assert_eq!(t, "not today"),
        _ => panic!("expected an error"),
    }
}

#[test]
fn signatures_of_no_signers() {
    let signing = |mode: SignatureMode| Signing {
        signers: Vec::new(),
        mode,
        template: SignatureBuilder::new(SignatureType::Text),
        creation_time: None,
        recipients: Vec::new(),
        hashes: Vec::new(),
        position: 0,
    };
    let layer = |filter: Filter| Layer { cookie: Cookie::new(0), filter };

    let mut layers = vec![layer(Filter::Sink(b"sent".to_vec()))];
    signing(SignatureMode::Inline).emit_signatures(&mut layers).unwrap();
    assert_eq!(layers.len(), 1);
    assert!(matches!(&layers[0].filter, Filter::Sink(b) if b == b"sent"));

    // An armorer takes the place of the filter that escapes dashes.
    let mut escape = DashEscapeFilter::new();
    assert_eq!(escape.push(b"-"), b"");
    let mut layers = vec![layer(Filter::Sink(Vec::new())), layer(Filter::DashEscape(escape))];
    signing(SignatureMode::Cleartext).emit_signatures(&mut layers).unwrap();
    assert_eq!(layers.len(), 2);
    assert!(matches!(&layers[0].filter, Filter::Sink(b) if b == b"- -\n"));
    assert!(matches!(&layers[1].filter, Filter::Armorer(_)));
}

#[test]
fn signer_in_an_encrypted_message() {
    // The signer is taken off the stack for the literal data, and comes back.
    let m = Message::new(Vec::new());
    let m = Encryptor::with_session_key(m, SymmetricAlgorithm::AES256, vec![1; 32])
        .unwrap()
        .build()
        .unwrap();
    let m = Signer::new(m, echo4()).unwrap().creation_time(1).build().unwrap();
    let mut m = LiteralWriter::new(m).build().unwrap();
    m.write_all(b"data").unwrap();
    let m = match m.finalize_one().unwrap() {
        Finalized::Inner(m) => m,
        Finalized::Sink(_) => panic!("no writer is left"),
    };
    // The signer, the encryptor, the cipher and the framing are left.
    let o = m.finalize().unwrap();
    assert_eq!(o[0], 0xD2);
    // Decrypting is done with the same key stream.
    let plain = openssl::symm::decrypt(
        openssl::symm::Cipher::aes_256_cfb128(),
        &[1; 32],
        Some(&[0; 16]),
        &o[if o[1] < 192 { 3 } else { 4 }..],
    )
    .unwrap();
    let inside = &plain[18..];
    assert_eq!(inside[..2], [0xC4, 13]);
    assert_eq!(inside[15..15 + 12], *b"\xcb\x0ab\x00\x00\x00\x00\x00data");
    assert_eq!(inside[27], 0xC2);
}

#[test]
fn big_numbers_are_stripped() {
    let n = BigNum::from_slice(&[0, 0, 1]).unwrap();
    let mut v = Vec::new();
    push_mpi(&mut v, &n.to_vec_padded(8).unwrap()).unwrap();
    assert_eq!(v, [0, 1, 1]);
}

#[test]
fn last_mode_counts() {
    let make = |cleartext_last: bool| {
        let m = Message::new(Vec::new());
        let s = Signer::new(m, echo4()).unwrap().creation_time(1);
        let s = if cleartext_last { s.detached().cleartext() } else { s.cleartext().detached() };
        let mut m = s.build().unwrap();
        m.write_all(b"text").unwrap();
        m.finalize().unwrap()
    };
    assert!(make(true).starts_with(b"-----BEGIN PGP SIGNED MESSAGE-----\n"));
    assert_eq!(make(false)[0], 0xC2);
}

#[test]
fn container_speaks_for_what_it_holds() {
    // A signer with a new key does not change the armor around an old
    // container, but it changes the armor around itself.
    let make = |container: bool| {
        let m = Message::new(Vec::new());
        let m = Armorer::new(m).build().unwrap();
        let m = if container {
            Encryptor::with_session_key(m, SymmetricAlgorithm::AES256, vec![1; 32])
                .unwrap()
                .build()
                .unwrap()
        } else {
            m
        };
        let m = Signer::new(m, echo(Fingerprint::V6([6; 32]), &[HashAlgorithm::SHA256]))
            .unwrap()
            .build()
            .unwrap();
        let mut m = LiteralWriter::new(m).build().unwrap();
        m.write_all(b"text").unwrap();
        let o = String::from_utf8(m.finalize().unwrap()).unwrap();
        let lines: Vec<&str> = o.lines().collect();
        lines[lines.len() - 2].starts_with('=') && lines[lines.len() - 2].len() == 5
    };
    assert!(make(true));
    assert!(!make(false));
}

#[test]
fn finalizing_is_determined() {
    let make = || {
        let m = Message::new(Vec::new());
        let m = Armorer::new(m).build().unwrap();
        let m = Encryptor::with_session_key(m, SymmetricAlgorithm::AES128, vec![1; 16])
            .unwrap()
            .aead_algo(AEADAlgorithm::GCM)
            .build_with(Draws {
                salt: vec![9; 32],
                session_key: vec![],
                ciphertexts: vec![],
                s2k_salts: vec![],
                nonces: vec![],
                iv: vec![],
            })
            .unwrap();
        let mut m = LiteralWriter::new(m).build().unwrap();
        m.write_all(b"text").unwrap();
        m.finalize().unwrap()
    };
    assert_eq!(make(), make());
}

#[test]
fn salted_signatures_need_a_salt_size() {
    // There is no salt for the weaker algorithms.
    for algo in [HashAlgorithm::SHA1, HashAlgorithm::MD5, HashAlgorithm::RipeMD] {
        let m = Message::new(Vec::new());
        let signer = Signer::new(m, echo(Fingerprint::V6([6; 32]), &[algo])).unwrap();
        match signer.build() {
            Err(Error::UnsupportedHashAlgorithm(a)) => assert_eq!(a, algo),
            _ => panic!("expected an error"),
        }
    }
}

#[test]
fn building_with_given_hashes() {
    let start = |fingerprint: Fingerprint| {
        Signer::new(Message::new(Vec::new()), echo(fingerprint, &[HashAlgorithm::SHA256]))
            .unwrap()
            .creation_time(1)
            .detached()
    };
    let hashes = || {
        vec![HashingMode::new(false, Vec::new(), Context::new(HashAlgorithm::SHA256).unwrap())
            .unwrap()]
    };
    let fp = || Fingerprint::V4([4; 20]);
    let given = start(fp()).build_with_hashes(vec![Vec::new()], hashes()).unwrap();
    let drawn = start(fp()).build().unwrap();
    assert_eq!(given.finalize().unwrap(), drawn.finalize().unwrap());

    let unknown = Fingerprint::Unknown { version: 5, octets: vec![5; 32] };
    match start(unknown).build_with_hashes(vec![Vec::new()], hashes()) {
        Err(Error::InvalidOperation(t)) => assert_eq!(t, "Unsupported Key version 5"),
        _ => panic!("expected an error"),
    }
}

#[test]
fn building_does_not_sign() {
    // A signer that cannot sign is not asked to before the end.
    let key =
        Key::new(Fingerprint::V4([4; 20]), PublicKey::Other { algo: PublicKeyAlgorithm::Ed25519 });
    let m = Message::new(Vec::new());
    let m = Signer::new(m, AnySigner(Box::new(Unwilling(key)))).unwrap().build().unwrap();
    let mut m = LiteralWriter::new(m).build().unwrap();
    m.write_all(b"data").unwrap();
    let m = match m.finalize_one().unwrap() {
        Finalized::Inner(m) => m,
        Finalized::Sink(_) => panic!("the signer is left"),
    };
    assert!(matches!(m.finalize_one(), Err(Error::InvalidOperation(_))));
}

#[test]
fn wrapping_with_a_given_key() {
    let kek = [7; 16];
    let c = ecdh::wrap_key(&kek, b"session key", vec![4, 1, 2]).unwrap();
    let (e, wrapped) = match &c {
        Ciphertext::ECDH { e, key } => (e, key),
        _ => panic!("expected ECDH"),
    };
    assert_eq!(e, &[4, 1, 2]);
    let mut padded = b"session key".to_vec();
    padded.resize(40, 29);
    let key = openssl::aes::AesKey::new_encrypt(&kek).unwrap();
    let mut expected = vec![0; 48];
    openssl::aes::wrap_key(&key, None, &mut expected, &padded).unwrap();
    assert_eq!(wrapped, &expected);
    assert_eq!(ecdh::unwrap_key(&kek, wrapped, None).unwrap(), b"session key");
    assert_eq!(ecdh::unwrap_key(&kek, wrapped, Some(11)).unwrap(), b"session key");
    assert_eq!(text(ecdh::unwrap_key(&kek, wrapped, Some(12)).unwrap_err()), "bad padding");
    assert_eq!(text(ecdh::unwrap_key(&[8; 16], wrapped, None).unwrap_err()), "Bad key");
    assert_eq!(
        text(ecdh::wrap_key(&kek, &[0; 41], vec![]).unwrap_err()),
        "Plaintext data too large"
    );
    // There is no AES key of that length.
    assert!(matches!(ecdh::wrap_key(&[1; 5], &[0; 16], vec![]), Err(Error::Backend)));

    let c = x25519_wrap(&kek, vec![9; 32], &[5; 32]).unwrap();
    match c {
        Ciphertext::X25519 { e, key: wrapped } => {
            assert_eq!(e, [9; 32]);
            let key = openssl::aes::AesKey::new_decrypt(&kek).unwrap();
            let mut plain = vec![0; 40];
            let n = openssl::aes::unwrap_key(&key, None, &mut plain, &wrapped).unwrap();
            assert_eq!(plain[..n], [5; 32]);
        }
        _ => panic!("expected X25519"),
    }
}

#[test]
fn cutting_digests() {
    let digest: Vec<u8> = (0..32).collect();
    assert_eq!(ecdh::cut_kek(SymmetricAlgorithm::AES128, &digest).unwrap(), digest[..16]);
    assert_eq!(ecdh::cut_kek(SymmetricAlgorithm::AES256, &digest).unwrap(), digest);
    assert_eq!(
        text(ecdh::cut_kek(SymmetricAlgorithm::AES192, &digest[..20]).unwrap_err()),
        "Digest too short"
    );
    assert!(matches!(
        ecdh::cut_kek(SymmetricAlgorithm::CAST5, &digest),
        Err(Error::UnsupportedSymmetricAlgorithm(SymmetricAlgorithm::CAST5))
    ));
}

#[test]
fn packets_for_passwords_with_given_keys() {
    assert_eq!(
        assemble_skesk4(SymmetricAlgorithm::AES256, &[1; 8], &[2, 3]),
        b"\xc3\x0f\x04\x09\x03\x08\x01\x01\x01\x01\x01\x01\x01\x01\xff\x02\x03"
    );
    let p = assemble_skesk6(
        SymmetricAlgorithm::AES256,
        AEADAlgorithm::OCB,
        &[1; 8],
        &[7; 15],
        &[2, 3],
    );
    assert_eq!(p[..7], [0xC3, 33, 6, 29, 9, 2, 11]);
    assert_eq!(p[7..18], *b"\x03\x08\x01\x01\x01\x01\x01\x01\x01\x01\xff");
    assert_eq!(p[18..33], [7; 15]);
    assert_eq!(p[33..], [2, 3]);
}

#[test]
fn too_large_numbers_for_recipients() {
    let c = Ciphertext::RSA { c: vec![0xFF; 8192] };
    assert!(matches!(
        make_pkesk3(&None, SymmetricAlgorithm::AES256, &c),
        Err(Error::TooLarge)
    ));
    assert!(matches!(make_pkesk6(&None, &c), Err(Error::TooLarge)));
    // One bit less fits.
    let mut number = vec![0xFF; 8192];
    number[0] = 0x7F;
    let c = Ciphertext::RSA { c: number };
    assert!(make_pkesk3(&None, SymmetricAlgorithm::AES256, &c).is_ok());
    assert!(make_pkesk6(&None, &c).is_ok());
}

#[test]
fn modification_detection_with_a_given_digest() {
    let layer = |filter: Filter| Layer { cookie: Cookie::new(0), filter };
    let mut layers = vec![
        layer(Filter::Sink(Vec::new())),
        layer(Filter::Armorer(ArmorWriter::new(Kind::Message, Vec::new()))),
        layer(Filter::Arbitrary),
    ];
    write_mdc(&[9; 20], &mut layers).unwrap();
    assert_eq!(layers.len(), 1);
    match &layers[0].filter {
        Filter::Sink(o) => {
            let o = String::from_utf8(o.clone()).unwrap();
            // The packet's first octet, its length, and the digest.
            assert!(o.contains("0xQJCQkJCQkJCQkJCQkJCQkJCQkJCQ=="));
        }
        _ => panic!("expected the sink"),
    }
}

#[test]
fn starting_encryption_with_given_ciphers() {
    // A cipher that could not be made is reported once the header is written.
    let mut m = Message::new(Vec::new());
    let r = start_seip2(
        &mut m,
        3,
        SymmetricAlgorithm::AES128,
        AEADAlgorithm::EAX,
        &[1; 32],
        Err(Error::UnsupportedAEADAlgorithm(AEADAlgorithm::EAX)),
    );
    assert!(matches!(r, Err(Error::UnsupportedAEADAlgorithm(AEADAlgorithm::EAX))));
    let mut expected = vec![2, 7, 1, 6];
    expected.extend([1; 32]);
    assert_eq!(m.drain(), expected);

    let mut m = Message::new(Vec::new());
    let cipher = schedule(SymmetricAlgorithm::AES128, AEADAlgorithm::OCB, &[1; 32], &[2; 16]);
    start_seip2(&mut m, 3, SymmetricAlgorithm::AES128, AEADAlgorithm::OCB, &[1; 32], cipher)
        .unwrap();
    assert_eq!(m.cookie().level, 3);
    let o = m.finalize().unwrap();
    // Without data there is only the last tag.
    assert_eq!(o.len(), 36 + 16);
    assert_eq!(o[..4], [2, 7, 2, 6]);
}

#[test]
fn long_passwords() {
    // Passwords that are longer than what is hashed are hashed as a whole.
    let m = Message::new(Vec::new());
    let m = Encryptor::with_passwords(m, vec![vec![b'x'; 0x3E0_0001]]).build().unwrap();
    assert_eq!(m.finalize().unwrap()[0], 0xC3);
}

#[test]
fn position_of_a_signer() {
    let mut signing = Signing {
        signers: Vec::new(),
        mode: SignatureMode::Inline,
        template: SignatureBuilder::new(SignatureType::Binary),
        creation_time: None,
        recipients: Vec::new(),
        hashes: Vec::new(),
        position: 0,
    };
    signing.update(b"some").unwrap();
    signing.update(b" data").unwrap();
    assert_eq!(signing.position(), 9);
}

#[test]
fn curve_is_told_by_its_name() {
    // The identifier of Curve25519 alone does not make a key one on it.
    let secret = PKey::generate_x25519().unwrap();
    let mut q = vec![0x40];
    q.extend(secret.raw_public_key().unwrap());
    let key = Key::new(
        Fingerprint::V4([3; 20]),
        PublicKey::ECDH {
            curve: Curve::Unknown(Curve::Cv25519.oid()),
            q,
            hash: HashAlgorithm::SHA256,
            sym: SymmetricAlgorithm::AES128,
        },
    );
    assert!(matches!(
        ecdh_error(ecdh::encrypt(&key, &[0; 16])),
        Error::UnsupportedEllipticCurve(Curve::Unknown(_))
    ));
    assert!(matches!(
        ecdh_error(encrypt_for(&key, None, &[0; 16])),
        Error::UnsupportedEllipticCurve(Curve::Unknown(_))
    ));
}

#[test]
fn writing_nothing_to_a_signer() {
    let make = |cuts: &[&[u8]]| {
        let m = Message::new(Vec::new());
        let signer = Signer::new(m, echo4()).unwrap().creation_time(1);
        let mut m = signer.build().unwrap();
        for cut in cuts {
            m.write_all(cut).unwrap();
        }
        m.finalize().unwrap()
    };
    assert_eq!(make(&[b"", b"one", b"", b"two", b""]), make(&[b"onetwo"]));
    assert_eq!(make(&[b"", b""]), make(&[]));
}

#[test]
fn signed_message_in_a_sink() {
    // One-pass signatures, the literal data packet, and the signatures in the
    // reverse order, each over what was written.
    let m = Message::new(b"before".to_vec());
    let m = Signer::new(m, echo4())
        .unwrap()
        .add_signer(echo(Fingerprint::V4([5; 20]), &[HashAlgorithm::SHA512]))
        .unwrap()
        .creation_time(1)
        .build()
        .unwrap();
    let mut m = LiteralWriter::new(m).build().unwrap();
    m.write_all(b"Hello ").unwrap();
    m.write_all(b"world.").unwrap();
    let o = m.finalize().unwrap();

    let mut expected = b"before".to_vec();
    for (seed, last) in [(4u8, 0u8), (5, 1)] {
        expected.extend([0xC4, 13, 3, 0, 10, 27]);
        expected.extend([seed; 8]);
        expected.push(last);
    }
    expected.extend(b"\xcb\x12b\x00\x00\x00\x00\x00Hello world.");
    for seed in [5u8, 4] {
        let mut head = vec![4, 0, 27, 10];
        let mut hashed = vec![5, 0x82, 0, 0, 0, 1, 22, 33, 4];
        hashed.extend([seed; 20]);
        head.extend((hashed.len() as u16).to_be_bytes());
        head.extend(&hashed);
        let mut signed = b"Hello world.".to_vec();
        signed.extend(&head);
        signed.extend([4, 0xFF]);
        signed.extend((head.len() as u32).to_be_bytes());
        let digest = hash_once(HashAlgorithm::SHA512, &signed).unwrap();
        let mut body = head;
        body.extend([0, 10, 9, 16]);
        body.extend([seed; 8]);
        body.extend(&digest[..2]);
        body.extend(&digest);
        expected.extend([0xC2, body.len() as u8]);
        expected.extend(body);
    }
    assert_eq!(o, expected);
}

#[test]
fn finalizing_one_writer_of_many() {
    // A literal writer on a signer on a compressor gives back the signer, which
    // gives back the compressor.
    let m = Message::new(Vec::new());
    let m = Compressor::new(m).build().unwrap();
    let level = m.cookie().level;
    let m = Signer::new(m, echo4()).unwrap().creation_time(1).build().unwrap();
    let mut m = LiteralWriter::new(m).build().unwrap();
    m.write_all(b"text").unwrap();
    let step = |m: Message| match m.finalize_one().unwrap() {
        Finalized::Inner(m) => m,
        Finalized::Sink(_) => panic!("no writer is left"),
    };
    let m = step(m);
    assert!(matches!(m.cookie().private, openpgp_stream::stack::Private::Signer));
    let m = step(m);
    assert_eq!(m.cookie().level, level);
    assert_eq!(m.finalize().unwrap()[0], 0xC8);
}

#[test]
fn authenticated_cipher_holds_back() {
    let mut a = AeadEncryptor::new(
        SymmetricAlgorithm::AES128,
        AEADAlgorithm::GCM,
        vec![1; 16],
        vec![2; 4],
        vec![3; 5],
    )
    .unwrap();
    // Only whole chunks come out, each with its tag.
    assert!(a.push(&[0; 4095]).unwrap().is_empty());
    assert!(a.push(&[]).unwrap().is_empty());
    assert_eq!(a.push(&[0; 1]).unwrap().len(), 4096 + 16);
    assert_eq!(a.push(&[0; 8193]).unwrap().len(), 2 * (4096 + 16));
    assert_eq!(a.finish().unwrap().len(), 1 + 16 + 16);
}
