//! Packets that hold encrypted session keys.

use vstd::prelude::*;

use crate::backend::{hkdf, hkdf_sha256, seal, sealed, unsealed};
use crate::bytes::{be16, extend, push_be16};
use crate::cipher::{cfb_once, cipher_refused, CfbView};
use crate::error::{Error, ErrorView, Result};
use crate::framing::{make_packet, packet, Tag};
use crate::hashing::{derive_key, hash_refused, s2k, s2k_specifier, S2K_CODED_COUNT};
use crate::key::{
    mpi, mpi_fits, push_mpi, Ciphertext, CiphertextView, FingerprintView, KeyHandle, KeyHandleView,
};
use crate::types::{AEADAlgorithm, HashAlgorithm, PublicKeyAlgorithm, SymmetricAlgorithm};

verus! {

/// The sum of the octets.
pub open spec fn octet_sum(s: Seq<u8>) -> int
    decreases s.len(),
{
    if s.len() == 0 {
        0
    } else {
        octet_sum(s.drop_last()) + s.last()
    }
}

/// What is encrypted for a recipient: the session key with its checksum,
/// and before it the algorithm if the packet is to tell it.
pub open spec fn payload(algo: Option<SymmetricAlgorithm>, sk: Seq<u8>) -> Seq<u8> {
    (match algo {
        Some(a) => seq![a.spec_octet()],
        None => Seq::empty(),
    }) + sk + be16(octet_sum(sk) % 0x1_0000)
}

/// Makes what is encrypted for a recipient.
pub fn make_payload(algo: Option<SymmetricAlgorithm>, sk: &[u8]) -> (r: Vec<u8>)
    ensures
        r@ == payload(algo, sk@),
{
    let mut out: Vec<u8> = Vec::new();
    match algo {
        Some(a) => out.push(a.octet()),
        None => (),
    }
    extend(&mut out, sk);
    let mut sum: u32 = 0;
    let mut i: usize = 0;
    proof {
        assert(sk@.take(0) =~= Seq::<u8>::empty());
    }
    while i < sk.len()
        invariant
            i <= sk@.len(),
            sum < 0x1_0000,
            sum == octet_sum(sk@.take(i as int)) % 0x1_0000,
        decreases sk@.len() - i,
    {
        assert(sk@.take(i + 1).drop_last() =~= sk@.take(i as int));
        sum = (sum + sk[i] as u32) % 0x1_0000;
        i = i + 1;
    }
    assert(sk@.take(sk@.len() as int) =~= sk@);
    push_be16(&mut out, sum as u16);
    assert(out@ =~= payload(algo, sk@));
    out
}

/// The public key algorithm of an encrypted session key, and the encrypted
/// session key, as they stand in a packet.  With X25519 the packet tells the
/// symmetric algorithm, if it is to tell it, in the clear.
pub open spec fn ciphertext_octets(algo: Option<SymmetricAlgorithm>, c: CiphertextView) -> Seq<u8> {
    match c {
        CiphertextView::RSA { c } => seq![PublicKeyAlgorithm::RSAEncryptSign.spec_octet()] + mpi(c),
        CiphertextView::X25519 { e, key } => seq![PublicKeyAlgorithm::X25519.spec_octet()] + e + (
        match algo {
            Some(a) => seq![(key.len() + 1) as u8, a.spec_octet()],
            None => seq![key.len() as u8],
        }) + key,
        CiphertextView::ECDH { e, key } => seq![PublicKeyAlgorithm::ECDH.spec_octet()] + mpi(e)
            + seq![key.len() as u8] + key,
    }
}

/// Whether the numbers of an encrypted session key fit into a packet.
pub open spec fn numbers_fit(c: CiphertextView) -> bool {
    match c {
        CiphertextView::RSA { c } => mpi_fits(c),
        CiphertextView::X25519 { .. } => true,
        CiphertextView::ECDH { e, .. } => mpi_fits(e),
    }
}

/// The body of a packet of version 3 for a recipient.
pub open spec fn pkesk3_body(
    handle: Option<KeyHandleView>,
    algo: SymmetricAlgorithm,
    c: CiphertextView,
) -> Seq<u8> {
    seq![3u8] + (match handle {
        None => crate::cipher::zeros(8),
        Some(KeyHandleView::KeyID(id)) => id,
        Some(KeyHandleView::Fingerprint(fp)) => fp.keyid(),
    }) + ciphertext_octets(Some(algo), c)
}

/// A packet of version 3 for a recipient.
pub open spec fn pkesk3(
    handle: Option<KeyHandleView>,
    algo: SymmetricAlgorithm,
    c: CiphertextView,
) -> Seq<u8> {
    packet(Tag::PKESK, pkesk3_body(handle, algo, c))
}

/// Why there is no packet of version 3 for a recipient.
pub open spec fn pkesk3_error(
    handle: Option<KeyHandleView>,
    algo: SymmetricAlgorithm,
    c: CiphertextView,
) -> Option<ErrorView> {
    if numbers_fit(c) && pkesk3_body(handle, algo, c).len() <= u32::MAX {
        None
    } else {
        Some(ErrorView::TooLarge)
    }
}

/// The body of a packet of version 6 for a recipient, which is referred to by
/// a fingerprint or not at all.
pub open spec fn pkesk6_body(fingerprint: Option<FingerprintView>, c: CiphertextView) -> Seq<u8> {
    seq![6u8] + (match fingerprint {
        Some(fp) => seq![(fp.octets.len() + 1) as u8, fp.version] + fp.octets,
        None => seq![0u8],
    }) + ciphertext_octets(None, c)
}

/// The fingerprint of a handle, if it is not a key ID.
pub open spec fn handle_fingerprint(handle: Option<KeyHandleView>) -> Option<FingerprintView> {
    match handle {
        Some(KeyHandleView::Fingerprint(fp)) => Some(fp),
        _ => None,
    }
}

/// A packet of version 6 for a recipient, which is not referred to by a key
/// ID.
pub open spec fn pkesk6(handle: Option<KeyHandleView>, c: CiphertextView) -> Seq<u8>
    recommends
        !is_keyid(handle),
{
    packet(Tag::PKESK, pkesk6_body(handle_fingerprint(handle), c))
}

/// Whether the handle is a key ID.
pub open spec fn is_keyid(handle: Option<KeyHandleView>) -> bool {
    handle matches Some(KeyHandleView::KeyID(_))
}

/// Why there is no packet of version 6 for a recipient.
pub open spec fn pkesk6_error(handle: Option<KeyHandleView>, c: CiphertextView) -> Option<
    ErrorView,
> {
    if is_keyid(handle) {
        Some(need_fingerprint())
    } else if numbers_fit(c) && pkesk6_body(handle_fingerprint(handle), c).len() <= u32::MAX {
        None
    } else {
        Some(ErrorView::TooLarge)
    }
}

/// The error for a key ID where a fingerprint is needed.
pub open spec fn need_fingerprint() -> ErrorView {
    ErrorView::InvalidOperation("Cannot convert keyid to fingerprint"@)
}

fn push_ciphertext(out: &mut Vec<u8>, algo: Option<SymmetricAlgorithm>, c: &Ciphertext) -> (r: Result<
    (),
>)
    ensures
        match r {
            Ok(_) => numbers_fit(c@) && final(out)@ == old(out)@ + ciphertext_octets(algo, c@),
            Err(e) => e@ is TooLarge && (!numbers_fit(c@) || ciphertext_octets(algo, c@).len()
                > u32::MAX),
        },
{
    match c {
        Ciphertext::RSA { c: number } => {
            out.push(PublicKeyAlgorithm::RSAEncryptSign.octet());
            match push_mpi(out, number.as_slice()) {
                Ok(()) => (),
                Err(e) => return Err(e),
            }
            assert(out@ =~= old(out)@ + ciphertext_octets(algo, c@));
        },
        Ciphertext::X25519 { e, key } => {
            if key.len() > 0xFFFF_FFFF {
                return Err(Error::TooLarge);
            }
            out.push(PublicKeyAlgorithm::X25519.octet());
            extend(out, e.as_slice());
            match algo {
                Some(a) => {
                    #[verifier::truncate]
                    let n: u8 = (key.len() as u64 + 1) as u8;
                    out.push(n);
                    out.push(a.octet());
                },
                None => {
                    #[verifier::truncate]
                    let n: u8 = key.len() as u8;
                    out.push(n);
                },
            }
            extend(out, key.as_slice());
            assert(out@ =~= old(out)@ + ciphertext_octets(algo, c@));
        },
        Ciphertext::ECDH { e, key } => {
            out.push(PublicKeyAlgorithm::ECDH.octet());
            match push_mpi(out, e.as_slice()) {
                Ok(()) => (),
                Err(e) => return Err(e),
            }
            #[verifier::truncate]
            let n: u8 = key.len() as u8;
            out.push(n);
            extend(out, key.as_slice());
            assert(out@ =~= old(out)@ + ciphertext_octets(algo, c@));
        },
    }
    Ok(())
}

/// The view of an optional handle.
pub open spec fn handle_view(handle: Option<KeyHandle>) -> Option<KeyHandleView> {
    match handle {
        Some(h) => Some(h@),
        None => None,
    }
}

/// Makes a packet of version 3 for a recipient.
pub fn make_pkesk3(handle: &Option<KeyHandle>, algo: SymmetricAlgorithm, c: &Ciphertext) -> (r:
    Result<Vec<u8>>)
    ensures
        match r {
            Ok(p) => pkesk3_error(handle_view(*handle), algo, c@) is None && p@ == pkesk3(
                handle_view(*handle),
                algo,
                c@,
            ),
            Err(e) => pkesk3_error(handle_view(*handle), algo, c@) == Some(e@),
        },
{
    let mut body: Vec<u8> = Vec::new();
    body.push(3);
    match handle {
        None => {
            let mut i: usize = 0;
            while i < 8
                invariant
                    i <= 8,
                    body@ == seq![3u8] + crate::cipher::zeros(i as int),
                decreases 8 - i,
            {
                body.push(0);
                i = i + 1;
                assert(body@ =~= seq![3u8] + crate::cipher::zeros(i as int));
            }
        },
        Some(KeyHandle::KeyID(id)) => extend(&mut body, id.0.as_slice()),
        Some(KeyHandle::Fingerprint(fp)) => {
            let id = fp.keyid();
            extend(&mut body, id.0.as_slice());
        },
    }
    let ghost first = body@;
    match push_ciphertext(&mut body, Some(algo), c) {
        Ok(()) => (),
        Err(e) => return Err(e),
    }
    proof {
        let id = match handle_view(*handle) {
            None => crate::cipher::zeros(8),
            Some(KeyHandleView::KeyID(id)) => id,
            Some(KeyHandleView::Fingerprint(fp)) => fp.keyid(),
        };
        assert(first =~= seq![3u8] + id);
    }
    make_packet(Tag::PKESK, body.as_slice())
}

/// Makes a packet of version 6 for a recipient.
pub fn make_pkesk6(handle: &Option<KeyHandle>, c: &Ciphertext) -> (r: Result<Vec<u8>>)
    ensures
        match r {
            Ok(p) => pkesk6_error(handle_view(*handle), c@) is None && p@ == pkesk6(
                handle_view(*handle),
                c@,
            ),
            Err(e) => pkesk6_error(handle_view(*handle), c@) == Some(e@),
        },
{
    let mut body: Vec<u8> = Vec::new();
    body.push(6);
    match handle {
        None => body.push(0),
        Some(KeyHandle::KeyID(_)) => {
            return Err(Error::InvalidOperation("Cannot convert keyid to fingerprint".to_string()));
        },
        Some(KeyHandle::Fingerprint(fp)) => {
            let octets = fp.as_bytes();
            if octets.len() > 0xFFFF_FFFF {
                return Err(Error::TooLarge);
            }
            #[verifier::truncate]
            let n: u8 = (octets.len() as u64 + 1) as u8;
            body.push(n);
            body.push(fp.version());
            extend(&mut body, octets);
        },
    }
    let ghost first = body@;
    match push_ciphertext(&mut body, None, c) {
        Ok(()) => (),
        Err(e) => return Err(e),
    }
    proof {
        let id = match handle_fingerprint(handle_view(*handle)) {
            Some(fp) => seq![(fp.octets.len() + 1) as u8, fp.version] + fp.octets,
            None => seq![0u8],
        };
        assert(first =~= seq![6u8] + id);
    }
    make_packet(Tag::PKESK, body.as_slice())
}

/// A packet of version 4 for a password.
pub open spec fn skesk4(
    algo: SymmetricAlgorithm,
    salt: Seq<u8>,
    password: Seq<u8>,
    sk: Seq<u8>,
) -> Seq<u8> {
    packet(
        Tag::SKESK,
        seq![4u8, algo.spec_octet()] + s2k_specifier(salt) + (CfbView {
            algo,
            key: s2k(salt, password, algo.spec_key_size()->0 as int),
            data: seq![algo.spec_octet()] + sk,
        }).sent(),
    )
}

/// Whether whoever knows the password gets the session key out of a packet
/// of version 4: decrypting gives the algorithm and the session key.
pub open spec fn skesk4_opens(
    algo: SymmetricAlgorithm,
    salt: Seq<u8>,
    password: Seq<u8>,
    sk: Seq<u8>,
) -> bool {
    (CfbView {
        algo,
        key: s2k(salt, password, algo.spec_key_size()->0 as int),
        data: seq![algo.spec_octet()] + sk,
    }).opens()
}

/// Whether making a packet of version 4 for a password may fail with this
/// error: there are no keys of the algorithm, or the library of hashes or that
/// of ciphers refused.
pub open spec fn skesk4_fails(algo: SymmetricAlgorithm, e: ErrorView) -> bool {
    if algo.spec_key_size() is None {
        e == ErrorView::UnsupportedSymmetricAlgorithm(algo)
    } else {
        hash_refused(HashAlgorithm::SHA256, e) || cipher_refused(algo, e)
    }
}

/// Whether making a packet of version 6 for a password may fail with this
/// error: there are no keys of the algorithm, there is no such mode of it, or
/// the cryptographic library refused.
pub open spec fn skesk6_fails(
    algo: SymmetricAlgorithm,
    aead: AEADAlgorithm,
    e: ErrorView,
) -> bool {
    if algo.spec_key_size() is None {
        e == ErrorView::UnsupportedSymmetricAlgorithm(algo)
    } else if aead.spec_nid(algo) is None {
        e == ErrorView::UnsupportedAEADAlgorithm(aead)
    } else {
        hash_refused(HashAlgorithm::SHA256, e)
    }
}

fn push_specifier(out: &mut Vec<u8>, salt: &[u8])
    ensures
        final(out)@ == old(out)@ + s2k_specifier(salt@),
{
    out.push(3);
    out.push(HashAlgorithm::SHA256.octet());
    extend(out, salt);
    out.push(S2K_CODED_COUNT);
    assert(out@ =~= old(out)@ + s2k_specifier(salt@));
}

/// Puts a packet of version 4 for a password together, given the encrypted
/// session key.
pub fn assemble_skesk4(algo: SymmetricAlgorithm, salt: &[u8], esk: &[u8]) -> (r: Vec<u8>)
    requires
        salt@.len() == 8,
        esk@.len() <= 0xFFFF,
    ensures
        r@ == packet(
            Tag::SKESK,
            seq![4u8, algo.spec_octet()] + s2k_specifier(salt@) + esk@,
        ),
{
    let mut body: Vec<u8> = Vec::new();
    body.push(4);
    body.push(algo.octet());
    push_specifier(&mut body, salt);
    extend(&mut body, esk);
    assert(body@ =~= seq![4u8, algo.spec_octet()] + s2k_specifier(salt@) + esk@);
    match make_packet(Tag::SKESK, body.as_slice()) {
        Ok(p) => p,
        Err(_) => Vec::new(),
    }
}

/// Makes a packet of version 4 for a password.
pub fn make_skesk4(algo: SymmetricAlgorithm, salt: &[u8], password: &[u8], sk: &[u8]) -> (r: Result<
    Vec<u8>,
>)
    requires
        salt@.len() == 8,
        sk@.len() <= 32,
    ensures
        match r {
            Ok(p) => p@ == skesk4(algo, salt@, password@, sk@) && algo.spec_cfb_nid() is Some
                && skesk4_opens(algo, salt@, password@, sk@),
            Err(e) => skesk4_fails(algo, e@),
        },
{
    let size = match algo.key_size() {
        Ok(size) => size,
        Err(e) => return Err(e),
    };
    let key = match derive_key(salt, password, size) {
        Ok(key) => key,
        Err(e) => return Err(e),
    };
    let mut plain: Vec<u8> = Vec::new();
    plain.push(algo.octet());
    extend(&mut plain, sk);
    assert(plain@ =~= seq![algo.spec_octet()] + sk@);
    let esk = match cfb_once(algo, key.as_slice(), plain.as_slice()) {
        Ok(esk) => esk,
        Err(e) => return Err(e),
    };
    Ok(assemble_skesk4(algo, salt, esk.as_slice()))
}

/// The associated data of a packet of version 6 for a password.
pub open spec fn skesk6_aad(algo: SymmetricAlgorithm, aead: AEADAlgorithm) -> Seq<u8> {
    seq![0xC3u8, 6, algo.spec_octet(), aead.spec_octet()]
}

/// A packet of version 6 for a password.
pub open spec fn skesk6(
    algo: SymmetricAlgorithm,
    aead: AEADAlgorithm,
    salt: Seq<u8>,
    nonce: Seq<u8>,
    password: Seq<u8>,
    sk: Seq<u8>,
) -> Seq<u8> {
    let k = algo.spec_key_size()->0 as int;
    let aad = skesk6_aad(algo, aead);
    let key = hkdf(s2k(salt, password, k), Seq::empty(), aad, k)->0;
    packet(
        Tag::SKESK,
        skesk6_body(
            algo,
            aead,
            salt,
            nonce,
            sealed(aead.spec_nid(algo)->0, key, nonce, aad, sk),
        ),
    )
}

/// Whether whoever knows the password gets the session key out of a packet
/// of version 6.
pub open spec fn skesk6_opens(
    algo: SymmetricAlgorithm,
    aead: AEADAlgorithm,
    salt: Seq<u8>,
    nonce: Seq<u8>,
    password: Seq<u8>,
    sk: Seq<u8>,
) -> bool {
    let k = algo.spec_key_size()->0 as int;
    let aad = skesk6_aad(algo, aead);
    let key = hkdf(s2k(salt, password, k), Seq::empty(), aad, k)->0;
    let nid = aead.spec_nid(algo)->0;
    unsealed(nid, key, nonce, aad, sealed(nid, key, nonce, aad, sk)) == Some(sk)
}

/// The body of a packet of version 6 for a password, given the encrypted
/// session key.
pub open spec fn skesk6_body(
    algo: SymmetricAlgorithm,
    aead: AEADAlgorithm,
    salt: Seq<u8>,
    nonce: Seq<u8>,
    esk: Seq<u8>,
) -> Seq<u8> {
    let specifier = s2k_specifier(salt);
    seq![
        6u8,
        (3 + specifier.len() + nonce.len()) as u8,
        algo.spec_octet(),
        aead.spec_octet(),
        specifier.len() as u8,
    ] + specifier + nonce + esk
}

/// Puts a packet of version 6 for a password together, given the encrypted
/// session key.
pub fn assemble_skesk6(
    algo: SymmetricAlgorithm,
    aead: AEADAlgorithm,
    salt: &[u8],
    nonce: &[u8],
    esk: &[u8],
) -> (r: Vec<u8>)
    requires
        salt@.len() == 8,
        nonce@.len() <= 16,
        esk@.len() <= 0xFFFF,
    ensures
        r@ == packet(Tag::SKESK, skesk6_body(algo, aead, salt@, nonce@, esk@)),
{
    let mut specifier: Vec<u8> = Vec::new();
    push_specifier(&mut specifier, salt);
    assert(specifier@ =~= s2k_specifier(salt@));
    let mut body: Vec<u8> = Vec::new();
    body.push(6);
    body.push((3 + specifier.len() + nonce.len()) as u8);
    body.push(algo.octet());
    body.push(aead.octet());
    body.push(specifier.len() as u8);
    extend(&mut body, specifier.as_slice());
    extend(&mut body, nonce);
    extend(&mut body, esk);
    assert(body@ =~= skesk6_body(algo, aead, salt@, nonce@, esk@));
    match make_packet(Tag::SKESK, body.as_slice()) {
        Ok(p) => p,
        Err(_) => Vec::new(),
    }
}

/// Makes a packet of version 6 for a password.
#[verifier::rlimit(40)]
pub fn make_skesk6(
    algo: SymmetricAlgorithm,
    aead: AEADAlgorithm,
    salt: &[u8],
    nonce: &[u8],
    password: &[u8],
    sk: &[u8],
) -> (r: Result<Vec<u8>>)
    requires
        salt@.len() == 8,
        sk@.len() <= 32,
        aead.spec_nonce_size() is Some ==> nonce@.len() == aead.spec_nonce_size()->0,
    ensures
        match r {
            Ok(p) => p@ == skesk6(algo, aead, salt@, nonce@, password@, sk@) && aead.spec_nid(
                algo,
            ) is Some && skesk6_opens(algo, aead, salt@, nonce@, password@, sk@),
            Err(e) => skesk6_fails(algo, aead, e@),
        },
{
    let size = match algo.key_size() {
        Ok(size) => size,
        Err(e) => return Err(e),
    };
    let nid = match aead.nid(algo) {
        Ok(nid) => nid,
        Err(e) => return Err(e),
    };
    let ikm = match derive_key(salt, password, size) {
        Ok(key) => key,
        Err(e) => return Err(e),
    };
    let mut aad: Vec<u8> = Vec::new();
    aad.push(0xC3);
    aad.push(6);
    aad.push(algo.octet());
    aad.push(aead.octet());
    assert(aad@ =~= skesk6_aad(algo, aead));
    let none: Vec<u8> = Vec::new();
    assert(none@ =~= Seq::<u8>::empty());
    let key = match hkdf_sha256(ikm.as_slice(), none.as_slice(), aad.as_slice(), size) {
        Ok(key) => key,
        Err(_) => return Err(Error::Backend),
    };
    let esk = match seal(nid, key.as_slice(), nonce, aad.as_slice(), sk) {
        Some(esk) => esk,
        None => return Err(Error::Backend),
    };
    Ok(assemble_skesk6(algo, aead, salt, nonce, esk.as_slice()))
}

} // verus!
