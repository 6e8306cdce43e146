//! Elliptic Curve Diffie-Hellman.

use vstd::prelude::*;

use crate::backend::{
    aes_unwrap, aes_wrap, ec_derive, ec_generate, ec_pair, ec_shared, key_unwrapped, key_wrapped,
    MAX_LEN,
};
use crate::bytes::{copy_range, extend, text, to_vec};
use crate::error::{Error, ErrorView, Result};
use crate::hashing::{hash_of, hash_once, hash_refused, hash_size};
use crate::key::{
    Ciphertext, CiphertextView, FingerprintView, Key, KeyView, PublicKey, PublicKeyView,
    SecretKeyMaterial,
};
use crate::types::{Curve, HashAlgorithm, SymmetricAlgorithm};

verus! {

/// The length that session keys are padded to, which hides their length.
pub const PADDED_LEN: usize = 40;

/// The group of the recipient's key, or why there is none.
pub open spec fn group(key: PublicKeyView) -> std::result::Result<int, ErrorView> {
    match key {
        PublicKeyView::ECDH { curve, cv25519, nid, .. } => if cv25519 {
            Err(ErrorView::InvalidArgument("implemented elsewhere"@))
        } else {
            match nid {
                Some(n) => Ok(n),
                None => Err(ErrorView::UnsupportedEllipticCurve(curve)),
            }
        },
        _ => Err(ErrorView::InvalidArgument("Expected an ECDHPublicKey"@)),
    }
}

/// The parameters that the key encryption key is bound to.
pub open spec fn kdf_param(
    curve: Seq<u8>,
    hash: HashAlgorithm,
    sym: SymmetricAlgorithm,
    fingerprint: FingerprintView,
) -> Seq<u8> {
    seq![curve.len() as u8] + curve + seq![18u8, 3, 1, hash.spec_octet(), sym.spec_octet()] + text(
        "Anonymous Sender    ",
    ) + fingerprint.octets
}

/// The length of the key encryption key, if the algorithm is one that keys
/// are wrapped with.
pub open spec fn kek_size(sym: SymmetricAlgorithm) -> Option<nat> {
    match sym {
        SymmetricAlgorithm::AES128 => Some(16),
        SymmetricAlgorithm::AES192 => Some(24),
        SymmetricAlgorithm::AES256 => Some(32),
        _ => None,
    }
}

/// The key encryption key that is derived from the shared secret.
pub open spec fn kek(key: KeyView, secret: Seq<u8>) -> Seq<u8> {
    match key.mpis {
        PublicKeyView::ECDH { curve, hash: algo, sym, .. } => hash_of(
            algo,
            seq![0u8, 0, 0, 1] + secret + kdf_param(curve, algo, sym, key.fingerprint),
        ).take(kek_size(sym)->0 as int),
        _ => Seq::empty(),
    }
}

/// Why no key encryption key can be derived, whatever the secret is.
pub open spec fn kek_error(key: PublicKeyView) -> Option<ErrorView> {
    match key {
        PublicKeyView::ECDH { hash: algo, sym, .. } => if kek_size(sym) is None {
            Some(ErrorView::UnsupportedSymmetricAlgorithm(sym))
        } else if algo.spec_nid() is None {
            Some(ErrorView::UnsupportedHashAlgorithm(algo))
        } else if hash_size(algo) < kek_size(sym)->0 {
            Some(ErrorView::InvalidArgument("Digest too short"@))
        } else {
            None
        },
        _ => Some(ErrorView::InvalidArgument("Expected an ECDHPublicKey"@)),
    }
}

/// Whether an error tells that the library of hashes refused to derive a key
/// encryption key.
pub open spec fn kdf_refused(key: PublicKeyView, e: ErrorView) -> bool {
    key matches PublicKeyView::ECDH { hash: algo, sym, .. } && kek_size(sym) is Some
        && hash_refused(algo, e)
}

/// A session key, padded.
pub open spec fn pad(sk: Seq<u8>) -> Seq<u8> {
    sk + Seq::new((PADDED_LEN - sk.len()) as nat, |i: int| (PADDED_LEN - sk.len()) as u8)
}

/// A padded session key without its padding, given the length of the session
/// key; without a length, the last octet gives the length of the padding.
pub open spec fn unpad(m: Seq<u8>, plaintext_len: Option<usize>) -> std::result::Result<
    Seq<u8>,
    ErrorView,
> {
    if m.len() > 0xFF {
        Err(ErrorView::InvalidArgument("message too large"@))
    } else {
        let l = match plaintext_len {
            Some(l) => l as int,
            None => if m.len() == 0 {
                1
            } else {
                m.len() - m.last()
            },
        };
        if m.len() < l || l < 0 {
            Err(ErrorView::InvalidArgument("message too small"@))
        } else if m.skip(l) == Seq::new((m.len() - l) as nat, |i: int| (m.len() - l) as u8) {
            Ok(m.take(l))
        } else {
            Err(ErrorView::InvalidArgument("bad padding"@))
        }
    }
}

/// A session key, wrapped for the recipient under a shared secret.
pub open spec fn wrapped(key: KeyView, sk: Seq<u8>, secret: Seq<u8>) -> Option<Seq<u8>> {
    key_wrapped(kek(key, secret), pad(sk))
}

/// The session key that was wrapped under a key encryption key, or what is
/// wrong.
pub open spec fn unwrapped_by(
    kek: Seq<u8>,
    wrapped: Seq<u8>,
    plaintext_len: Option<usize>,
) -> std::result::Result<Seq<u8>, ErrorView> {
    match key_unwrapped(kek, wrapped) {
        None => Err(ErrorView::InvalidArgument("Bad key"@)),
        Some(m) => unpad(m, plaintext_len),
    }
}

/// The session key that was wrapped for the recipient under a shared
/// secret, or what is wrong.
pub open spec fn unwrapped(
    key: KeyView,
    secret: Seq<u8>,
    wrapped: Seq<u8>,
    plaintext_len: Option<usize>,
) -> std::result::Result<Seq<u8>, ErrorView> {
    unwrapped_by(kek(key, secret), wrapped, plaintext_len)
}

/// Removing the padding of a padded session key gives the session key.
pub proof fn law_unpad_pad(sk: Seq<u8>)
    requires
        sk.len() <= PADDED_LEN,
    ensures
        unpad(pad(sk), Some(sk.len() as usize)) == Ok::<Seq<u8>, ErrorView>(sk),
        sk.len() < PADDED_LEN ==> unpad(pad(sk), None) == Ok::<Seq<u8>, ErrorView>(sk),
{
    let m = pad(sk);
    let n = sk.len() as int;
    assert(m.len() == PADDED_LEN);
    assert(m.skip(n) =~= Seq::new((m.len() - n) as nat, |i: int| (m.len() - n) as u8));
    assert(m.take(n) =~= sk);
    if n < PADDED_LEN {
        assert(m.last() == (PADDED_LEN - n) as u8);
    }
}

/// Cuts a digest to the length of the key encryption key.
pub fn cut_kek(sym: SymmetricAlgorithm, digest: &[u8]) -> (r: Result<Vec<u8>>)
    ensures
        match r {
            Ok(k) => kek_size(sym) is Some && digest@.len() >= kek_size(sym)->0 && k@
                == digest@.take(kek_size(sym)->0 as int),
            Err(e) => {
                ||| kek_size(sym) is None && e@ == ErrorView::UnsupportedSymmetricAlgorithm(sym)
                ||| kek_size(sym) is Some && digest@.len() < kek_size(sym)->0 && e@
                    == ErrorView::InvalidArgument("Digest too short"@)
            },
        },
{
    let size: usize = match sym {
        SymmetricAlgorithm::AES128 => 16,
        SymmetricAlgorithm::AES192 => 24,
        SymmetricAlgorithm::AES256 => 32,
        _ => return Err(Error::UnsupportedSymmetricAlgorithm(sym)),
    };
    if digest.len() < size {
        return Err(Error::InvalidArgument("Digest too short".to_string()));
    }
    let k = copy_range(digest, 0, size);
    assert(k@ =~= digest@.take(size as int));
    Ok(k)
}

fn is_kek_algo(sym: SymmetricAlgorithm) -> (r: bool)
    ensures
        r == (kek_size(sym) is Some),
{
    match sym {
        SymmetricAlgorithm::AES128 | SymmetricAlgorithm::AES192 | SymmetricAlgorithm::AES256 => true,
        _ => false,
    }
}

#[verifier::rlimit(40)]
fn derive_kek(key: &Key, secret: &[u8]) -> (r: Result<Vec<u8>>)
    ensures
        match r {
            Ok(k) => k@ == kek(key@, secret@) && kek_error(key@.mpis) is None && k@.len() <= 32,
            Err(e) => kek_error(key@.mpis) == Some(e@) || kdf_refused(key@.mpis, e@),
        },
{
    match key.mpis() {
        PublicKey::ECDH { curve, q: _, hash: algo, sym } => {
            if !is_kek_algo(*sym) {
                return Err(Error::UnsupportedSymmetricAlgorithm(*sym));
            }
            let oid = curve.oid();
            let mut data: Vec<u8> = Vec::new();
            data.push(0);
            data.push(0);
            data.push(0);
            data.push(1);
            extend(&mut data, secret);
            let ghost first = data@;
            #[verifier::truncate]
            let oid_len: u8 = oid.len() as u8;
            data.push(oid_len);
            extend(&mut data, oid.as_slice());
            data.push(18);
            data.push(3);
            data.push(1);
            data.push(algo.octet());
            data.push(sym.octet());
            extend(&mut data, "Anonymous Sender    ".as_bytes());
            extend(&mut data, key.fingerprint().as_bytes());
            proof {
                assert(first =~= seq![0u8, 0, 0, 1] + secret@);
                assert(data@ =~= first + kdf_param(curve@, *algo, *sym, key@.fingerprint));
            }
            match hash_once(*algo, data.as_slice()) {
                Ok(d) => cut_kek(*sym, d.as_slice()),
                Err(e) => Err(e),
            }
        },
        _ => {
            Err(Error::InvalidArgument("Expected an ECDHPublicKey".to_string()))
        },
    }
}

/// The error for a session key that does not fit into the padding.
pub open spec fn plaintext_too_large() -> ErrorView {
    ErrorView::InvalidArgument("Plaintext data too large"@)
}

/// Wraps a session key under a key encryption key, given the ephemeral public
/// point.
pub fn wrap_key(kek: &[u8], session_key: &[u8], ephemeral: Vec<u8>) -> (r: Result<Ciphertext>)
    requires
        kek@.len() <= 32,
    ensures
        r is Ok <==> session_key@.len() <= PADDED_LEN && key_wrapped(kek@, pad(session_key@))
            is Some,
        match r {
            Ok(c) => {
                &&& c@ == (CiphertextView::ECDH {
                    e: ephemeral@,
                    key: key_wrapped(kek@, pad(session_key@))->0,
                })
                &&& c@->ECDH_key.len() == PADDED_LEN + 8
                &&& unwrapped_by(kek@, c@->ECDH_key, Some(session_key@.len() as usize)) == Ok::<
                    Seq<u8>,
                    ErrorView,
                >(session_key@)
                &&& session_key@.len() < PADDED_LEN ==> unwrapped_by(kek@, c@->ECDH_key, None)
                    == Ok::<Seq<u8>, ErrorView>(session_key@)
            },
            Err(e) => e@ == if session_key@.len() > PADDED_LEN {
                plaintext_too_large()
            } else {
                ErrorView::Backend
            },
        },
{
    if session_key.len() > PADDED_LEN {
        return Err(Error::InvalidArgument("Plaintext data too large".to_string()));
    }
    let mut m = to_vec(session_key);
    let missing: usize = PADDED_LEN - session_key.len();
    let mut i: usize = 0;
    while i < missing
        invariant
            i <= missing <= PADDED_LEN,
            m@ == session_key@ + Seq::new(i as nat, |j: int| missing as u8),
        decreases missing - i,
    {
        m.push(missing as u8);
        i = i + 1;
        assert(m@ =~= session_key@ + Seq::new(i as nat, |j: int| missing as u8));
    }
    assert(m@ =~= pad(session_key@));
    proof {
        law_unpad_pad(session_key@);
    }
    match aes_wrap(kek, m.as_slice()) {
        Some(key) => Ok(Ciphertext::ECDH { e: ephemeral, key }),
        None => Err(Error::Backend),
    }
}

/// Whether wrapping a session key may fail with this error, given the shared
/// secret: the session key is too large, there is no key encryption key for
/// the recipient, it cannot be wrapped, or the library of hashes refused.
pub open spec fn wrap_fails(key: KeyView, sk: Seq<u8>, secret: Seq<u8>, e: ErrorView) -> bool {
    if sk.len() > PADDED_LEN {
        e == plaintext_too_large()
    } else {
        ||| kek_error(key.mpis) == Some(e)
        ||| kdf_refused(key.mpis, e)
        ||| kek_error(key.mpis) is None && wrapped(key, sk, secret) is None && e is Backend
    }
}

/// Wraps a session key for the recipient, given the ephemeral public point
/// and the shared secret.
pub fn encrypt_wrap(recipient: &Key, session_key: &[u8], ephemeral: Vec<u8>, secret: &[u8]) -> (r:
    Result<Ciphertext>)
    ensures
        match r {
            Ok(c) => {
                &&& session_key@.len() <= PADDED_LEN
                &&& kek_error(recipient@.mpis) is None
                &&& wrapped(recipient@, session_key@, secret@) is Some
                &&& c@ == (CiphertextView::ECDH {
                    e: ephemeral@,
                    key: wrapped(recipient@, session_key@, secret@)->0,
                })
                &&& c@->ECDH_key.len() == PADDED_LEN + 8
                &&& unwrapped(recipient@, secret@, c@->ECDH_key, Some(session_key@.len() as usize))
                    == Ok::<Seq<u8>, ErrorView>(session_key@)
                &&& session_key@.len() < PADDED_LEN ==> unwrapped(
                    recipient@,
                    secret@,
                    c@->ECDH_key,
                    None,
                ) == Ok::<Seq<u8>, ErrorView>(session_key@)
            },
            Err(e) => wrap_fails(recipient@, session_key@, secret@, e@),
        },
{
    if session_key.len() > PADDED_LEN {
        return Err(Error::InvalidArgument("Plaintext data too large".to_string()));
    }
    let kek = match derive_kek(recipient, secret) {
        Ok(kek) => kek,
        Err(e) => return Err(e),
    };
    wrap_key(kek.as_slice(), session_key, ephemeral)
}

/// Unwraps a session key, given the key encryption key.
pub fn unwrap_key(kek: &[u8], wrapped: &[u8], plaintext_len: Option<usize>) -> (r: Result<Vec<u8>>)
    requires
        kek@.len() <= 32,
    ensures
        match r {
            Ok(sk) => unwrapped_by(kek@, wrapped@, plaintext_len) == Ok::<Seq<u8>, ErrorView>(sk@),
            Err(e) => unwrapped_by(kek@, wrapped@, plaintext_len) == Err::<Seq<u8>, ErrorView>(e@),
        },
{
    let m = match aes_unwrap(kek, wrapped) {
        Some(m) => m,
        None => return Err(Error::InvalidArgument("Bad key".to_string())),
    };
    remove_padding(m, plaintext_len)
}

/// The error for a key or a ciphertext of another kind.
pub open spec fn expected_ecdh() -> ErrorView {
    ErrorView::InvalidArgument("Expected an ECDHPublicKey"@)
}

/// Unwraps a session key, given the shared secret.
pub fn decrypt_unwrap(
    recipient: &Key,
    secret: &[u8],
    ciphertext: &Ciphertext,
    plaintext_len: Option<usize>,
) -> (r: Result<Vec<u8>>)
    ensures
        !(ciphertext@ is ECDH) ==> r is Err && r->Err_0@ == expected_ecdh(),
        ciphertext@ is ECDH ==> ({
            let opened = unwrapped(recipient@, secret@, ciphertext@->ECDH_key, plaintext_len);
            match r {
                Ok(sk) => kek_error(recipient@.mpis) is None && opened == Ok::<Seq<u8>, ErrorView>(
                    sk@,
                ),
                Err(e) => {
                    ||| kek_error(recipient@.mpis) == Some(e@)
                    ||| kdf_refused(recipient@.mpis, e@)
                    ||| kek_error(recipient@.mpis) is None && opened == Err::<Seq<u8>, ErrorView>(
                        e@,
                    )
                },
            }
        }),
{
    let wrapped = match ciphertext {
        Ciphertext::ECDH { e: _, key } => key,
        _ => {
            return Err(Error::InvalidArgument("Expected an ECDHPublicKey".to_string()));
        },
    };
    let kek = match derive_kek(recipient, secret) {
        Ok(kek) => kek,
        Err(e) => return Err(e),
    };
    unwrap_key(kek.as_slice(), wrapped.as_slice(), plaintext_len)
}

fn remove_padding(m: Vec<u8>, plaintext_len: Option<usize>) -> (r: Result<Vec<u8>>)
    ensures
        match r {
            Ok(sk) => unpad(m@, plaintext_len) == Ok::<Seq<u8>, ErrorView>(sk@),
            Err(e) => unpad(m@, plaintext_len) == Err::<Seq<u8>, ErrorView>(e@),
        },
{
    if m.len() > 0xFF {
        return Err(Error::InvalidArgument("message too large".to_string()));
    }
    let l: usize = match plaintext_len {
        Some(l) => l,
        None => {
            if m.len() == 0 {
                1
            } else {
                let p: usize = m[m.len() - 1] as usize;
                if p > m.len() {
                    return Err(Error::InvalidArgument("message too small".to_string()));
                }
                m.len() - p
            }
        },
    };
    if m.len() < l {
        return Err(Error::InvalidArgument("message too small".to_string()));
    }
    let missing: u8 = (m.len() - l) as u8;
    let mut good: bool = true;
    let mut i: usize = l;
    while i < m.len()
        invariant
            l <= i <= m@.len(),
            good == (forall|j: int| l <= j < i ==> m@[j] == missing),
        decreases m@.len() - i,
    {
        good = m[i] == missing && good;
        i = i + 1;
    }
    let ghost expected = Seq::new((m@.len() - l) as nat, |j: int| (m@.len() - l) as u8);
    if good {
        assert(m@.skip(l as int) =~= expected);
        let sk = copy_range(m.as_slice(), 0, l);
        assert(sk@ =~= m@.take(l as int));
        Ok(sk)
    } else {
        proof {
            let j = choose|j: int| l <= j < m@.len() && m@[j] != missing;
            assert(m@.skip(l as int)[j - l] != expected[j - l]);
        }
        Err(Error::InvalidArgument("bad padding".to_string()))
    }
}

fn curve_group(key: &Key) -> (r: Result<i32>)
    ensures
        match r {
            Ok(nid) => group(key@.mpis) == Ok::<int, ErrorView>(nid as int) && key@.mpis is ECDH,
            Err(e) => group(key@.mpis) == Err::<int, ErrorView>(e@),
        },
{
    match key.mpis() {
        PublicKey::ECDH { curve, .. } => {
            if is_cv25519(curve) {
                return Err(Error::InvalidArgument("implemented elsewhere".to_string()));
            }
            curve.nid()
        },
        _ => {
            Err(Error::InvalidArgument("Expected an ECDHPublicKey".to_string()))
        },
    }
}

pub(crate) fn is_cv25519(curve: &Curve) -> (r: bool)
    ensures
        r == (curve is Cv25519),
{
    match curve {
        Curve::Cv25519 => true,
        _ => false,
    }
}

/// Wraps a session key using Elliptic Curve Diffie-Hellman, with a given
/// ephemeral key.
#[verifier::rlimit(40)]
pub fn encrypt_with(
    recipient: &Key,
    session_key: &[u8],
    scalar: &[u8],
    ephemeral: Vec<u8>,
) -> (r: Result<Ciphertext>)
    requires
        scalar@.len() <= MAX_LEN,
    ensures
        group(recipient@.mpis) matches Err(x) ==> r is Err && r->Err_0@ == x,
        group(recipient@.mpis) matches Ok(nid) ==> ({
            let shared = ec_shared(nid, scalar@, ephemeral@, recipient@.mpis->q);
            match r {
                Ok(c) => {
                    &&& session_key@.len() <= PADDED_LEN
                    &&& kek_error(recipient@.mpis) is None
                    &&& shared is Some
                    &&& wrapped(recipient@, session_key@, shared->0) is Some
                    &&& c@ == (CiphertextView::ECDH {
                        e: ephemeral@,
                        key: wrapped(recipient@, session_key@, shared->0)->0,
                    })
                    &&& c@->ECDH_key.len() == PADDED_LEN + 8
                    &&& ec_pair(nid, scalar@, ephemeral@) ==> opens(
                        recipient@,
                        session_key@,
                        c@,
                    )
                },
                Err(e) => match shared {
                    None => e@ is Backend,
                    Some(secret) => wrap_fails(recipient@, session_key@, secret, e@),
                },
            }
        }),
{
    let nid = match curve_group(recipient) {
        Ok(nid) => nid,
        Err(e) => return Err(e),
    };
    let q = match recipient.mpis() {
        PublicKey::ECDH { q, .. } => q,
        _ => {
            return Err(Error::InvalidArgument("Expected an ECDHPublicKey".to_string()));
        },
    };
    let secret = match ec_derive(nid, scalar, ephemeral.as_slice(), q.as_slice()) {
        Ok(secret) => secret,
        Err(_) => return Err(Error::Backend),
    };
    encrypt_wrap(recipient, session_key, ephemeral, secret.as_slice())
}

/// Whether everyone who holds the secret half of the recipient's key gets the
/// session key out of the ciphertext.
pub open spec fn opens(recipient: KeyView, sk: Seq<u8>, c: CiphertextView) -> bool {
    let nid = group(recipient.mpis)->Ok_0;
    forall|b: Seq<u8>|
        #[trigger] ec_pair(nid, b, recipient.mpis->q) && b.len() <= MAX_LEN ==> {
            let shared = ec_shared(nid, b, recipient.mpis->q, c->ECDH_e);
            &&& shared is Some
            &&& unwrapped(recipient, shared->0, c->ECDH_key, Some(sk.len() as usize)) == Ok::<
                Seq<u8>,
                ErrorView,
            >(sk)
            &&& sk.len() < PADDED_LEN ==> unwrapped(recipient, shared->0, c->ECDH_key, None)
                == Ok::<Seq<u8>, ErrorView>(sk)
        }
}

/// Wraps a session key using Elliptic Curve Diffie-Hellman.
///
/// If it fails, there is no group for the recipient's key, the session key
/// cannot be wrapped for it, or the cryptographic library refused something.
pub fn encrypt(recipient: &Key, session_key: &[u8]) -> (r: Result<Ciphertext>)
    ensures
        group(recipient@.mpis) matches Err(x) ==> r is Err && r->Err_0@ == x,
        group(recipient@.mpis) matches Ok(nid) ==> match r {
            Ok(c) => {
                &&& session_key@.len() <= PADDED_LEN
                &&& kek_error(recipient@.mpis) is None
                &&& c@ is ECDH
                &&& c@->ECDH_e.len() > 0 && c@->ECDH_e[0] == 4
                &&& exists|scalar: Seq<u8>|
                    #[trigger] ec_pair(nid, scalar, c@->ECDH_e) && (ec_shared(
                        nid,
                        scalar,
                        c@->ECDH_e,
                        recipient@.mpis->q,
                    ) matches Some(secret) && wrapped(recipient@, session_key@, secret) == Some(
                        c@->ECDH_key,
                    ))
                &&& opens(recipient@, session_key@, c@)
            },
            Err(e) => {
                ||| e@ is Backend
                ||| exists|secret: Seq<u8>|
                    #[trigger] wrap_fails(recipient@, session_key@, secret, e@)
            },
        },
{
    let nid = match curve_group(recipient) {
        Ok(nid) => nid,
        Err(e) => return Err(e),
    };
    let (scalar, point) = match ec_generate(nid) {
        Ok(pair) => pair,
        Err(_) => return Err(Error::Backend),
    };
    if scalar.len() > MAX_LEN {
        return Err(Error::Backend);
    }
    encrypt_with(recipient, session_key, scalar.as_slice(), point)
}

/// The secret that the recipient, who holds the scalar, shares with whoever
/// made the ciphertext, or what is wrong.
pub open spec fn shared(
    recipient: KeyView,
    scalar: Seq<u8>,
    c: CiphertextView,
) -> std::result::Result<Seq<u8>, ErrorView> {
    match group(recipient.mpis) {
        Err(e) => Err(e),
        Ok(nid) => if scalar.len() > MAX_LEN {
            Err(ErrorView::TooLarge)
        } else {
            match ec_shared(nid, scalar, recipient.mpis->q, c->ECDH_e) {
                None => Err(ErrorView::Backend),
                Some(secret) => Ok(secret),
            }
        },
    }
}

/// The session key that the recipient, who holds the scalar, gets out of a
/// ciphertext, or what is wrong.
pub open spec fn decryption(
    recipient: KeyView,
    scalar: Seq<u8>,
    c: CiphertextView,
    plaintext_len: Option<usize>,
) -> std::result::Result<Seq<u8>, ErrorView> {
    match shared(recipient, scalar, c) {
        Err(e) => Err(e),
        Ok(secret) => match kek_error(recipient.mpis) {
            Some(e) => Err(e),
            None => unwrapped(recipient, secret, c->ECDH_key, plaintext_len),
        },
    }
}

/// Decrypting what was encrypted for a recipient gives the session key to
/// everyone who holds the secret half of the recipient's key; the length need
/// not be given if the session key was padded.
pub proof fn law_decrypts_what_was_encrypted(
    recipient: KeyView,
    sk: Seq<u8>,
    c: CiphertextView,
    scalar: Seq<u8>,
)
    requires
        group(recipient.mpis) is Ok,
        kek_error(recipient.mpis) is None,
        opens(recipient, sk, c),
        ec_pair(group(recipient.mpis)->Ok_0, scalar, recipient.mpis->q),
        scalar.len() <= MAX_LEN,
    ensures
        decryption(recipient, scalar, c, Some(sk.len() as usize)) == Ok::<Seq<u8>, ErrorView>(sk),
        sk.len() < PADDED_LEN ==> decryption(recipient, scalar, c, None) == Ok::<
            Seq<u8>,
            ErrorView,
        >(sk),
{
}

/// Unwraps a session key using Elliptic Curve Diffie-Hellman.
///
/// The result is the one that the keys and the ciphertext determine, unless
/// the library of hashes refuses.
#[verifier::rlimit(40)]
pub fn decrypt(
    recipient: &Key,
    recipient_sec: &SecretKeyMaterial,
    ciphertext: &Ciphertext,
    plaintext_len: Option<usize>,
) -> (r: Result<Vec<u8>>)
    ensures
        !(recipient@.mpis is ECDH && recipient_sec is ECDH && ciphertext@ is ECDH) ==> r is Err
            && r->Err_0@ == expected_ecdh(),
        recipient@.mpis is ECDH && recipient_sec is ECDH && ciphertext@ is ECDH ==> ({
            let opened = decryption(
                recipient@,
                recipient_sec->scalar@,
                ciphertext@,
                plaintext_len,
            );
            match r {
                Ok(sk) => opened == Ok::<Seq<u8>, ErrorView>(sk@),
                Err(e) => {
                    ||| opened == Err::<Seq<u8>, ErrorView>(e@)
                    ||| shared(recipient@, recipient_sec->scalar@, ciphertext@) is Ok
                        && kdf_refused(recipient@.mpis, e@)
                },
            }
        }),
{
    let (q, scalar, e) = match (recipient.mpis(), recipient_sec, ciphertext) {
        (
            PublicKey::ECDH { q, .. },
            SecretKeyMaterial::ECDH { scalar },
            Ciphertext::ECDH { e, .. },
        ) => (q, scalar, e),
        _ => return Err(Error::InvalidArgument("Expected an ECDHPublicKey".to_string())),
    };
    let nid = match curve_group(recipient) {
        Ok(nid) => nid,
        Err(e) => return Err(e),
    };
    if scalar.len() > MAX_LEN {
        return Err(Error::TooLarge);
    }
    let secret = match ec_derive(nid, scalar.as_slice(), q.as_slice(), e.as_slice()) {
        Ok(secret) => secret,
        Err(_) => return Err(Error::Backend),
    };
    decrypt_unwrap(recipient, secret.as_slice(), ciphertext, plaintext_len)
}

} // verus!
