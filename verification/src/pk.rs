//! Encrypting session keys for the holders of secret keys.

use vstd::prelude::*;

use crate::backend::{
    aes_wrap, hkdf, hkdf_sha256, is_pkcs1_padding, key_unwrapped, key_wrapped, pkcs1_encoded,
    rsa_encrypt, rsa_public, x25519_derive, x25519_generate, x25519_public, x25519_shared,
    MAX_LEN,
};
use crate::bytes::{copy_range, extend, text, to_vec};
use crate::ecdh;
use crate::error::{Error, ErrorView, Result};
use crate::esk::{make_payload, payload};
use crate::key::{
    number, strip_zeros, Ciphertext, CiphertextView, Key, KeyView, PublicKey, PublicKeyView,
};
use crate::types::SymmetricAlgorithm;

verus! {

/// The key encryption key of X25519, given the ephemeral public key, the
/// recipient's public key, and the shared secret.
pub open spec fn x25519_kek(e: Seq<u8>, u: Seq<u8>, secret: Seq<u8>) -> Option<Seq<u8>> {
    hkdf(e + u + secret, Seq::empty(), text("OpenPGP X25519"), 16)
}

/// Whether the key is one on the curve Curve25519 that is used like other
/// elliptic curves.
pub open spec fn is_cv25519(key: PublicKeyView) -> bool {
    key matches PublicKeyView::ECDH { cv25519, .. } && cv25519
}

/// A public key on Curve25519 as it stands in a packet.
pub open spec fn native_point(u: Seq<u8>) -> Seq<u8> {
    seq![0x40u8] + u
}

/// Whether a ciphertext is one for the holder of the secret key.  For an
/// RSA key, it is the encryption of the session key with its checksum, after
/// the algorithm if that is told.  For another key, whoever holds the secret
/// key gets the same, or with X25519 the session key alone, out of it.
pub open spec fn encrypted_for(
    key: KeyView,
    algo: Option<SymmetricAlgorithm>,
    sk: Seq<u8>,
    c: CiphertextView,
) -> bool {
    match (key.mpis, c) {
        (PublicKeyView::RSA { e, n }, CiphertextView::RSA { c }) => exists|padding: Seq<u8>|
            {
                let encoded = #[trigger] pkcs1_encoded(padding, payload(algo, sk));
                &&& is_pkcs1_padding(padding)
                &&& encoded.len() == strip_zeros(n).len()
                &&& c.len() == encoded.len()
                &&& number(c) == rsa_public(number(n), number(e), number(encoded))
            },
        (PublicKeyView::X25519 { u }, CiphertextView::X25519 { e, key: wrapped }) => forall|
            b: Seq<u8>,
        |
            u == #[trigger] x25519_public(b) && b.len() == 32 ==> {
                let shared = x25519_shared(b, e);
                &&& shared is Some
                &&& x25519_kek(e, u, shared->0) is Some
                &&& key_unwrapped(x25519_kek(e, u, shared->0)->0, wrapped) == Some(sk)
            },
        (PublicKeyView::ECDH { q, .. }, CiphertextView::ECDH { e, key: wrapped }) => if is_cv25519(
            key.mpis,
        ) {
            &&& ecdh::kek_error(key.mpis) is None
            &&& forall|b: Seq<u8>|
                q == native_point(#[trigger] x25519_public(b)) && b.len() == 32 ==> {
                    let shared = x25519_shared(b, e.skip(1));
                    &&& shared is Some
                    &&& ecdh::unwrapped(key, shared->0, wrapped, None) == Ok::<
                        Seq<u8>,
                        ErrorView,
                    >(payload(algo, sk))
                }
        } else {
            &&& ecdh::group(key.mpis) is Ok
            &&& ecdh::kek_error(key.mpis) is None
            &&& ecdh::opens(key, payload(algo, sk), c)
        },
        _ => false,
    }
}

/// The length up to which the numbers of RSA keys are looked at.
pub const MAX_RSA_LEN: usize = 0x10_0000;

/// The error for a key on Curve25519 that is none.
pub open spec fn invalid_cv25519() -> ErrorView {
    ErrorView::InvalidArgument("Invalid Curve25519 public key"@)
}

/// Whether the octets are a public key on Curve25519 as it stands in a packet.
pub open spec fn is_native_point(q: Seq<u8>) -> bool {
    q.len() == 33 && q[0] == 0x40
}

/// Whether encrypting a session key for a key may fail with this error: the
/// key is not supported or no key of its kind, there is no key encryption key
/// for it, or the cryptographic library refused.
pub open spec fn pk_error(key: KeyView, e: ErrorView) -> bool {
    match key.mpis {
        PublicKeyView::Other { algo } => e == ErrorView::UnsupportedPublicKeyAlgorithm(algo),
        PublicKeyView::RSA { e: exponent, n } => if n.len() > MAX_RSA_LEN || exponent.len()
            > MAX_RSA_LEN {
            e is TooLarge
        } else {
            e is Backend
        },
        PublicKeyView::X25519 { .. } => e is Backend,
        PublicKeyView::ECDH { q, .. } => {
            ||| e is Backend
            ||| is_cv25519(key.mpis) && !is_native_point(q) && e == invalid_cv25519()
            ||| !is_cv25519(key.mpis) && ecdh::group(key.mpis) == Err::<int, ErrorView>(e)
            ||| ecdh::kek_error(key.mpis) == Some(e)
            ||| ecdh::kdf_refused(key.mpis, e)
        },
    }
}

/// Wraps a session key with X25519, given the key encryption key.
pub fn x25519_wrap(kek: &[u8], e: Vec<u8>, sk: &[u8]) -> (r: Result<Ciphertext>)
    requires
        kek@.len() <= 32,
        sk@.len() <= 32,
    ensures
        match r {
            Ok(c) => {
                &&& c@ is X25519
                &&& c@->X25519_e == e@
                &&& key_wrapped(kek@, sk@) == Some(c@->X25519_key)
                &&& key_unwrapped(kek@, c@->X25519_key) == Some(sk@)
                &&& c@->X25519_key.len() == sk@.len() + 8
            },
            Err(e) => key_wrapped(kek@, sk@) is None && e@ is Backend,
        },
{
    match aes_wrap(kek, sk) {
        Some(key) => Ok(Ciphertext::X25519 { e, key }),
        None => Err(Error::Backend),
    }
}

/// The wrapped session key of X25519, given the ephemeral secret and public
/// keys, if the keys are such keys.
pub open spec fn x25519_wrapped(u: Seq<u8>, sk: Seq<u8>, scalar: Seq<u8>, e: Seq<u8>) -> Option<
    Seq<u8>,
> {
    match x25519_shared(scalar, u) {
        None => None,
        Some(secret) => match x25519_kek(e, u, secret) {
            None => None,
            Some(kek) => key_wrapped(kek, sk),
        },
    }
}

/// Encrypts with X25519, given an ephemeral key.
pub fn x25519_encrypt(u: &Vec<u8>, sk: &[u8], scalar: &[u8], e: Vec<u8>) -> (r: Result<Ciphertext>)
    requires
        sk@.len() <= 32,
    ensures
        match r {
            Ok(c) => {
                &&& c@ is X25519
                &&& c@->X25519_e == e@
                &&& x25519_wrapped(u@, sk@, scalar@, e@) == Some(c@->X25519_key)
                &&& c@->X25519_key.len() == sk@.len() + 8
                &&& forall|b: Seq<u8>|
                    e@ == x25519_public(scalar@) && u@ == #[trigger] x25519_public(b) && b.len()
                        == 32 ==> {
                        let shared = x25519_shared(b, e@);
                        &&& shared is Some
                        &&& x25519_kek(e@, u@, shared->0) is Some
                        &&& key_unwrapped(x25519_kek(e@, u@, shared->0)->0, c@->X25519_key)
                            == Some(sk@)
                    }
            },
            Err(x) => x@ is Backend && (x25519_wrapped(u@, sk@, scalar@, e@) is None || (e@ + u@
                + x25519_shared(scalar@, u@)->0).len() > MAX_LEN),
        },
{
    let secret = match x25519_derive(scalar, u.as_slice()) {
        Ok(secret) => secret,
        Err(_) => return Err(Error::Backend),
    };
    let mut ikm = to_vec(e.as_slice());
    extend(&mut ikm, u.as_slice());
    extend(&mut ikm, secret.as_slice());
    assert(ikm@ =~= e@ + u@ + secret@);
    if ikm.len() > MAX_LEN {
        return Err(Error::Backend);
    }
    let none: Vec<u8> = Vec::new();
    assert(none@ =~= Seq::<u8>::empty());
    let info = "OpenPGP X25519".as_bytes();
    proof {
        reveal_strlit("OpenPGP X25519");
        assert(vstd::string::is_ascii("OpenPGP X25519"));
        vstd::string::is_ascii_spec_bytes("OpenPGP X25519");
    }
    let kek = match hkdf_sha256(ikm.as_slice(), none.as_slice(), info, 16) {
        Ok(kek) => kek,
        Err(_) => return Err(Error::Backend),
    };
    x25519_wrap(kek.as_slice(), e, sk)
}

/// Encrypts on Curve25519, given an ephemeral key.
pub fn cv25519_encrypt(key: &Key, q: &Vec<u8>, payload: &[u8], scalar: &[u8], e: Vec<u8>) -> (r: Result<
    Ciphertext,
>)
    requires
        payload@.len() < ecdh::PADDED_LEN,
    ensures
        !is_native_point(q@) ==> r is Err && r->Err_0@ == invalid_cv25519(),
        is_native_point(q@) ==> match r {
            Ok(c) => {
                &&& c@ is ECDH
                &&& c@->ECDH_e == native_point(e@)
                &&& ecdh::kek_error(key@.mpis) is None
                &&& x25519_shared(scalar@, q@.skip(1)) is Some
                &&& ecdh::wrapped(key@, payload@, x25519_shared(scalar@, q@.skip(1))->0) == Some(
                    c@->ECDH_key,
                )
                &&& c@->ECDH_key.len() == ecdh::PADDED_LEN + 8
                &&& forall|b: Seq<u8>|
                    e@ == x25519_public(scalar@) && q@ == native_point(
                        #[trigger] x25519_public(b),
                    ) && b.len() == 32 ==> {
                        let shared = x25519_shared(b, e@);
                        &&& shared is Some
                        &&& ecdh::unwrapped(key@, shared->0, c@->ECDH_key, None) == Ok::<
                            Seq<u8>,
                            ErrorView,
                        >(payload@)
                    }
            },
            Err(x) => match x25519_shared(scalar@, q@.skip(1)) {
                None => x@ is Backend,
                Some(secret) => ecdh::wrap_fails(key@, payload@, secret, x@),
            },
        },
{
    if q.len() != 33 || q[0] != 0x40 {
        return Err(Error::InvalidArgument("Invalid Curve25519 public key".to_string()));
    }
    let u = copy_range(q.as_slice(), 1, q.len());
    assert(u@ =~= q@.skip(1));
    let secret = match x25519_derive(scalar, u.as_slice()) {
        Ok(secret) => secret,
        Err(_) => return Err(Error::Backend),
    };
    let mut point: Vec<u8> = vec![0x40];
    extend(&mut point, e.as_slice());
    proof {
        assert(point@ =~= native_point(e@));
        assert forall|b: Seq<u8>| q@ == native_point(#[trigger] x25519_public(b)) implies u@
            == x25519_public(b) by {
            assert(u@ =~= native_point(x25519_public(b)).skip(1));
            assert(native_point(x25519_public(b)).skip(1) =~= x25519_public(b));
        }
    }
    ecdh::encrypt_wrap(key, payload, point, secret.as_slice())
}

/// Encrypts a session key for the holder of a secret key.
pub fn encrypt_for(key: &Key, algo: Option<SymmetricAlgorithm>, sk: &[u8]) -> (r: Result<
    Ciphertext,
>)
    requires
        sk@.len() <= 32,
    ensures
        match r {
            Ok(c) => encrypted_for(key@, algo, sk@, c@),
            Err(e) => pk_error(key@, e@),
        },
{
    match key.mpis() {
        PublicKey::RSA { e, n } => {
            let plain = make_payload(algo, sk);
            if n.len() > MAX_RSA_LEN || e.len() > MAX_RSA_LEN {
                return Err(Error::TooLarge);
            }
            match rsa_encrypt(n.as_slice(), e.as_slice(), plain.as_slice()) {
                Ok(c) => Ok(Ciphertext::RSA { c }),
                Err(_) => Err(Error::Backend),
            }
        },
        PublicKey::X25519 { u } => match x25519_generate() {
            Ok((scalar, e)) => x25519_encrypt(u, sk, scalar.as_slice(), e),
            Err(_) => Err(Error::Backend),
        },
        PublicKey::ECDH { curve, q, .. } => {
            let plain = make_payload(algo, sk);
            if ecdh::is_cv25519(curve) {
                match x25519_generate() {
                    Ok((scalar, e)) => {
                        let r = cv25519_encrypt(key, q, plain.as_slice(), scalar.as_slice(), e);
                        proof {
                            if r is Ok {
                                assert(native_point(e@).skip(1) =~= e@);
                            }
                        }
                        r
                    },
                    Err(_) => Err(Error::Backend),
                }
            } else {
                ecdh::encrypt(key, plain.as_slice())
            }
        },
        PublicKey::Other { algo } => Err(Error::UnsupportedPublicKeyAlgorithm(*algo)),
    }
}

} // verus!
