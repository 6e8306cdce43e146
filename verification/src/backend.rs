//! What this crate has from OpenSSL, from the compression libraries and
//! from the clock.
//!
//! Every function here hands its arguments to the outside function that its
//! comment names.  Its contract is taken on trust.

use vstd::prelude::*;

use openssl::error::ErrorStack;
use openssl::hash::Hasher;
use openssl::symm::Crypter;
use crate::key::{number, strip_zeros};

verus! {

#[verifier::external_type_specification]
#[verifier::external_body]
pub struct ExErrorStack(openssl::error::ErrorStack);

#[verifier::external_type_specification]
#[verifier::external_body]
pub struct ExHasher(openssl::hash::Hasher);

#[verifier::external_type_specification]
#[verifier::external_body]
pub struct ExCrypter(openssl::symm::Crypter);

#[verifier::external_type_specification]
#[verifier::external_body]
pub struct ExDeflater(flate2::Compress);

#[verifier::external_type_specification]
#[verifier::external_body]
pub struct ExBzipper(bzip2::Compress);

/// The longest input that most functions of OpenSSL take.
pub const MAX_LEN: usize = 0x7FFF_FFFF;

/// The message digest of `data` under the algorithm that OpenSSL numbers
/// `nid`.
pub uninterp spec fn digest(nid: int, data: Seq<u8>) -> Seq<u8>;

/// The algorithm that a hasher computes.
pub uninterp spec fn hasher_nid(h: openssl::hash::Hasher) -> int;

/// What a hasher has been given since it was made or last finished.
pub uninterp spec fn hasher_data(h: openssl::hash::Hasher) -> Seq<u8>;

/// The length of the digests of the algorithm that OpenSSL numbers `nid`.
pub open spec fn digest_size(nid: int) -> nat {
    if nid == 4 {
        16
    } else if nid == 64 || nid == 117 {
        20
    } else if nid == 675 {
        28
    } else if nid == 672 || nid == 1097 {
        32
    } else if nid == 673 {
        48
    } else {
        64
    }
}

/// Whether `nid` is one of the digests whose length [`digest_size`] gives.
pub open spec fn is_digest(nid: int) -> bool {
    nid == 4 || nid == 64 || nid == 117 || nid == 672 || nid == 673 || nid == 674 || nid == 675
        || nid == 1097 || nid == 1099
}

/// `openssl::hash::Hasher::new`, on the algorithm that
/// `MessageDigest::from_nid` finds: a hasher of that algorithm that has been
/// given nothing.  There is none if OpenSSL does not have the algorithm.
#[verifier::external_body]
pub(crate) fn hasher_new(nid: i32) -> (r: Option<Hasher>)
    ensures
        r matches Some(h) ==> hasher_nid(h) == nid && hasher_data(h) == Seq::<u8>::empty(),
{
    openssl::hash::MessageDigest::from_nid(openssl::nid::Nid::from_raw(nid)).and_then(
        |md| Hasher::new(md).ok(),
    )
}

/// `openssl::hash::Hasher::update`: the data is appended to what the hasher
/// has been given.
#[verifier::external_body]
pub(crate) fn hasher_update(h: &mut Hasher, data: &[u8]) -> (r: Result<(), ErrorStack>)
    ensures
        hasher_nid(*final(h)) == hasher_nid(*old(h)),
        r is Ok ==> hasher_data(*final(h)) == hasher_data(*old(h)) + data@,
{
    h.update(data)
}

/// `openssl::hash::Hasher::clone`: a hasher of the same algorithm that has
/// been given the same data.
#[verifier::external_body]
pub(crate) fn hasher_clone(h: &Hasher) -> (r: Hasher)
    ensures
        hasher_nid(r) == hasher_nid(*h),
        hasher_data(r) == hasher_data(*h),
{
    h.clone()
}

/// `openssl::hash::Hasher::finish`: the digest of what the hasher has been
/// given, with the length that the algorithm fixes.
#[verifier::external_body]
pub(crate) fn hasher_finish(h: &mut Hasher) -> (r: Result<Vec<u8>, ErrorStack>)
    ensures
        r matches Ok(d) ==> d@ == digest(hasher_nid(*old(h)), hasher_data(*old(h))),
        r matches Ok(d) ==> is_digest(hasher_nid(*old(h))) ==> d@.len() == digest_size(
            hasher_nid(*old(h)),
        ),
{
    h.finish().map(|d| d.to_vec())
}

/// `openssl::rand::rand_bytes`: some octets, of which nothing but their
/// number is known.
#[verifier::external_body]
pub(crate) fn random_bytes(len: usize) -> (r: Result<Vec<u8>, ErrorStack>)
    requires
        len <= 0x7FFF_FFFF,
    ensures
        r matches Ok(b) ==> b@.len() == len,
{
    let mut buf = vec![0; len];
    openssl::rand::rand_bytes(&mut buf).map(|_| buf)
}

/// The encryption of `data` in cipher feedback mode, under the cipher that
/// OpenSSL numbers `nid`.
pub uninterp spec fn cfb(nid: int, key: Seq<u8>, iv: Seq<u8>, data: Seq<u8>) -> Seq<u8>;

/// What `openssl::symm::decrypt` gets out of data that was encrypted in
/// cipher feedback mode.
pub uninterp spec fn cfb_opened(nid: int, key: Seq<u8>, iv: Seq<u8>, data: Seq<u8>) -> Seq<u8>;

/// The cipher, the key and the initialization vector of a crypter.
pub uninterp spec fn crypter_setup(c: openssl::symm::Crypter) -> (int, Seq<u8>, Seq<u8>);

/// What a crypter has been given.
pub uninterp spec fn crypter_data(c: openssl::symm::Crypter) -> Seq<u8>;

/// The length of the keys of a cipher in cipher feedback mode.
pub open spec fn cfb_key_size(nid: int) -> nat {
    if nid == 61 || nid == 425 || nid == 758 {
        24
    } else if nid == 429 || nid == 759 {
        32
    } else {
        16
    }
}

/// The length of the initialization vectors of a cipher in cipher feedback
/// mode.
pub open spec fn cfb_iv_size(nid: int) -> nat {
    if nid == 35 || nid == 61 || nid == 93 || nid == 110 {
        8
    } else {
        16
    }
}

/// Whether `nid` is one of the ciphers in cipher feedback mode whose sizes
/// are given above.
pub open spec fn is_cfb(nid: int) -> bool {
    nid == 35 || nid == 61 || nid == 93 || nid == 110 || nid == 421 || nid == 425 || nid == 429
        || nid == 757 || nid == 758 || nid == 759
}

/// What a crypter has sent out: the encryption of what it has been given.
pub open spec fn crypter_sent(c: openssl::symm::Crypter) -> Seq<u8> {
    cfb(crypter_setup(c).0, crypter_setup(c).1, crypter_setup(c).2, crypter_data(c))
}

/// `openssl::symm::Crypter::new` for encryption, on the cipher that
/// `Cipher::from_nid` finds: a crypter that has been given nothing and has
/// sent out nothing, which is decrypted to nothing.  There is none if OpenSSL
/// does not have the cipher.
#[verifier::external_body]
pub(crate) fn crypter_new(nid: i32, key: &[u8], iv: &[u8]) -> (r: Option<Crypter>)
    requires
        is_cfb(nid as int),
        key@.len() == cfb_key_size(nid as int),
        iv@.len() == cfb_iv_size(nid as int),
    ensures
        r matches Some(c) ==> crypter_setup(c) == (nid as int, key@, iv@) && crypter_data(c)
            == Seq::<u8>::empty() && crypter_sent(c) == Seq::<u8>::empty(),
        r matches Some(c) ==> cfb_opened(nid as int, key@, iv@, crypter_sent(c))
            == Seq::<u8>::empty(),
{
    openssl::symm::Cipher::from_nid(openssl::nid::Nid::from_raw(nid)).and_then(
        |cipher| Crypter::new(cipher, openssl::symm::Mode::Encrypt, key, Some(iv)).ok(),
    )
}

/// `openssl::symm::Crypter::update`, on a cipher in cipher feedback mode:
/// as many octets come out as are given, all that has come out is the
/// encryption of all that was given, and is decrypted to it, and it starts
/// with the encryption of whatever was given first.
#[verifier::external_body]
pub(crate) fn crypter_update(c: &mut Crypter, data: &[u8]) -> (r: Result<Vec<u8>, ErrorStack>)
    requires
        is_cfb(crypter_setup(*old(c)).0),
        data@.len() <= 0x4000_0000,
    ensures
        crypter_setup(*final(c)) == crypter_setup(*old(c)),
        r matches Ok(out) ==> crypter_data(*final(c)) == crypter_data(*old(c)) + data@,
        r matches Ok(out) ==> crypter_sent(*old(c)) + out@ == cfb(
            crypter_setup(*old(c)).0,
            crypter_setup(*old(c)).1,
            crypter_setup(*old(c)).2,
            crypter_data(*old(c)) + data@,
        ),
        r matches Ok(out) ==> cfb_opened(
            crypter_setup(*old(c)).0,
            crypter_setup(*old(c)).1,
            crypter_setup(*old(c)).2,
            crypter_sent(*old(c)) + out@,
        ) == crypter_data(*old(c)) + data@,
        r matches Ok(out) ==> out@.len() == data@.len(),
        r matches Ok(out) ==> forall|n: int|
            0 <= n <= (crypter_data(*old(c)) + data@).len() ==> #[trigger] cfb(
                crypter_setup(*old(c)).0,
                crypter_setup(*old(c)).1,
                crypter_setup(*old(c)).2,
                (crypter_data(*old(c)) + data@).take(n),
            ) == (crypter_sent(*old(c)) + out@).take(n),
{
    let mut out = vec![0; data.len()];
    c.update(data, &mut out).map(|n| { out.truncate(n); out })
}

/// The authenticated encryption of `data`, with its tag of sixteen octets,
/// under the cipher that OpenSSL numbers `nid`.
pub uninterp spec fn sealed(
    nid: int,
    key: Seq<u8>,
    nonce: Seq<u8>,
    aad: Seq<u8>,
    data: Seq<u8>,
) -> Seq<u8>;

/// What `openssl::symm::decrypt_aead` gets out of authenticated data with its
/// tag, if the data is intact.
pub uninterp spec fn unsealed(
    nid: int,
    key: Seq<u8>,
    nonce: Seq<u8>,
    aad: Seq<u8>,
    data: Seq<u8>,
) -> Option<Seq<u8>>;

/// The length of the keys of an authenticated cipher.
pub open spec fn aead_key_size(nid: int) -> nat {
    if nid == 895 || nid == 958 {
        16
    } else if nid == 898 || nid == 959 {
        24
    } else {
        32
    }
}

/// The length of the nonces that an authenticated cipher is used with.
pub open spec fn aead_nonce_size(nid: int) -> nat {
    if nid == 958 || nid == 959 || nid == 960 {
        15
    } else {
        12
    }
}

/// Whether `nid` is one of the authenticated ciphers whose sizes are given
/// above.
pub open spec fn is_aead(nid: int) -> bool {
    nid == 895 || nid == 898 || nid == 901 || nid == 958 || nid == 959 || nid == 960
}

/// `openssl::symm::encrypt_aead`, on the cipher that `Cipher::from_nid`
/// finds and with a tag of sixteen octets: the ciphertext, which is as long
/// as the data, and the tag.  `decrypt_aead` gets the data out of them, and
/// refuses the ciphertext with any other tag.
#[verifier::external_body]
pub(crate) fn seal(nid: i32, key: &[u8], nonce: &[u8], aad: &[u8], data: &[u8]) -> (r: Option<
    Vec<u8>,
>)
    requires
        is_aead(nid as int),
        key@.len() == aead_key_size(nid as int),
        nonce@.len() == aead_nonce_size(nid as int),
        aad@.len() <= 0x4000_0000,
        data@.len() <= 0x4000_0000,
    ensures
        r matches Some(out) ==> out@ == sealed(nid as int, key@, nonce@, aad@, data@),
        r matches Some(out) ==> unsealed(nid as int, key@, nonce@, aad@, out@) == Some(data@),
        r matches Some(out) ==> out@.len() == data@.len() + 16,
        r matches Some(out) ==> forall|other: Seq<u8>|
            other.len() == out@.len() && other.take(data@.len() as int) == out@.take(
                data@.len() as int,
            ) && other != out@ ==> #[trigger] unsealed(nid as int, key@, nonce@, aad@, other)
                is None,
{
    let mut tag = [0u8; 16];
    let cipher = openssl::symm::Cipher::from_nid(openssl::nid::Nid::from_raw(nid))?;
    let out = openssl::symm::encrypt_aead(cipher, key, Some(nonce), aad, data, &mut tag);
    out.ok().map(|mut out| { out.extend_from_slice(&tag); out })
}

/// HKDF with SHA-256, to `len` octets, if that can be computed.
pub uninterp spec fn hkdf(ikm: Seq<u8>, salt: Seq<u8>, info: Seq<u8>, len: int) -> Option<Seq<u8>>;

/// `openssl::pkey_ctx::PkeyCtxRef::derive` for HKDF with SHA-256: as many
/// octets as were asked for.
#[verifier::external_body]
pub(crate) fn hkdf_sha256(ikm: &[u8], salt: &[u8], info: &[u8], len: usize) -> (r: Result<
    Vec<u8>,
    ErrorStack,
>)
    requires
        ikm@.len() <= MAX_LEN,
        salt@.len() <= MAX_LEN,
        info@.len() <= 0x400,
        0 < len <= 8160,
    ensures
        match r {
            Ok(out) => hkdf(ikm@, salt@, info@, len as int) == Some(out@),
            Err(_) => hkdf(ikm@, salt@, info@, len as int) is None,
        },
        r matches Ok(out) ==> out@.len() == len,
{
    let mut ctx = openssl::pkey_ctx::PkeyCtx::new_id(openssl::pkey::Id::HKDF)?;
    ctx.derive_init()?;
    ctx.set_hkdf_md(openssl::md::Md::sha256())?;
    ctx.set_hkdf_key(ikm)?;
    ctx.set_hkdf_salt(salt)?;
    ctx.add_hkdf_info(info)?;
    let mut out = vec![0; len];
    ctx.derive(Some(&mut out)).map(|n| { out.truncate(n); out })
}

/// The AES key wrap of `data` under `kek`, if it can be wrapped.
pub uninterp spec fn key_wrapped(kek: Seq<u8>, data: Seq<u8>) -> Option<Seq<u8>>;

/// What a wrapped key holds, if it is intact.
pub uninterp spec fn key_unwrapped(kek: Seq<u8>, wrapped: Seq<u8>) -> Option<Seq<u8>>;

/// `openssl::aes::wrap_key` with the default initial value: the wrapped
/// key, out of which `unwrap_key` with the same key gets the data.
#[verifier::external_body]
pub(crate) fn aes_wrap(kek: &[u8], data: &[u8]) -> (r: Option<Vec<u8>>)
    requires
        kek@.len() <= 0x400,
        data@.len() <= 0x4000_0000,
    ensures
        match r {
            Some(w) => key_wrapped(kek@, data@) == Some(w@),
            None => key_wrapped(kek@, data@) is None,
        },
        r matches Some(w) ==> key_unwrapped(kek@, w@) == Some(data@),
        r matches Some(w) ==> w@.len() == data@.len() + 8,
{
    let key = openssl::aes::AesKey::new_encrypt(kek).ok()?;
    let mut out = vec![0; data.len() + 8];
    openssl::aes::wrap_key(&key, None, &mut out, data).ok().map(|n| { out.truncate(n); out })
}

/// `openssl::aes::unwrap_key` with the default initial value: what was
/// wrapped, if the wrapped key is intact.
#[verifier::external_body]
pub(crate) fn aes_unwrap(kek: &[u8], wrapped: &[u8]) -> (r: Option<Vec<u8>>)
    requires
        kek@.len() <= 0x400,
    ensures
        match r {
            Some(d) => key_unwrapped(kek@, wrapped@) == Some(d@),
            None => key_unwrapped(kek@, wrapped@) is None,
        },
{
    let key = openssl::aes::AesKey::new_decrypt(kek).ok()?;
    let mut out = vec![0; wrapped.len()];
    openssl::aes::unwrap_key(&key, None, &mut out, wrapped).ok().map(|n| { out.truncate(n); out })
}

/// Whether a secret scalar and an encoded point are the two halves of one key
/// in the group that OpenSSL numbers `nid`, as `openssl::ec::EcKey::check_key`
/// checks it: the scalar is positive and less than the order of the group, and
/// the point is its multiple of the generator.
pub uninterp spec fn ec_pair(nid: int, scalar: Seq<u8>, point: Seq<u8>) -> bool;

/// The secret that the holder of `scalar`, whose point is `own`, shares with
/// the holder of the point `peer`, if these are a key and a point of the
/// group.
pub uninterp spec fn ec_shared(nid: int, scalar: Seq<u8>, own: Seq<u8>, peer: Seq<u8>) -> Option<
    Seq<u8>,
>;

/// `openssl::ec::EcKey::generate`, in the group that
/// `EcGroup::from_curve_name` finds: a random secret scalar, and the
/// uncompressed point that belongs to it, whose first octet is 4.
#[verifier::external_body]
pub(crate) fn ec_generate(nid: i32) -> (r: Result<(Vec<u8>, Vec<u8>), ErrorStack>)
    ensures
        r matches Ok(pair) ==> ec_pair(nid as int, pair.0@, pair.1@),
        r matches Ok(pair) ==> pair.1@.len() > 0 && pair.1@[0] == 4,
{
    let group = openssl::ec::EcGroup::from_curve_name(openssl::nid::Nid::from_raw(nid))?;
    let key = openssl::ec::EcKey::generate(&group)?;
    let mut ctx = openssl::bn::BigNumContext::new()?;
    let form = openssl::ec::PointConversionForm::UNCOMPRESSED;
    let point = key.public_key().to_bytes(&group, form, &mut ctx)?;
    Ok((key.private_key().to_vec(), point))
}

/// `openssl::derive::Deriver::derive_to_vec`, on a private key made of
/// `scalar` and `own` and with the point `peer`: the shared secret, which the
/// holder of the other half of `peer` derives, too, if both have proper keys.
#[verifier::external_body]
pub(crate) fn ec_derive(nid: i32, scalar: &[u8], own: &[u8], peer: &[u8]) -> (r: Result<
    Vec<u8>,
    ErrorStack,
>)
    requires
        scalar@.len() <= MAX_LEN,
    ensures
        match r {
            Ok(s) => ec_shared(nid as int, scalar@, own@, peer@) == Some(s@),
            Err(_) => ec_shared(nid as int, scalar@, own@, peer@) is None,
        },
        r matches Ok(s) ==> forall|b: Seq<u8>|
            ec_pair(nid as int, scalar@, own@) && #[trigger] ec_pair(nid as int, b, peer@)
                && b.len() <= MAX_LEN ==> ec_shared(nid as int, b, peer@, own@) == Some(s@),
{
    let group = openssl::ec::EcGroup::from_curve_name(openssl::nid::Nid::from_raw(nid))?;
    let mut ctx = openssl::bn::BigNumContext::new()?;
    let peer = openssl::ec::EcPoint::from_bytes(&group, peer, &mut ctx)?;
    let own = openssl::ec::EcPoint::from_bytes(&group, own, &mut ctx)?;
    let scalar = openssl::bn::BigNum::from_slice(scalar)?;
    let key = openssl::ec::EcKey::from_private_components(&group, &scalar, &own)?;
    let key = openssl::pkey::PKey::from_ec_key(key)?;
    let peer = openssl::ec::EcKey::from_public_key(&group, &peer)?;
    let peer = openssl::pkey::PKey::from_ec_key(peer)?;
    let mut deriver = openssl::derive::Deriver::new(&key)?;
    deriver.set_peer(&peer)?;
    deriver.derive_to_vec()
}

/// The X25519 public key that belongs to a secret key.
pub uninterp spec fn x25519_public(scalar: Seq<u8>) -> Seq<u8>;

/// The secret that the holder of an X25519 secret key shares with the holder
/// of the public key `peer`, if these are such keys.
pub uninterp spec fn x25519_shared(scalar: Seq<u8>, peer: Seq<u8>) -> Option<Seq<u8>>;

/// `openssl::pkey::PKey::generate_x25519`: a random secret key, and the
/// public key that belongs to it.
#[verifier::external_body]
pub(crate) fn x25519_generate() -> (r: Result<(Vec<u8>, Vec<u8>), ErrorStack>)
    ensures
        r matches Ok(pair) ==> pair.1@ == x25519_public(pair.0@),
{
    let key = openssl::pkey::PKey::generate_x25519()?;
    Ok((key.raw_private_key()?, key.raw_public_key()?))
}

/// `openssl::derive::Deriver::derive_to_vec` for X25519: the shared secret,
/// which the holder of the secret key of `peer`, which has 32 octets, derives,
/// too.
#[verifier::external_body]
pub(crate) fn x25519_derive(scalar: &[u8], peer: &[u8]) -> (r: Result<Vec<u8>, ErrorStack>)
    ensures
        match r {
            Ok(s) => x25519_shared(scalar@, peer@) == Some(s@),
            Err(_) => x25519_shared(scalar@, peer@) is None,
        },
        r matches Ok(s) ==> forall|b: Seq<u8>|
            peer@ == #[trigger] x25519_public(b) && b.len() == 32 ==> x25519_shared(
                b,
                x25519_public(scalar@),
            ) == Some(s@),
{
    let id = openssl::pkey::Id::X25519;
    let key = openssl::pkey::PKey::private_key_from_raw_bytes(scalar, id)?;
    let peer = openssl::pkey::PKey::public_key_from_raw_bytes(peer, id)?;
    let mut deriver = openssl::derive::Deriver::new(&key)?;
    deriver.set_peer(&peer)?;
    deriver.derive_to_vec()
}

/// The public operation of RSA.
pub open spec fn rsa_public(n: nat, e: nat, m: nat) -> int {
    vstd::arithmetic::power::pow(m as int, e) % (n as int)
}

/// The encoding of a message for RSA by PKCS #1: `padding` holds no zeros.
pub open spec fn pkcs1_encoded(padding: Seq<u8>, data: Seq<u8>) -> Seq<u8> {
    seq![0u8, 2] + padding + seq![0u8] + data
}

/// Whether the octets are fit to be the padding of a message.
pub open spec fn is_pkcs1_padding(padding: Seq<u8>) -> bool {
    padding.len() >= 8 && forall|i: int| 0 <= i < padding.len() ==> padding[i] != 0
}

/// `openssl::rsa::RsaRef::public_encrypt` with the padding of PKCS #1: the
/// public operation on the data, which is encoded with padding that is drawn
/// at random, to the length of the modulus; the result has that length, too.
#[verifier::external_body]
pub(crate) fn rsa_encrypt(n: &[u8], e: &[u8], data: &[u8]) -> (r: Result<Vec<u8>, ErrorStack>)
    requires
        n@.len() <= 0x10_0000,
        e@.len() <= 0x10_0000,
        data@.len() <= 0x10_0000,
    ensures
        r matches Ok(c) ==> exists|padding: Seq<u8>|
            {
                let encoded = #[trigger] pkcs1_encoded(padding, data@);
                &&& is_pkcs1_padding(padding)
                &&& encoded.len() == strip_zeros(n@).len()
                &&& c@.len() == encoded.len()
                &&& number(c@) == rsa_public(number(n@), number(e@), number(encoded))
            },
{
    let n = openssl::bn::BigNum::from_slice(n)?;
    let e = openssl::bn::BigNum::from_slice(e)?;
    let key = openssl::rsa::Rsa::from_public_components(n, e)?;
    let mut out = vec![0; key.size() as usize];
    let len = key.public_encrypt(data, &mut out, openssl::rsa::Padding::PKCS1)?;
    out.truncate(len);
    Ok(out)
}

/// The seconds since the epoch, by `std::time::SystemTime::elapsed` on
/// `UNIX_EPOCH`; nothing if the clock stands before the epoch.
#[verifier::external_body]
pub(crate) fn seconds_since_epoch() -> (r: Option<u64>) {
    std::time::UNIX_EPOCH.elapsed().ok().map(|d| d.as_secs())
}

/// What is handed to a compressor in one call, and whether that is the end.
pub type Call = (Seq<u8>, bool);

/// What a compressor answers to a call: how much it has taken in and put out in
/// all calls, whether it has ended, and what the buffer of the call holds.
pub type Answer = (int, int, bool, Seq<u8>);

/// An answer with its numbers and its buffer taken by their values.
pub open spec fn answer_view(r: Option<(u64, u64, bool, Vec<u8>)>) -> Option<Answer> {
    match r {
        Some(a) => Some((a.0 as int, a.1 as int, a.2, a.3@)),
        None => None,
    }
}

/// The length of the buffer that a compressor puts out what it has to in one
/// call.
pub const COMPRESSOR_ROOM: usize = 0x10_0000;

/// All that was handed to a compressor.
pub open spec fn handed_in(calls: Seq<Call>) -> Seq<u8>
    decreases calls.len(),
{
    if calls.len() == 0 {
        Seq::empty()
    } else {
        handed_in(calls.drop_last()) + calls.last().0
    }
}

/// All that has come out of a compressor, given what had come out before the
/// last call and the answer to that: there is nothing unless all was taken in,
/// and the compressor has ended if and only if it was told to.
pub open spec fn put_out(before: Seq<u8>, calls: Seq<Call>, answer: Option<Answer>) -> Option<
    Seq<u8>,
> {
    match answer {
        Some((taken, sent, ended, buffer)) => if taken == handed_in(calls).len() && ended
            == calls.last().1 && before.len() <= sent <= before.len() + buffer.len() {
            Some(before + buffer.take(sent - before.len()))
        } else {
            None
        },
        None => None,
    }
}

/// Whether a compressor makes the ZLIB format, and its level.
pub uninterp spec fn deflater_setup(c: flate2::Compress) -> (bool, int);

/// What was handed to a compressor.
pub uninterp spec fn deflater_calls(c: flate2::Compress) -> Seq<(Seq<u8>, bool)>;

/// What `flate2::Compress::compress` answers to the last of these calls, in the
/// ZLIB format or not.
pub uninterp spec fn deflate_answer(zlib: bool, level: int, calls: Seq<(Seq<u8>, bool)>) -> Option<
    (int, int, bool, Seq<u8>),
>;

/// All that has come out of a compressor for the DEFLATE algorithm.
pub open spec fn deflated(zlib: bool, level: int, calls: Seq<Call>) -> Option<Seq<u8>>
    decreases calls.len(),
{
    if calls.len() == 0 {
        Some(Seq::empty())
    } else {
        match deflated(zlib, level, calls.drop_last()) {
            Some(before) => put_out(before, calls, deflate_answer(zlib, level, calls)),
            None => None,
        }
    }
}

/// What `flate2::read::DeflateDecoder`, or `flate2::read::ZlibDecoder` for the
/// ZLIB format, gets out of compressed data.
pub uninterp spec fn inflated(zlib: bool, data: Seq<u8>) -> Option<Seq<u8>>;

/// `flate2::Compress::new`: a compressor that was handed nothing.
#[verifier::external_body]
pub(crate) fn deflater_new(zlib: bool, level: u32) -> (r: flate2::Compress)
    requires
        level <= 9,
    ensures
        deflater_setup(r) == (zlib, level as int),
        deflater_calls(r) == Seq::<Call>::empty(),
{
    flate2::Compress::new(flate2::Compression::new(level), zlib)
}

/// `flate2::Compress::compress`, with a buffer of [`COMPRESSOR_ROOM`] octets,
/// and with the totals that the compressor then tells: the answer is determined
/// by all that was handed to the compressor.  What comes out until it ends is
/// decompressed to that.
#[verifier::external_body]
pub(crate) fn deflater_call(c: &mut flate2::Compress, data: &[u8], end: bool) -> (r: Option<
    (u64, u64, bool, Vec<u8>),
>)
    requires
        data@.len() <= 0x10_0000,
    ensures
        deflater_setup(*final(c)) == deflater_setup(*old(c)),
        deflater_calls(*final(c)) == deflater_calls(*old(c)).push((data@, end)),
        deflate_answer(
            deflater_setup(*old(c)).0,
            deflater_setup(*old(c)).1,
            deflater_calls(*old(c)).push((data@, end)),
        ) == answer_view(r),
        r matches Some(a) ==> a.3@.len() == COMPRESSOR_ROOM,
        end ==> (deflated(
            deflater_setup(*old(c)).0,
            deflater_setup(*old(c)).1,
            deflater_calls(*final(c)),
        ) matches Some(out) ==> inflated(deflater_setup(*old(c)).0, out) == Some(
            handed_in(deflater_calls(*final(c))),
        )),
{
    let mut out = vec![0; COMPRESSOR_ROOM];
    let flush = if end { flate2::FlushCompress::Finish } else { flate2::FlushCompress::None };
    let status = c.compress(data, &mut out, flush).ok()?;
    Some((c.total_in(), c.total_out(), status == flate2::Status::StreamEnd, out))
}

/// The level of a compressor.
pub uninterp spec fn bzipper_setup(c: bzip2::Compress) -> int;

/// What was handed to a compressor.
pub uninterp spec fn bzipper_calls(c: bzip2::Compress) -> Seq<(Seq<u8>, bool)>;

/// What `bzip2::Compress::compress` answers to the last of these calls.
pub uninterp spec fn bzip_answer(level: int, calls: Seq<(Seq<u8>, bool)>) -> Option<
    (int, int, bool, Seq<u8>),
>;

/// All that has come out of a compressor for the bzip2 algorithm.
pub open spec fn bzipped(level: int, calls: Seq<Call>) -> Option<Seq<u8>>
    decreases calls.len(),
{
    if calls.len() == 0 {
        Some(Seq::empty())
    } else {
        match bzipped(level, calls.drop_last()) {
            Some(before) => put_out(before, calls, bzip_answer(level, calls)),
            None => None,
        }
    }
}

/// What `bzip2::read::BzDecoder` gets out of compressed data.
pub uninterp spec fn unbzipped(data: Seq<u8>) -> Option<Seq<u8>>;

/// `bzip2::Compress::new`, with the default work factor: a compressor that was
/// handed nothing.
#[verifier::external_body]
pub(crate) fn bzipper_new(level: u32) -> (r: bzip2::Compress)
    requires
        1 <= level <= 9,
    ensures
        bzipper_setup(r) == level,
        bzipper_calls(r) == Seq::<Call>::empty(),
{
    bzip2::Compress::new(bzip2::Compression::new(level), 30)
}

/// `bzip2::Compress::compress`, with a buffer of [`COMPRESSOR_ROOM`] octets, and
/// with the totals that the compressor then tells: the answer is determined by
/// all that was handed to the compressor, which is handed nothing once it has
/// been told to end.  What comes out until it ends is decompressed to that.
#[verifier::external_body]
pub(crate) fn bzipper_call(c: &mut bzip2::Compress, data: &[u8], end: bool) -> (r: Option<
    (u64, u64, bool, Vec<u8>),
>)
    requires
        data@.len() <= 0x10_0000,
        forall|i: int|
            0 <= i < bzipper_calls(*old(c)).len() ==> !(#[trigger] bzipper_calls(*old(c))[i]).1,
    ensures
        bzipper_setup(*final(c)) == bzipper_setup(*old(c)),
        bzipper_calls(*final(c)) == bzipper_calls(*old(c)).push((data@, end)),
        bzip_answer(bzipper_setup(*old(c)), bzipper_calls(*old(c)).push((data@, end)))
            == answer_view(r),
        r matches Some(a) ==> a.3@.len() == COMPRESSOR_ROOM,
        end ==> (bzipped(bzipper_setup(*old(c)), bzipper_calls(*final(c))) matches Some(out)
            ==> unbzipped(out) == Some(handed_in(bzipper_calls(*final(c))))),
{
    let mut out = vec![0; COMPRESSOR_ROOM];
    let action = if end { bzip2::Action::Finish } else { bzip2::Action::Run };
    let status = c.compress(data, &mut out, action).ok()?;
    Some((c.total_in(), c.total_out(), status == bzip2::Status::StreamEnd, out))
}

} // verus!
