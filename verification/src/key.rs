//! Keys, as far as messages are made for or by them.

use vstd::arithmetic::power::pow;
use vstd::prelude::*;

use crate::bytes::{be16, copy_range, extend, push_be16, to_vec};
use crate::error::{Error, ErrorView, Result};
use crate::types::{Curve, HashAlgorithm, PublicKeyAlgorithm, SymmetricAlgorithm};

verus! {

/// A number without leading zero octets.
pub open spec fn strip_zeros(s: Seq<u8>) -> Seq<u8>
    decreases s.len(),
{
    if s.len() > 0 && s[0] == 0 {
        strip_zeros(s.skip(1))
    } else {
        s
    }
}

/// The number that octets in network order stand for.
pub open spec fn number(s: Seq<u8>) -> nat
    decreases s.len(),
{
    if s.len() == 0 {
        0
    } else {
        number(s.drop_last()) * 256 + s.last() as nat
    }
}

/// A leading zero octet does not count.
proof fn lemma_number_zero(s: Seq<u8>)
    requires
        s.len() > 0,
        s[0] == 0,
    ensures
        number(s) == number(s.skip(1)),
    decreases s.len(),
{
    if s.len() == 1 {
        assert(s.drop_last() =~= Seq::<u8>::empty());
        assert(s.skip(1) =~= Seq::<u8>::empty());
    } else {
        lemma_number_zero(s.drop_last());
        assert(s.drop_last().skip(1) =~= s.skip(1).drop_last());
    }
}

/// Leading zero octets do not count.
pub proof fn lemma_number_stripped(s: Seq<u8>)
    ensures
        number(strip_zeros(s)) == number(s),
        strip_zeros(s).len() > 0 ==> strip_zeros(s)[0] != 0,
    decreases s.len(),
{
    if s.len() > 0 && s[0] == 0 {
        lemma_number_zero(s);
        lemma_number_stripped(s.skip(1));
    }
}

/// The first octet and the length bound a number.
pub proof fn lemma_number_bounds(s: Seq<u8>)
    requires
        s.len() > 0,
    ensures
        s[0] == 0 ==> number(s) < pow(256, (s.len() - 1) as nat),
        s[0] != 0 ==> number(s) >= pow(256, (s.len() - 1) as nat),
    decreases s.len(),
{
    reveal(pow);
    if s.len() == 1 {
        assert(s.drop_last() =~= Seq::<u8>::empty());
        assert(number(s.drop_last()) == 0);
        assert(pow(256, 0) == 1);
    } else {
        lemma_number_bounds(s.drop_last());
        assert(pow(256, (s.len() - 1) as nat) == 256 * pow(256, (s.len() - 2) as nat));
    }
}

/// The number of significant bits of an octet.
pub open spec fn octet_bits(b: u8) -> int {
    if b >= 128 {
        8
    } else if b >= 64 {
        7
    } else if b >= 32 {
        6
    } else if b >= 16 {
        5
    } else if b >= 8 {
        4
    } else if b >= 4 {
        3
    } else if b >= 2 {
        2
    } else if b >= 1 {
        1
    } else {
        0
    }
}

/// The number of significant bits of a number.
pub open spec fn bits(s: Seq<u8>) -> int {
    if s.len() == 0 {
        0
    } else {
        (s.len() - 1) * 8 + octet_bits(s[0])
    }
}

/// A number as a multiprecision integer.
pub open spec fn mpi(s: Seq<u8>) -> Seq<u8> {
    be16(bits(strip_zeros(s))) + strip_zeros(s)
}

/// Several numbers as multiprecision integers.
pub open spec fn mpis(values: Seq<Seq<u8>>) -> Seq<u8>
    decreases values.len(),
{
    if values.len() == 0 {
        Seq::empty()
    } else {
        mpis(values.drop_last()) + mpi(values.last())
    }
}

/// Whether a number fits into a multiprecision integer.
pub open spec fn mpi_fits(s: Seq<u8>) -> bool {
    bits(strip_zeros(s)) <= u16::MAX
}

fn octet_bit_count(b: u8) -> (r: usize)
    ensures
        r == octet_bits(b),
        r <= 8,
{
    if b >= 128 {
        8
    } else if b >= 64 {
        7
    } else if b >= 32 {
        6
    } else if b >= 16 {
        5
    } else if b >= 8 {
        4
    } else if b >= 4 {
        3
    } else if b >= 2 {
        2
    } else if b >= 1 {
        1
    } else {
        0
    }
}

/// Appends a number as a multiprecision integer.
pub fn push_mpi(out: &mut Vec<u8>, s: &[u8]) -> (r: Result<()>)
    ensures
        match r {
            Ok(_) => mpi_fits(s@) && final(out)@ == old(out)@ + mpi(s@),
            Err(e) => !mpi_fits(s@) && e@ == ErrorView::TooLarge,
        },
{
    let mut i: usize = 0;
    proof {
        assert(s@.skip(0) =~= s@);
    }
    while i < s.len() && s[i] == 0
        invariant
            i <= s@.len(),
            strip_zeros(s@.skip(i as int)) == strip_zeros(s@),
        decreases s@.len() - i,
    {
        assert(s@.skip(i as int).skip(1) =~= s@.skip(i + 1));
        i = i + 1;
    }
    let v = copy_range(s, i, s.len());
    assert(v@ =~= s@.skip(i as int));
    assert(strip_zeros(s@) == v@);
    if v.len() > 8192 {
        return Err(Error::TooLarge);
    }
    let n: usize = if v.len() == 0 {
        0
    } else {
        (v.len() - 1) * 8 + octet_bit_count(v[0])
    };
    if n > 65535 {
        return Err(Error::TooLarge);
    }
    push_be16(out, n as u16);
    extend(out, v.as_slice());
    assert(out@ =~= old(out)@ + mpi(s@));
    Ok(())
}

/// A fingerprint: the version of the key that it identifies, and its
/// octets.
#[verifier::ext_equal]
pub struct FingerprintView {
    pub version: u8,
    pub octets: Seq<u8>,
}

impl FingerprintView {
    /// The key ID that belongs to the fingerprint.
    pub open spec fn keyid(self) -> Seq<u8> {
        if self.version == 4 {
            self.octets.skip(12)
        } else if self.version == 6 {
            self.octets.take(8)
        } else {
            self.octets
        }
    }
}

/// A fingerprint.
#[derive(Debug)]
pub enum Fingerprint {
    /// Of a version 4 key.
    V4([u8; 20]),
    /// Of a version 6 key.
    V6([u8; 32]),
    /// Of a key of another version.
    Unknown {
        /// The version, which is neither 4 nor 6.
        version: u8,
        octets: Vec<u8>,
    },
}

impl View for Fingerprint {
    type V = FingerprintView;

    open spec fn view(&self) -> FingerprintView {
        match self {
            Fingerprint::V4(a) => FingerprintView { version: 4, octets: a@ },
            Fingerprint::V6(a) => FingerprintView { version: 6, octets: a@ },
            Fingerprint::Unknown { version, octets } => FingerprintView {
                version: if *version == 4 || *version == 6 {
                    0
                } else {
                    *version
                },
                octets: octets@,
            },
        }
    }
}

impl Fingerprint {
    /// Returns the version of the key.
    pub fn version(&self) -> (r: u8)
        ensures
            r == self@.version,
    {
        match self {
            Fingerprint::V4(_) => 4,
            Fingerprint::V6(_) => 6,
            Fingerprint::Unknown { version, .. } => if *version == 4 || *version == 6 {
                0
            } else {
                *version
            },
        }
    }

    /// Returns the octets of the fingerprint.
    pub fn as_bytes(&self) -> (r: &[u8])
        ensures
            r@ == self@.octets,
            self@.version == 4 ==> r@.len() == 20,
            self@.version == 6 ==> r@.len() == 32,
    {
        match self {
            Fingerprint::V4(a) => a.as_slice(),
            Fingerprint::V6(a) => a.as_slice(),
            Fingerprint::Unknown { octets, .. } => octets.as_slice(),
        }
    }

    /// Copies the fingerprint.
    pub fn duplicate(&self) -> (r: Fingerprint)
        ensures
            r@ == self@,
    {
        match self {
            Fingerprint::V4(a) => Fingerprint::V4(*a),
            Fingerprint::V6(a) => Fingerprint::V6(*a),
            Fingerprint::Unknown { version, octets } => Fingerprint::Unknown {
                version: *version,
                octets: to_vec(octets.as_slice()),
            },
        }
    }

    /// Returns the key ID that belongs to the fingerprint.
    pub fn keyid(&self) -> (r: KeyID)
        ensures
            r@ == self@.keyid(),
    {
        let octets = self.as_bytes();
        let version = self.version();
        if version == 4 {
            let id = copy_range(octets, 12, octets.len());
            assert(id@ =~= self@.keyid());
            KeyID(id)
        } else if version == 6 {
            let id = copy_range(octets, 0, 8);
            assert(id@ =~= self@.keyid());
            KeyID(id)
        } else {
            KeyID(to_vec(octets))
        }
    }
}

/// A key ID.
#[derive(Debug)]
pub struct KeyID(pub Vec<u8>);

impl View for KeyID {
    type V = Seq<u8>;

    open spec fn view(&self) -> Seq<u8> {
        self.0@
    }
}

/// What a key is referred to by.
#[verifier::ext_equal]
pub enum KeyHandleView {
    Fingerprint(FingerprintView),
    KeyID(Seq<u8>),
}

/// What a key is referred to by.
#[derive(Debug)]
pub enum KeyHandle {
    Fingerprint(Fingerprint),
    KeyID(KeyID),
}

impl View for KeyHandle {
    type V = KeyHandleView;

    open spec fn view(&self) -> KeyHandleView {
        match self {
            KeyHandle::Fingerprint(fp) => KeyHandleView::Fingerprint(fp@),
            KeyHandle::KeyID(id) => KeyHandleView::KeyID(id@),
        }
    }
}

impl KeyHandle {
    /// Copies the handle.
    pub fn duplicate(&self) -> (r: KeyHandle)
        ensures
            r@ == self@,
    {
        match self {
            KeyHandle::Fingerprint(fp) => KeyHandle::Fingerprint(fp.duplicate()),
            KeyHandle::KeyID(id) => KeyHandle::KeyID(KeyID(to_vec(id.0.as_slice()))),
        }
    }
}

/// Public key material.
#[verifier::ext_equal]
pub enum PublicKeyView {
    RSA { e: Seq<u8>, n: Seq<u8> },
    X25519 { u: Seq<u8> },
    ECDH {
        curve: Seq<u8>,
        /// Whether the curve is known to be Curve25519.
        cv25519: bool,
        nid: Option<int>,
        q: Seq<u8>,
        hash: HashAlgorithm,
        sym: SymmetricAlgorithm,
    },
    Other { algo: PublicKeyAlgorithm },
}

/// Public key material.
#[derive(Debug)]
pub enum PublicKey {
    /// RSA.
    RSA {
        /// The public exponent.
        e: Vec<u8>,
        /// The public modulus.
        n: Vec<u8>,
    },
    /// X25519.
    X25519 {
        /// The public key.
        u: Vec<u8>,
    },
    /// Elliptic curve Diffie-Hellman.
    ECDH {
        curve: Curve,
        /// The public point.
        q: Vec<u8>,
        /// The algorithm of the key derivation function.
        hash: HashAlgorithm,
        /// The algorithm of the key encryption key.
        sym: SymmetricAlgorithm,
    },
    /// Of another algorithm, whose numbers are not looked at here.
    Other { algo: PublicKeyAlgorithm },
}

impl View for PublicKey {
    type V = PublicKeyView;

    open spec fn view(&self) -> PublicKeyView {
        match self {
            PublicKey::RSA { e, n } => PublicKeyView::RSA { e: e@, n: n@ },
            PublicKey::X25519 { u } => PublicKeyView::X25519 { u: u@ },
            PublicKey::ECDH { curve, q, hash, sym } => PublicKeyView::ECDH {
                curve: curve@,
                cv25519: curve is Cv25519,
                nid: curve.spec_nid(),
                q: q@,
                hash: *hash,
                sym: *sym,
            },
            PublicKey::Other { algo } => PublicKeyView::Other { algo: *algo },
        }
    }
}

impl PublicKeyView {
    /// The algorithm of the key.
    pub open spec fn algo(self) -> PublicKeyAlgorithm {
        match self {
            PublicKeyView::RSA { .. } => PublicKeyAlgorithm::RSAEncryptSign,
            PublicKeyView::X25519 { .. } => PublicKeyAlgorithm::X25519,
            PublicKeyView::ECDH { .. } => PublicKeyAlgorithm::ECDH,
            PublicKeyView::Other { algo } => algo,
        }
    }
}

/// Secret key material.
#[derive(Debug)]
pub enum SecretKeyMaterial {
    /// Elliptic curve Diffie-Hellman.
    ECDH { scalar: Vec<u8> },
    /// Of another algorithm, whose numbers are not looked at here.
    Other { algo: PublicKeyAlgorithm },
}

/// An encrypted session key.
#[verifier::ext_equal]
pub enum CiphertextView {
    RSA { c: Seq<u8> },
    X25519 { e: Seq<u8>, key: Seq<u8> },
    ECDH { e: Seq<u8>, key: Seq<u8> },
}

/// An encrypted session key.
#[derive(Debug)]
pub enum Ciphertext {
    /// RSA.
    RSA { c: Vec<u8> },
    /// X25519.
    X25519 {
        /// The ephemeral public key.
        e: Vec<u8>,
        /// The wrapped session key.
        key: Vec<u8>,
    },
    /// Elliptic curve Diffie-Hellman.
    ECDH {
        /// The ephemeral public point.
        e: Vec<u8>,
        /// The wrapped session key.
        key: Vec<u8>,
    },
}

impl View for Ciphertext {
    type V = CiphertextView;

    open spec fn view(&self) -> CiphertextView {
        match self {
            Ciphertext::RSA { c } => CiphertextView::RSA { c: c@ },
            Ciphertext::X25519 { e, key } => CiphertextView::X25519 { e: e@, key: key@ },
            Ciphertext::ECDH { e, key } => CiphertextView::ECDH { e: e@, key: key@ },
        }
    }
}

/// A key.
#[verifier::ext_equal]
pub struct KeyView {
    pub fingerprint: FingerprintView,
    pub mpis: PublicKeyView,
}

/// A key.
#[derive(Debug)]
pub struct Key {
    fingerprint: Fingerprint,
    mpis: PublicKey,
}

impl View for Key {
    type V = KeyView;

    closed spec fn view(&self) -> KeyView {
        KeyView { fingerprint: self.fingerprint@, mpis: self.mpis@ }
    }
}

impl Key {
    /// Creates a key.
    pub fn new(fingerprint: Fingerprint, mpis: PublicKey) -> (r: Key)
        ensures
            r@ == (KeyView { fingerprint: fingerprint@, mpis: mpis@ }),
    {
        Key { fingerprint, mpis }
    }

    /// Returns the version of the key.
    pub fn version(&self) -> (r: u8)
        ensures
            r == self@.fingerprint.version,
    {
        self.fingerprint.version()
    }

    /// Returns the fingerprint of the key.
    pub fn fingerprint(&self) -> (r: &Fingerprint)
        ensures
            r@ == self@.fingerprint,
    {
        &self.fingerprint
    }

    /// Returns the key ID of the key.
    pub fn keyid(&self) -> (r: KeyID)
        ensures
            r@ == self@.fingerprint.keyid(),
    {
        self.fingerprint.keyid()
    }

    /// Returns the public key material.
    pub fn mpis(&self) -> (r: &PublicKey)
        ensures
            r@ == self@.mpis,
    {
        &self.mpis
    }

    /// Returns the algorithm of the key.
    pub fn pk_algo(&self) -> (r: PublicKeyAlgorithm)
        ensures
            r == self@.mpis.algo(),
    {
        match &self.mpis {
            PublicKey::RSA { .. } => PublicKeyAlgorithm::RSAEncryptSign,
            PublicKey::X25519 { .. } => PublicKeyAlgorithm::X25519,
            PublicKey::ECDH { .. } => PublicKeyAlgorithm::ECDH,
            PublicKey::Other { algo } => *algo,
        }
    }
}

} // verus!
