//! What makes signatures.

use vstd::prelude::*;

use crate::error::{ErrorView, Result};
use crate::key::{mpi_fits, mpis, push_mpi, Key, KeyView};
use crate::types::HashAlgorithm;

verus! {

/// The numbers of a signature.
#[verifier::ext_equal]
pub enum SignatureView {
    MPIs(Seq<Seq<u8>>),
    Octets(Seq<u8>),
}

impl SignatureView {
    /// The numbers as they stand in a signature packet.
    pub open spec fn octets(self) -> Seq<u8> {
        match self {
            SignatureView::MPIs(values) => mpis(values),
            SignatureView::Octets(s) => s,
        }
    }

    /// Whether the numbers fit into a signature packet.
    pub open spec fn fits(self) -> bool {
        match self {
            SignatureView::MPIs(values) => forall|i: int|
                0 <= i < values.len() ==> #[trigger] mpi_fits(values[i]),
            SignatureView::Octets(_) => true,
        }
    }
}

/// The numbers of a signature.
#[derive(Debug)]
pub enum Signature {
    /// Multiprecision integers, for RSA, DSA, ECDSA and EdDSA.
    MPIs(Vec<Vec<u8>>),
    /// Octets, for Ed25519 and Ed448.
    Octets(Vec<u8>),
}

impl View for Signature {
    type V = SignatureView;

    open spec fn view(&self) -> SignatureView {
        match self {
            Signature::MPIs(v) => SignatureView::MPIs(crate::bytes::views(v@)),
            Signature::Octets(v) => SignatureView::Octets(v@),
        }
    }
}

impl Signature {
    /// Appends the numbers as they stand in a signature packet.
    pub fn serialize(&self, out: &mut Vec<u8>) -> (r: Result<()>)
        ensures
            match r {
                Ok(_) => self@.fits() && final(out)@ == old(out)@ + self@.octets(),
                Err(e) => !self@.fits() && e@ is TooLarge,
            },
    {
        match self {
            Signature::MPIs(v) => {
                let ghost values = crate::bytes::views(v@);
                let ghost before = out@;
                let mut i: usize = 0;
                proof {
                    assert(values.take(0) =~= Seq::<Seq<u8>>::empty());
                    assert(before + mpis(values.take(0)) =~= before);
                }
                while i < v.len()
                    invariant
                        i <= v@.len(),
                        values == crate::bytes::views(v@),
                        self@ == SignatureView::MPIs(values),
                        out@ == before + mpis(values.take(i as int)),
                        forall|j: int| 0 <= j < i ==> #[trigger] mpi_fits(values[j]),
                    decreases v@.len() - i,
                {
                    assert(values[i as int] == v@[i as int]@);
                    match push_mpi(out, v[i].as_slice()) {
                        Ok(()) => (),
                        Err(e) => {
                            assert(self@->MPIs_0 == values);
                            assert(!mpi_fits(self@->MPIs_0[i as int]));
                            return Err(e);
                        },
                    }
                    proof {
                        assert(values.take(i + 1).drop_last() =~= values.take(i as int));
                        assert(out@ =~= before + mpis(values.take(i + 1)));
                    }
                    i = i + 1;
                }
                assert(values.take(v@.len() as int) =~= values);
                Ok(())
            },
            Signature::Octets(v) => {
                crate::bytes::extend(out, v.as_slice());
                Ok(())
            },
        }
    }
}

/// Makes signatures.
///
/// This is implemented by keys in memory, and by devices and agents that
/// hold keys.
pub trait Signer {
    /// The public key.
    closed spec fn spec_public(&self) -> KeyView {
        arbitrary()
    }

    /// The hash algorithms that the signer accepts.
    closed spec fn spec_acceptable_hashes(&self) -> Seq<HashAlgorithm> {
        arbitrary()
    }

    /// Whether the signer may answer a request to sign `digest` with `sig`;
    /// it may give any answer if an implementation does not say more.
    closed spec fn signs(&self, algo: HashAlgorithm, digest: Seq<u8>, sig: SignatureView) -> bool {
        true
    }

    /// Whether the signer may decline a request to sign `digest` with
    /// `error`; it may give any error if an implementation does not say more.
    closed spec fn declines(
        &self,
        algo: HashAlgorithm,
        digest: Seq<u8>,
        error: ErrorView,
    ) -> bool {
        true
    }

    /// Returns the public key.
    fn public(&self) -> (r: &Key)
        ensures
            r@ == self.spec_public(),
    ;

    /// Returns the hash algorithms that the signer accepts.
    fn acceptable_hashes(&self) -> (r: &[HashAlgorithm])
        ensures
            r@ == self.spec_acceptable_hashes(),
    ;

    /// Signs a digest.
    fn sign(&mut self, algo: HashAlgorithm, digest: &[u8]) -> (r: Result<Signature>)
        ensures
            final(self).spec_public() == old(self).spec_public(),
            final(self).spec_acceptable_hashes() == old(self).spec_acceptable_hashes(),
            match r {
                Ok(s) => old(self).signs(algo, digest@, s@),
                Err(e) => old(self).declines(algo, digest@, e@),
            },
    ;
}

/// A signer of any type.
pub struct AnySigner(pub Box<dyn Signer>);

} // verus!
