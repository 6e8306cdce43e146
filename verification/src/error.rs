//! What can go wrong.

use vstd::prelude::*;

use crate::types::{
    AEADAlgorithm, CompressionAlgorithm, Curve, HashAlgorithm, PublicKeyAlgorithm,
    SymmetricAlgorithm,
};

verus! {

/// Results of this crate.
pub type Result<T> = std::result::Result<T, Error>;

/// Errors of this crate.
#[derive(Debug)]
pub enum Error {
    /// A given argument is invalid.
    InvalidArgument(String),
    /// A given operation is invalid.
    InvalidOperation(String),
    /// No acceptable hash algorithm.
    NoAcceptableHash,
    /// Unsupported hash algorithm.
    UnsupportedHashAlgorithm(HashAlgorithm),
    /// Unsupported symmetric algorithm.
    UnsupportedSymmetricAlgorithm(SymmetricAlgorithm),
    /// Unsupported AEAD algorithm.
    UnsupportedAEADAlgorithm(AEADAlgorithm),
    /// Unsupported compression algorithm.
    UnsupportedCompressionAlgorithm(CompressionAlgorithm),
    /// Unsupported public key algorithm.
    UnsupportedPublicKeyAlgorithm(PublicKeyAlgorithm),
    /// Unsupported elliptic curve.
    UnsupportedEllipticCurve(Curve),
    /// A value does not fit into the field that the format has for it.
    TooLarge,
    /// The cryptographic library refused the request.
    Backend,
}

/// An error, with its texts as character sequences.
pub enum ErrorView {
    InvalidArgument(Seq<char>),
    InvalidOperation(Seq<char>),
    NoAcceptableHash,
    UnsupportedHashAlgorithm(HashAlgorithm),
    UnsupportedSymmetricAlgorithm(SymmetricAlgorithm),
    UnsupportedAEADAlgorithm(AEADAlgorithm),
    UnsupportedCompressionAlgorithm(CompressionAlgorithm),
    UnsupportedPublicKeyAlgorithm(PublicKeyAlgorithm),
    UnsupportedEllipticCurve(Seq<u8>),
    TooLarge,
    Backend,
}

impl View for Error {
    type V = ErrorView;

    open spec fn view(&self) -> ErrorView {
        match self {
            Error::InvalidArgument(s) => ErrorView::InvalidArgument(s@),
            Error::InvalidOperation(s) => ErrorView::InvalidOperation(s@),
            Error::NoAcceptableHash => ErrorView::NoAcceptableHash,
            Error::UnsupportedHashAlgorithm(a) => ErrorView::UnsupportedHashAlgorithm(*a),
            Error::UnsupportedSymmetricAlgorithm(a) => ErrorView::UnsupportedSymmetricAlgorithm(*a),
            Error::UnsupportedAEADAlgorithm(a) => ErrorView::UnsupportedAEADAlgorithm(*a),
            Error::UnsupportedCompressionAlgorithm(a) => {
                ErrorView::UnsupportedCompressionAlgorithm(*a)
            },
            Error::UnsupportedPublicKeyAlgorithm(a) => ErrorView::UnsupportedPublicKeyAlgorithm(*a),
            Error::UnsupportedEllipticCurve(c) => ErrorView::UnsupportedEllipticCurve(c@),
            Error::TooLarge => ErrorView::TooLarge,
            Error::Backend => ErrorView::Backend,
        }
    }
}

} // verus!
