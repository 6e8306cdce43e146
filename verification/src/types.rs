//! Algorithms and other constants of the format.

use vstd::prelude::*;

use crate::error::{Error, ErrorView, Result};

verus! {

/// Hash algorithms.
#[derive(Clone, Copy, Debug, PartialEq, Eq, Structural)]
#[allow(non_camel_case_types)]
pub enum HashAlgorithm {
    MD5,
    SHA1,
    RipeMD,
    SHA256,
    SHA384,
    SHA512,
    SHA224,
    SHA3_256,
    SHA3_512,
    Private(u8),
    Unknown(u8),
}

impl HashAlgorithm {
    /// The octet that stands for this algorithm.
    pub open spec fn spec_octet(self) -> u8 {
        match self {
            HashAlgorithm::MD5 => 1,
            HashAlgorithm::SHA1 => 2,
            HashAlgorithm::RipeMD => 3,
            HashAlgorithm::SHA256 => 8,
            HashAlgorithm::SHA384 => 9,
            HashAlgorithm::SHA512 => 10,
            HashAlgorithm::SHA224 => 11,
            HashAlgorithm::SHA3_256 => 12,
            HashAlgorithm::SHA3_512 => 14,
            HashAlgorithm::Private(n) => n,
            HashAlgorithm::Unknown(n) => n,
        }
    }

    /// Returns the octet that stands for this algorithm.
    pub fn octet(self) -> (r: u8)
        ensures
            r == self.spec_octet(),
    {
        match self {
            HashAlgorithm::MD5 => 1,
            HashAlgorithm::SHA1 => 2,
            HashAlgorithm::RipeMD => 3,
            HashAlgorithm::SHA256 => 8,
            HashAlgorithm::SHA384 => 9,
            HashAlgorithm::SHA512 => 10,
            HashAlgorithm::SHA224 => 11,
            HashAlgorithm::SHA3_256 => 12,
            HashAlgorithm::SHA3_512 => 14,
            HashAlgorithm::Private(n) => n,
            HashAlgorithm::Unknown(n) => n,
        }
    }

    /// The name of this algorithm in text headers, if it has one.
    pub open spec fn spec_text_name(self) -> Option<Seq<char>> {
        match self {
            HashAlgorithm::MD5 => Some("MD5"@),
            HashAlgorithm::SHA1 => Some("SHA1"@),
            HashAlgorithm::RipeMD => Some("RIPEMD160"@),
            HashAlgorithm::SHA256 => Some("SHA256"@),
            HashAlgorithm::SHA384 => Some("SHA384"@),
            HashAlgorithm::SHA512 => Some("SHA512"@),
            HashAlgorithm::SHA224 => Some("SHA224"@),
            HashAlgorithm::SHA3_256 => Some("SHA3-256"@),
            HashAlgorithm::SHA3_512 => Some("SHA3-512"@),
            HashAlgorithm::Private(_) => None,
            HashAlgorithm::Unknown(_) => None,
        }
    }

    /// Returns the name of this algorithm in text headers.
    pub fn text_name(self) -> (r: Result<&'static str>)
        ensures
            match r {
                Ok(s) => self.spec_text_name() == Some(s@),
                Err(e) => self.spec_text_name() is None
                    && e@ == ErrorView::UnsupportedHashAlgorithm(self),
            },
    {
        match self {
            HashAlgorithm::MD5 => Ok("MD5"),
            HashAlgorithm::SHA1 => Ok("SHA1"),
            HashAlgorithm::RipeMD => Ok("RIPEMD160"),
            HashAlgorithm::SHA256 => Ok("SHA256"),
            HashAlgorithm::SHA384 => Ok("SHA384"),
            HashAlgorithm::SHA512 => Ok("SHA512"),
            HashAlgorithm::SHA224 => Ok("SHA224"),
            HashAlgorithm::SHA3_256 => Ok("SHA3-256"),
            HashAlgorithm::SHA3_512 => Ok("SHA3-512"),
            HashAlgorithm::Private(_) => Err(Error::UnsupportedHashAlgorithm(self)),
            HashAlgorithm::Unknown(_) => Err(Error::UnsupportedHashAlgorithm(self)),
        }
    }

    /// The length of the salt that prefixes the hashed data of a version 6
    /// signature, if the algorithm may be used there.
    pub open spec fn spec_salt_size(self) -> Option<nat> {
        match self {
            HashAlgorithm::SHA256 => Some(16),
            HashAlgorithm::SHA384 => Some(24),
            HashAlgorithm::SHA512 => Some(32),
            HashAlgorithm::SHA224 => Some(16),
            HashAlgorithm::SHA3_256 => Some(16),
            HashAlgorithm::SHA3_512 => Some(32),
            _ => None,
        }
    }

    /// Returns the length of the salt that prefixes the hashed data of a
    /// version 6 signature.
    pub fn salt_size(self) -> (r: Result<usize>)
        ensures
            match r {
                Ok(n) => self.spec_salt_size() == Some(n as nat),
                Err(e) => self.spec_salt_size() is None
                    && e@ == ErrorView::UnsupportedHashAlgorithm(self),
            },
    {
        match self {
            HashAlgorithm::SHA256 => Ok(16),
            HashAlgorithm::SHA384 => Ok(24),
            HashAlgorithm::SHA512 => Ok(32),
            HashAlgorithm::SHA224 => Ok(16),
            HashAlgorithm::SHA3_256 => Ok(16),
            HashAlgorithm::SHA3_512 => Ok(32),
            _ => Err(Error::UnsupportedHashAlgorithm(self)),
        }
    }

    /// OpenSSL's numeric identifier of this algorithm, if it has one.
    pub open spec fn spec_nid(self) -> Option<int> {
        match self {
            HashAlgorithm::MD5 => Some(4),
            HashAlgorithm::SHA1 => Some(64),
            HashAlgorithm::RipeMD => Some(117),
            HashAlgorithm::SHA256 => Some(672),
            HashAlgorithm::SHA384 => Some(673),
            HashAlgorithm::SHA512 => Some(674),
            HashAlgorithm::SHA224 => Some(675),
            HashAlgorithm::SHA3_256 => Some(1097),
            HashAlgorithm::SHA3_512 => Some(1099),
            HashAlgorithm::Private(_) => None,
            HashAlgorithm::Unknown(_) => None,
        }
    }

    /// Returns OpenSSL's numeric identifier of this algorithm.
    pub fn nid(self) -> (r: Result<i32>)
        ensures
            match r {
                Ok(n) => self.spec_nid() == Some(n as int),
                Err(e) => self.spec_nid() is None
                    && e@ == ErrorView::UnsupportedHashAlgorithm(self),
            },
    {
        match self {
            HashAlgorithm::MD5 => Ok(4),
            HashAlgorithm::SHA1 => Ok(64),
            HashAlgorithm::RipeMD => Ok(117),
            HashAlgorithm::SHA256 => Ok(672),
            HashAlgorithm::SHA384 => Ok(673),
            HashAlgorithm::SHA512 => Ok(674),
            HashAlgorithm::SHA224 => Ok(675),
            HashAlgorithm::SHA3_256 => Ok(1097),
            HashAlgorithm::SHA3_512 => Ok(1099),
            HashAlgorithm::Private(_) => Err(Error::UnsupportedHashAlgorithm(self)),
            HashAlgorithm::Unknown(_) => Err(Error::UnsupportedHashAlgorithm(self)),
        }
    }
}

impl Default for HashAlgorithm {
    fn default() -> (r: HashAlgorithm)
        ensures
            r == HashAlgorithm::SHA512,
    {
        HashAlgorithm::SHA512
    }
}

/// Symmetric encryption algorithms.
#[derive(Clone, Copy, Debug, PartialEq, Eq, Structural)]
pub enum SymmetricAlgorithm {
    Unencrypted,
    IDEA,
    TripleDES,
    CAST5,
    Blowfish,
    AES128,
    AES192,
    AES256,
    Twofish,
    Camellia128,
    Camellia192,
    Camellia256,
    Private(u8),
    Unknown(u8),
}

impl SymmetricAlgorithm {
    /// The octet that stands for this algorithm.
    pub open spec fn spec_octet(self) -> u8 {
        match self {
            SymmetricAlgorithm::Unencrypted => 0,
            SymmetricAlgorithm::IDEA => 1,
            SymmetricAlgorithm::TripleDES => 2,
            SymmetricAlgorithm::CAST5 => 3,
            SymmetricAlgorithm::Blowfish => 4,
            SymmetricAlgorithm::AES128 => 7,
            SymmetricAlgorithm::AES192 => 8,
            SymmetricAlgorithm::AES256 => 9,
            SymmetricAlgorithm::Twofish => 10,
            SymmetricAlgorithm::Camellia128 => 11,
            SymmetricAlgorithm::Camellia192 => 12,
            SymmetricAlgorithm::Camellia256 => 13,
            SymmetricAlgorithm::Private(n) => n,
            SymmetricAlgorithm::Unknown(n) => n,
        }
    }

    /// Returns the octet that stands for this algorithm.
    pub fn octet(self) -> (r: u8)
        ensures
            r == self.spec_octet(),
    {
        match self {
            SymmetricAlgorithm::Unencrypted => 0,
            SymmetricAlgorithm::IDEA => 1,
            SymmetricAlgorithm::TripleDES => 2,
            SymmetricAlgorithm::CAST5 => 3,
            SymmetricAlgorithm::Blowfish => 4,
            SymmetricAlgorithm::AES128 => 7,
            SymmetricAlgorithm::AES192 => 8,
            SymmetricAlgorithm::AES256 => 9,
            SymmetricAlgorithm::Twofish => 10,
            SymmetricAlgorithm::Camellia128 => 11,
            SymmetricAlgorithm::Camellia192 => 12,
            SymmetricAlgorithm::Camellia256 => 13,
            SymmetricAlgorithm::Private(n) => n,
            SymmetricAlgorithm::Unknown(n) => n,
        }
    }

    /// The length of a key in octets, if the algorithm has keys.
    pub open spec fn spec_key_size(self) -> Option<nat> {
        match self {
            SymmetricAlgorithm::IDEA => Some(16),
            SymmetricAlgorithm::TripleDES => Some(24),
            SymmetricAlgorithm::CAST5 => Some(16),
            SymmetricAlgorithm::Blowfish => Some(16),
            SymmetricAlgorithm::AES128 => Some(16),
            SymmetricAlgorithm::AES192 => Some(24),
            SymmetricAlgorithm::AES256 => Some(32),
            SymmetricAlgorithm::Twofish => Some(32),
            SymmetricAlgorithm::Camellia128 => Some(16),
            SymmetricAlgorithm::Camellia192 => Some(24),
            SymmetricAlgorithm::Camellia256 => Some(32),
            _ => None,
        }
    }

    /// Returns the length of a key in octets.
    pub fn key_size(self) -> (r: Result<usize>)
        ensures
            match r {
                Ok(n) => self.spec_key_size() == Some(n as nat),
                Err(e) => self.spec_key_size() is None
                    && e@ == ErrorView::UnsupportedSymmetricAlgorithm(self),
            },
    {
        match self {
            SymmetricAlgorithm::IDEA => Ok(16),
            SymmetricAlgorithm::TripleDES => Ok(24),
            SymmetricAlgorithm::CAST5 => Ok(16),
            SymmetricAlgorithm::Blowfish => Ok(16),
            SymmetricAlgorithm::AES128 => Ok(16),
            SymmetricAlgorithm::AES192 => Ok(24),
            SymmetricAlgorithm::AES256 => Ok(32),
            SymmetricAlgorithm::Twofish => Ok(32),
            SymmetricAlgorithm::Camellia128 => Ok(16),
            SymmetricAlgorithm::Camellia192 => Ok(24),
            SymmetricAlgorithm::Camellia256 => Ok(32),
            _ => Err(Error::UnsupportedSymmetricAlgorithm(self)),
        }
    }

    /// The length of a block in octets, if the algorithm has blocks.
    pub open spec fn spec_block_size(self) -> Option<nat> {
        match self {
            SymmetricAlgorithm::IDEA => Some(8),
            SymmetricAlgorithm::TripleDES => Some(8),
            SymmetricAlgorithm::CAST5 => Some(8),
            SymmetricAlgorithm::Blowfish => Some(8),
            SymmetricAlgorithm::AES128 => Some(16),
            SymmetricAlgorithm::AES192 => Some(16),
            SymmetricAlgorithm::AES256 => Some(16),
            SymmetricAlgorithm::Twofish => Some(16),
            SymmetricAlgorithm::Camellia128 => Some(16),
            SymmetricAlgorithm::Camellia192 => Some(16),
            SymmetricAlgorithm::Camellia256 => Some(16),
            _ => None,
        }
    }

    /// Returns the length of a block in octets.
    pub fn block_size(self) -> (r: Result<usize>)
        ensures
            match r {
                Ok(n) => self.spec_block_size() == Some(n as nat),
                Err(e) => self.spec_block_size() is None
                    && e@ == ErrorView::UnsupportedSymmetricAlgorithm(self),
            },
    {
        match self {
            SymmetricAlgorithm::IDEA => Ok(8),
            SymmetricAlgorithm::TripleDES => Ok(8),
            SymmetricAlgorithm::CAST5 => Ok(8),
            SymmetricAlgorithm::Blowfish => Ok(8),
            SymmetricAlgorithm::AES128 => Ok(16),
            SymmetricAlgorithm::AES192 => Ok(16),
            SymmetricAlgorithm::AES256 => Ok(16),
            SymmetricAlgorithm::Twofish => Ok(16),
            SymmetricAlgorithm::Camellia128 => Ok(16),
            SymmetricAlgorithm::Camellia192 => Ok(16),
            SymmetricAlgorithm::Camellia256 => Ok(16),
            _ => Err(Error::UnsupportedSymmetricAlgorithm(self)),
        }
    }

    /// The human-readable name of this algorithm.
    pub open spec fn spec_name(self) -> Seq<char> {
        match self {
            SymmetricAlgorithm::Unencrypted => "Unencrypted"@,
            SymmetricAlgorithm::IDEA => "IDEA"@,
            SymmetricAlgorithm::TripleDES => "TripleDES (EDE-DES, 168 bit key derived from 192))"@,
            SymmetricAlgorithm::CAST5 => "CAST5 (128 bit key, 16 rounds)"@,
            SymmetricAlgorithm::Blowfish => "Blowfish (128 bit key, 16 rounds)"@,
            SymmetricAlgorithm::AES128 => "AES with 128-bit key"@,
            SymmetricAlgorithm::AES192 => "AES with 192-bit key"@,
            SymmetricAlgorithm::AES256 => "AES with 256-bit key"@,
            SymmetricAlgorithm::Twofish => "Twofish with 256-bit key"@,
            SymmetricAlgorithm::Camellia128 => "Camellia with 128-bit key"@,
            SymmetricAlgorithm::Camellia192 => "Camellia with 192-bit key"@,
            SymmetricAlgorithm::Camellia256 => "Camellia with 256-bit key"@,
            SymmetricAlgorithm::Private(_) => "Private/Experimental symmetric key algorithm"@,
            SymmetricAlgorithm::Unknown(_) => "Unknown symmetric key algorithm"@,
        }
    }

    /// Returns the human-readable name of this algorithm.
    pub fn name(self) -> (r: &'static str)
        ensures
            r@ == self.spec_name(),
    {
        match self {
            SymmetricAlgorithm::Unencrypted => "Unencrypted",
            SymmetricAlgorithm::IDEA => "IDEA",
            SymmetricAlgorithm::TripleDES => "TripleDES (EDE-DES, 168 bit key derived from 192))",
            SymmetricAlgorithm::CAST5 => "CAST5 (128 bit key, 16 rounds)",
            SymmetricAlgorithm::Blowfish => "Blowfish (128 bit key, 16 rounds)",
            SymmetricAlgorithm::AES128 => "AES with 128-bit key",
            SymmetricAlgorithm::AES192 => "AES with 192-bit key",
            SymmetricAlgorithm::AES256 => "AES with 256-bit key",
            SymmetricAlgorithm::Twofish => "Twofish with 256-bit key",
            SymmetricAlgorithm::Camellia128 => "Camellia with 128-bit key",
            SymmetricAlgorithm::Camellia192 => "Camellia with 192-bit key",
            SymmetricAlgorithm::Camellia256 => "Camellia with 256-bit key",
            SymmetricAlgorithm::Private(_) => "Private/Experimental symmetric key algorithm",
            SymmetricAlgorithm::Unknown(_) => "Unknown symmetric key algorithm",
        }
    }

    /// OpenSSL's numeric identifier of this algorithm in cipher feedback
    /// mode, if it has one.
    pub open spec fn spec_cfb_nid(self) -> Option<int> {
        match self {
            SymmetricAlgorithm::IDEA => Some(35),
            SymmetricAlgorithm::TripleDES => Some(61),
            SymmetricAlgorithm::CAST5 => Some(110),
            SymmetricAlgorithm::Blowfish => Some(93),
            SymmetricAlgorithm::AES128 => Some(421),
            SymmetricAlgorithm::AES192 => Some(425),
            SymmetricAlgorithm::AES256 => Some(429),
            SymmetricAlgorithm::Camellia128 => Some(757),
            SymmetricAlgorithm::Camellia192 => Some(758),
            SymmetricAlgorithm::Camellia256 => Some(759),
            _ => None,
        }
    }

    /// Returns OpenSSL's numeric identifier of this algorithm in cipher
    /// feedback mode.
    pub fn cfb_nid(self) -> (r: Result<i32>)
        ensures
            match r {
                Ok(n) => self.spec_cfb_nid() == Some(n as int),
                Err(e) => self.spec_cfb_nid() is None
                    && e@ == ErrorView::UnsupportedSymmetricAlgorithm(self),
            },
    {
        match self {
            SymmetricAlgorithm::IDEA => Ok(35),
            SymmetricAlgorithm::TripleDES => Ok(61),
            SymmetricAlgorithm::CAST5 => Ok(110),
            SymmetricAlgorithm::Blowfish => Ok(93),
            SymmetricAlgorithm::AES128 => Ok(421),
            SymmetricAlgorithm::AES192 => Ok(425),
            SymmetricAlgorithm::AES256 => Ok(429),
            SymmetricAlgorithm::Camellia128 => Ok(757),
            SymmetricAlgorithm::Camellia192 => Ok(758),
            SymmetricAlgorithm::Camellia256 => Ok(759),
            _ => Err(Error::UnsupportedSymmetricAlgorithm(self)),
        }
    }
}

impl Default for SymmetricAlgorithm {
    fn default() -> (r: SymmetricAlgorithm)
        ensures
            r == SymmetricAlgorithm::AES256,
    {
        SymmetricAlgorithm::AES256
    }
}

/// Authenticated encryption modes.
#[derive(Clone, Copy, Debug, PartialEq, Eq, Structural)]
pub enum AEADAlgorithm {
    EAX,
    OCB,
    GCM,
    Private(u8),
    Unknown(u8),
}

impl AEADAlgorithm {
    /// The octet that stands for this mode.
    pub open spec fn spec_octet(self) -> u8 {
        match self {
            AEADAlgorithm::EAX => 1,
            AEADAlgorithm::OCB => 2,
            AEADAlgorithm::GCM => 3,
            AEADAlgorithm::Private(n) => n,
            AEADAlgorithm::Unknown(n) => n,
        }
    }

    /// Returns the octet that stands for this mode.
    pub fn octet(self) -> (r: u8)
        ensures
            r == self.spec_octet(),
    {
        match self {
            AEADAlgorithm::EAX => 1,
            AEADAlgorithm::OCB => 2,
            AEADAlgorithm::GCM => 3,
            AEADAlgorithm::Private(n) => n,
            AEADAlgorithm::Unknown(n) => n,
        }
    }

    /// The length of a nonce in octets, if the mode is a known one.
    pub open spec fn spec_nonce_size(self) -> Option<nat> {
        match self {
            AEADAlgorithm::EAX => Some(16),
            AEADAlgorithm::OCB => Some(15),
            AEADAlgorithm::GCM => Some(12),
            _ => None,
        }
    }

    /// Returns the length of a nonce in octets.
    pub fn nonce_size(self) -> (r: Result<usize>)
        ensures
            match r {
                Ok(n) => self.spec_nonce_size() == Some(n as nat) && 8 <= n <= 16,
                Err(e) => self.spec_nonce_size() is None
                    && e@ == ErrorView::UnsupportedAEADAlgorithm(self),
            },
    {
        match self {
            AEADAlgorithm::EAX => Ok(16),
            AEADAlgorithm::OCB => Ok(15),
            AEADAlgorithm::GCM => Ok(12),
            _ => Err(Error::UnsupportedAEADAlgorithm(self)),
        }
    }

    /// OpenSSL's numeric identifier of the cipher `symm` in this mode, if it
    /// has one.
    pub open spec fn spec_nid(self, symm: SymmetricAlgorithm) -> Option<int> {
        match (self, symm) {
            (AEADAlgorithm::OCB, SymmetricAlgorithm::AES128) => Some(958),
            (AEADAlgorithm::OCB, SymmetricAlgorithm::AES192) => Some(959),
            (AEADAlgorithm::OCB, SymmetricAlgorithm::AES256) => Some(960),
            (AEADAlgorithm::GCM, SymmetricAlgorithm::AES128) => Some(895),
            (AEADAlgorithm::GCM, SymmetricAlgorithm::AES192) => Some(898),
            (AEADAlgorithm::GCM, SymmetricAlgorithm::AES256) => Some(901),
            _ => None,
        }
    }

    /// Returns OpenSSL's numeric identifier of the cipher `symm` in this
    /// mode.
    pub fn nid(self, symm: SymmetricAlgorithm) -> (r: Result<i32>)
        ensures
            match r {
                Ok(n) => self.spec_nid(symm) == Some(n as int),
                Err(e) => self.spec_nid(symm) is None
                    && e@ == ErrorView::UnsupportedAEADAlgorithm(self),
            },
    {
        match (self, symm) {
            (AEADAlgorithm::OCB, SymmetricAlgorithm::AES128) => Ok(958),
            (AEADAlgorithm::OCB, SymmetricAlgorithm::AES192) => Ok(959),
            (AEADAlgorithm::OCB, SymmetricAlgorithm::AES256) => Ok(960),
            (AEADAlgorithm::GCM, SymmetricAlgorithm::AES128) => Ok(895),
            (AEADAlgorithm::GCM, SymmetricAlgorithm::AES192) => Ok(898),
            (AEADAlgorithm::GCM, SymmetricAlgorithm::AES256) => Ok(901),
            _ => Err(Error::UnsupportedAEADAlgorithm(self)),
        }
    }
}

impl Default for AEADAlgorithm {
    fn default() -> (r: AEADAlgorithm)
        ensures
            r == AEADAlgorithm::OCB,
    {
        AEADAlgorithm::OCB
    }
}

/// Compression algorithms.
#[derive(Clone, Copy, Debug, PartialEq, Eq, Structural)]
pub enum CompressionAlgorithm {
    Uncompressed,
    Zip,
    Zlib,
    BZip2,
    Private(u8),
    Unknown(u8),
}

impl CompressionAlgorithm {
    /// The octet that stands for this algorithm.
    pub open spec fn spec_octet(self) -> u8 {
        match self {
            CompressionAlgorithm::Uncompressed => 0,
            CompressionAlgorithm::Zip => 1,
            CompressionAlgorithm::Zlib => 2,
            CompressionAlgorithm::BZip2 => 3,
            CompressionAlgorithm::Private(n) => n,
            CompressionAlgorithm::Unknown(n) => n,
        }
    }

    /// Returns the octet that stands for this algorithm.
    pub fn octet(self) -> (r: u8)
        ensures
            r == self.spec_octet(),
    {
        match self {
            CompressionAlgorithm::Uncompressed => 0,
            CompressionAlgorithm::Zip => 1,
            CompressionAlgorithm::Zlib => 2,
            CompressionAlgorithm::BZip2 => 3,
            CompressionAlgorithm::Private(n) => n,
            CompressionAlgorithm::Unknown(n) => n,
        }
    }
}

impl Default for CompressionAlgorithm {
    fn default() -> (r: CompressionAlgorithm)
        ensures
            r == CompressionAlgorithm::Zip,
    {
        CompressionAlgorithm::Zip
    }
}

/// Compression levels, from zero to nine.
#[derive(Clone, Copy, Debug, PartialEq, Eq, Structural)]
pub struct CompressionLevel(u8);

impl CompressionLevel {
    /// The number of the level.
    pub closed spec fn number(self) -> int {
        self.0 as int
    }

    #[verifier::type_invariant]
    closed spec fn in_range(self) -> bool {
        self.0 <= 9
    }

    /// Creates a new compression level.
    ///
    /// `level` must be in range 0-9, where 0 means that no compression is
    /// performed, and 9 means that no effort is spared to compress the data.
    pub fn new(level: u8) -> (r: Result<CompressionLevel>)
        ensures
            match r {
                Ok(l) => level < 10 && l.number() == level,
                Err(e) => level >= 10 && e@ == ErrorView::InvalidArgument(
                    "compression level out of range"@,
                ),
            },
    {
        if level < 10 {
            Ok(CompressionLevel(level))
        } else {
            Err(Error::InvalidArgument("compression level out of range".to_string()))
        }
    }

    /// No compression.
    pub fn none() -> (r: CompressionLevel)
        ensures
            r.number() == 0,
    {
        CompressionLevel(0)
    }

    /// Fastest compression.
    pub fn fastest() -> (r: CompressionLevel)
        ensures
            r.number() == 1,
    {
        CompressionLevel(1)
    }

    /// Best compression.
    pub fn best() -> (r: CompressionLevel)
        ensures
            r.number() == 9,
    {
        CompressionLevel(9)
    }

    /// Returns the number of the level.
    pub fn value(self) -> (r: u32)
        ensures
            r == self.number(),
            r <= 9,
    {
        proof {
            use_type_invariant(&self);
        }
        self.0 as u32
    }
}

impl Default for CompressionLevel {
    fn default() -> (r: CompressionLevel)
        ensures
            r.number() == 6,
    {
        CompressionLevel(6)
    }
}

/// What kind of data a literal data packet holds.
#[derive(Clone, Copy, Debug, PartialEq, Eq, Structural)]
pub enum DataFormat {
    Binary,
    Unicode,
    Text,
    Unknown(u8),
}

impl DataFormat {
    /// The octet that stands for this format.
    pub open spec fn spec_octet(self) -> u8 {
        match self {
            DataFormat::Binary => 0x62,
            DataFormat::Unicode => 0x75,
            DataFormat::Text => 0x74,
            DataFormat::Unknown(n) => n,
        }
    }

    /// Returns the octet that stands for this format.
    pub fn octet(self) -> (r: u8)
        ensures
            r == self.spec_octet(),
    {
        match self {
            DataFormat::Binary => 0x62,
            DataFormat::Unicode => 0x75,
            DataFormat::Text => 0x74,
            DataFormat::Unknown(n) => n,
        }
    }
}

impl Default for DataFormat {
    fn default() -> (r: DataFormat)
        ensures
            r == DataFormat::Binary,
    {
        DataFormat::Binary
    }
}

/// Signature types.
#[derive(Clone, Copy, Debug, PartialEq, Eq, Structural)]
pub enum SignatureType {
    Binary,
    Text,
    Standalone,
    Unknown(u8),
}

impl SignatureType {
    /// The octet that stands for this type.
    pub open spec fn spec_octet(self) -> u8 {
        match self {
            SignatureType::Binary => 0x00,
            SignatureType::Text => 0x01,
            SignatureType::Standalone => 0x02,
            SignatureType::Unknown(n) => n,
        }
    }

    /// Returns the octet that stands for this type.
    pub fn octet(self) -> (r: u8)
        ensures
            r == self.spec_octet(),
    {
        match self {
            SignatureType::Binary => 0x00,
            SignatureType::Text => 0x01,
            SignatureType::Standalone => 0x02,
            SignatureType::Unknown(n) => n,
        }
    }
}

/// Public key algorithms.
#[derive(Clone, Copy, Debug, PartialEq, Eq, Structural)]
pub enum PublicKeyAlgorithm {
    RSAEncryptSign,
    ElGamalEncrypt,
    DSA,
    ECDH,
    ECDSA,
    EdDSA,
    X25519,
    X448,
    Ed25519,
    Ed448,
    Unknown(u8),
}

impl PublicKeyAlgorithm {
    /// The octet that stands for this algorithm.
    pub open spec fn spec_octet(self) -> u8 {
        match self {
            PublicKeyAlgorithm::RSAEncryptSign => 1,
            PublicKeyAlgorithm::ElGamalEncrypt => 16,
            PublicKeyAlgorithm::DSA => 17,
            PublicKeyAlgorithm::ECDH => 18,
            PublicKeyAlgorithm::ECDSA => 19,
            PublicKeyAlgorithm::EdDSA => 22,
            PublicKeyAlgorithm::X25519 => 25,
            PublicKeyAlgorithm::X448 => 26,
            PublicKeyAlgorithm::Ed25519 => 27,
            PublicKeyAlgorithm::Ed448 => 28,
            PublicKeyAlgorithm::Unknown(n) => n,
        }
    }

    /// Returns the octet that stands for this algorithm.
    pub fn octet(self) -> (r: u8)
        ensures
            r == self.spec_octet(),
    {
        match self {
            PublicKeyAlgorithm::RSAEncryptSign => 1,
            PublicKeyAlgorithm::ElGamalEncrypt => 16,
            PublicKeyAlgorithm::DSA => 17,
            PublicKeyAlgorithm::ECDH => 18,
            PublicKeyAlgorithm::ECDSA => 19,
            PublicKeyAlgorithm::EdDSA => 22,
            PublicKeyAlgorithm::X25519 => 25,
            PublicKeyAlgorithm::X448 => 26,
            PublicKeyAlgorithm::Ed25519 => 27,
            PublicKeyAlgorithm::Ed448 => 28,
            PublicKeyAlgorithm::Unknown(n) => n,
        }
    }
}

/// Elliptic curves.
#[derive(Clone, Debug)]
pub enum Curve {
    NistP256,
    NistP384,
    NistP521,
    BrainpoolP256,
    BrainpoolP384,
    BrainpoolP512,
    Ed25519,
    Cv25519,
    Unknown(Vec<u8>),
}

impl Curve {
    /// The object identifier of the curve.
    pub open spec fn spec_oid(self) -> Seq<u8> {
        match self {
            Curve::NistP256 => seq![0x2a, 0x86, 0x48, 0xce, 0x3d, 0x03, 0x01, 0x07],
            Curve::NistP384 => seq![0x2b, 0x81, 0x04, 0x00, 0x22],
            Curve::NistP521 => seq![0x2b, 0x81, 0x04, 0x00, 0x23],
            Curve::BrainpoolP256 => seq![0x2b, 0x24, 0x03, 0x03, 0x02, 0x08, 0x01, 0x01, 0x07],
            Curve::BrainpoolP384 => seq![0x2b, 0x24, 0x03, 0x03, 0x02, 0x08, 0x01, 0x01, 0x0b],
            Curve::BrainpoolP512 => seq![0x2b, 0x24, 0x03, 0x03, 0x02, 0x08, 0x01, 0x01, 0x0d],
            Curve::Ed25519 => seq![0x2b, 0x06, 0x01, 0x04, 0x01, 0xda, 0x47, 0x0f, 0x01],
            Curve::Cv25519 => seq![0x2b, 0x06, 0x01, 0x04, 0x01, 0x97, 0x55, 0x01, 0x05, 0x01],
            Curve::Unknown(oid) => oid@,
        }
    }

    /// Returns the object identifier of the curve.
    pub fn oid(&self) -> (r: Vec<u8>)
        ensures
            r@ == self.spec_oid(),
    {
        match self {
            Curve::NistP256 => vec![0x2a, 0x86, 0x48, 0xce, 0x3d, 0x03, 0x01, 0x07],
            Curve::NistP384 => vec![0x2b, 0x81, 0x04, 0x00, 0x22],
            Curve::NistP521 => vec![0x2b, 0x81, 0x04, 0x00, 0x23],
            Curve::BrainpoolP256 => vec![0x2b, 0x24, 0x03, 0x03, 0x02, 0x08, 0x01, 0x01, 0x07],
            Curve::BrainpoolP384 => vec![0x2b, 0x24, 0x03, 0x03, 0x02, 0x08, 0x01, 0x01, 0x0b],
            Curve::BrainpoolP512 => vec![0x2b, 0x24, 0x03, 0x03, 0x02, 0x08, 0x01, 0x01, 0x0d],
            Curve::Ed25519 => vec![0x2b, 0x06, 0x01, 0x04, 0x01, 0xda, 0x47, 0x0f, 0x01],
            Curve::Cv25519 => vec![0x2b, 0x06, 0x01, 0x04, 0x01, 0x97, 0x55, 0x01, 0x05, 0x01],
            Curve::Unknown(oid) => crate::bytes::to_vec(oid.as_slice()),
        }
    }

    /// Copies the curve.
    pub fn duplicate(&self) -> (r: Curve)
        ensures
            r@ == self@,
    {
        match self {
            Curve::NistP256 => Curve::NistP256,
            Curve::NistP384 => Curve::NistP384,
            Curve::NistP521 => Curve::NistP521,
            Curve::BrainpoolP256 => Curve::BrainpoolP256,
            Curve::BrainpoolP384 => Curve::BrainpoolP384,
            Curve::BrainpoolP512 => Curve::BrainpoolP512,
            Curve::Ed25519 => Curve::Ed25519,
            Curve::Cv25519 => Curve::Cv25519,
            Curve::Unknown(oid) => Curve::Unknown(crate::bytes::to_vec(oid.as_slice())),
        }
    }

    /// OpenSSL's numeric identifier of the group of the curve, if it has
    /// one that a Diffie-Hellman exchange can be made in.
    pub open spec fn spec_nid(self) -> Option<int> {
        match self {
            Curve::NistP256 => Some(415),
            Curve::NistP384 => Some(715),
            Curve::NistP521 => Some(716),
            Curve::BrainpoolP256 => Some(927),
            Curve::BrainpoolP384 => Some(931),
            Curve::BrainpoolP512 => Some(933),
            Curve::Ed25519 => None,
            Curve::Cv25519 => None,
            Curve::Unknown(oid) => if oid@ == seq![0x2bu8, 0x81, 0x04, 0x00, 0x0a] {
                Some(714)
            } else {
                None
            },
        }
    }

    /// Returns OpenSSL's numeric identifier of the group of the curve.
    pub fn nid(&self) -> (r: Result<i32>)
        ensures
            match r {
                Ok(n) => self.spec_nid() == Some(n as int),
                Err(e) => self.spec_nid() is None
                    && e@ == ErrorView::UnsupportedEllipticCurve(self@),
            },
    {
        match self {
            Curve::NistP256 => Ok(415),
            Curve::NistP384 => Ok(715),
            Curve::NistP521 => Ok(716),
            Curve::BrainpoolP256 => Ok(927),
            Curve::BrainpoolP384 => Ok(931),
            Curve::BrainpoolP512 => Ok(933),
            Curve::Ed25519 => Err(Error::UnsupportedEllipticCurve(self.duplicate())),
            Curve::Cv25519 => Err(Error::UnsupportedEllipticCurve(self.duplicate())),
            Curve::Unknown(oid) => {
                let secp256k1: Vec<u8> = vec![0x2b, 0x81, 0x04, 0x00, 0x0a];
                assert(secp256k1@ =~= seq![0x2bu8, 0x81, 0x04, 0x00, 0x0a]);
                if crate::bytes::equal(oid.as_slice(), secp256k1.as_slice()) {
                    Ok(714)
                } else {
                    Err(Error::UnsupportedEllipticCurve(self.duplicate()))
                }
            },
        }
    }
}

impl View for Curve {
    type V = Seq<u8>;

    open spec fn view(&self) -> Seq<u8> {
        self.spec_oid()
    }
}

/// The revision of the format that a message adheres to.
#[derive(Clone, Copy, Debug, PartialEq, Eq, Structural)]
pub enum Profile {
    /// RFC 9580, which deprecates the checksum of ASCII armor.
    RFC9580,
    /// RFC 4880.
    RFC4880,
}

/// Features that a recipient's implementation announces.
#[derive(Clone, Copy, Debug, PartialEq, Eq, Structural)]
pub struct Features {
    /// Version 1 of the encrypted and integrity protected data packet.
    pub seipdv1: bool,
    /// Version 2 of the encrypted and integrity protected data packet.
    pub seipdv2: bool,
}

impl Features {
    /// No features.
    pub fn empty() -> (r: Features)
        ensures
            r == (Features { seipdv1: false, seipdv2: false }),
    {
        Features { seipdv1: false, seipdv2: false }
    }

    /// The features that this crate supports.
    pub fn sequoia() -> (r: Features)
        ensures
            r == (Features { seipdv1: true, seipdv2: true }),
    {
        Features { seipdv1: true, seipdv2: true }
    }

    /// Adds version 1 of the encrypted and integrity protected data packet.
    pub fn set_seipdv1(self) -> (r: Features)
        ensures
            r == (Features { seipdv1: true, ..self }),
    {
        Features { seipdv1: true, seipdv2: self.seipdv2 }
    }

    /// Adds version 2 of the encrypted and integrity protected data packet.
    pub fn set_seipdv2(self) -> (r: Features)
        ensures
            r == (Features { seipdv2: true, ..self }),
    {
        Features { seipdv1: self.seipdv1, seipdv2: true }
    }

    /// Whether version 2 of the encrypted and integrity protected data
    /// packet is understood.
    pub fn supports_seipdv2(self) -> (r: bool)
        ensures
            r == self.seipdv2,
    {
        self.seipdv2
    }
}

/// What an ASCII armor holds.
#[derive(Clone, Copy, Debug, PartialEq, Eq, Structural)]
pub enum Kind {
    /// A generic OpenPGP message.
    Message,
    /// A certificate.
    PublicKey,
    /// A transferable secret key.
    SecretKey,
    /// A detached signature.
    Signature,
    /// A generic file.
    File,
}

impl Kind {
    /// The words in the first and the last line of the armor.
    pub open spec fn spec_blurb(self) -> Seq<u8> {
        match self {
            Kind::Message => crate::bytes::text("MESSAGE"),
            Kind::PublicKey => crate::bytes::text("PUBLIC KEY BLOCK"),
            Kind::SecretKey => crate::bytes::text("PRIVATE KEY BLOCK"),
            Kind::Signature => crate::bytes::text("SIGNATURE"),
            Kind::File => crate::bytes::text("ARMORED FILE"),
        }
    }

    /// Returns the words in the first and the last line of the armor.
    pub fn blurb(self) -> (r: &'static [u8])
        ensures
            r@ == self.spec_blurb(),
    {
        match self {
            Kind::Message => "MESSAGE".as_bytes(),
            Kind::PublicKey => "PUBLIC KEY BLOCK".as_bytes(),
            Kind::SecretKey => "PRIVATE KEY BLOCK".as_bytes(),
            Kind::Signature => "SIGNATURE".as_bytes(),
            Kind::File => "ARMORED FILE".as_bytes(),
        }
    }
}

} // verus!
