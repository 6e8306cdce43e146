//! Laws on the octets that numbers, lengths, tags and algorithms are written as.

use vstd::arithmetic::power2::{lemma2_to64, pow2};
use vstd::prelude::*;

use crate::bytes::{be16, be32, be64};
use crate::cipher::{AEAD_CHUNK_OCTET, AEAD_CHUNK_SIZE};
use crate::framing::{
    chunk_log2, chunk_size, chunks_out, chunks_rest, full_length, packet, Tag,
};
use crate::hashing::{S2K_CODED_COUNT, S2K_COUNT};
use crate::key::{
    bits, lemma_number_stripped, mpi, mpi_fits, mpis, number, octet_bits, strip_zeros,
    FingerprintView, PublicKeyView,
};
use crate::signature::subpacket_length;
use crate::types::{
    AEADAlgorithm, CompressionAlgorithm, Curve, DataFormat, HashAlgorithm, PublicKeyAlgorithm,
    SignatureType, SymmetricAlgorithm,
};

verus! {

/// Numbers are written in network order: the first octet weighs most.
pub proof fn law_network_order(n: int)
    requires
        n >= 0,
    ensures
        n < 0x1_0000 ==> be16(n).len() == 2 && be16(n)[0] * 0x100 + be16(n)[1] == n,
        n < 0x1_0000_0000 ==> be32(n).len() == 4 && be32(n)[0] * 0x100_0000 + be32(n)[1] * 0x1_0000
            + be32(n)[2] * 0x100 + be32(n)[3] == n,
        n < 0x1_0000_0000_0000_0000 ==> be64(n).len() == 8 && be64(n)[0] * 0x100_0000_0000_0000
            + be64(n)[1] * 0x1_0000_0000_0000 + be64(n)[2] * 0x100_0000_0000 + be64(n)[3]
            * 0x1_0000_0000 + be64(n)[4] * 0x100_0000 + be64(n)[5] * 0x1_0000 + be64(n)[6] * 0x100
            + be64(n)[7] == n,
{
    if n < 0x1_0000_0000 {
        lemma_four_octets(n);
    }
    if n < 0x1_0000_0000_0000_0000 {
        let hi = n / 0x1_0000_0000;
        let lo = n % 0x1_0000_0000;
        lemma_four_octets(hi);
        lemma_four_octets(lo);
        assert(be64(n) =~= be32(hi) + be32(lo));
    }
}

proof fn lemma_four_octets(n: int)
    requires
        0 <= n < 0x1_0000_0000,
    ensures
        be32(n).len() == 4,
        be32(n)[0] * 0x100_0000 + be32(n)[1] * 0x1_0000 + be32(n)[2] * 0x100 + be32(n)[3] == n,
{
    let hi = n / 0x1_0000 % 0x1_0000;
    let lo = n % 0x1_0000;
    assert(be32(n)[0] == be16(hi)[0]);
    assert(be32(n)[1] == be16(hi)[1]);
    assert(be32(n)[2] == be16(lo)[0]);
    assert(be32(n)[3] == be16(lo)[1]);
    assert(be16(hi)[0] * 0x100 + be16(hi)[1] == hi);
    assert(be16(lo)[0] * 0x100 + be16(lo)[1] == lo);
}

/// The octets that numbers are written as stand for the numbers.
#[verifier::spinoff_prover]
#[verifier::rlimit(40)]
pub proof fn law_numbers_are_read(n: int)
    requires
        n >= 0,
    ensures
        n < 0x1_0000 ==> be16(n).len() == 2 && number(be16(n)) == n,
        n < 0x1_0000_0000 ==> be32(n).len() == 4 && number(be32(n)) == n,
{
    reveal_with_fuel(number, 5);
    law_network_order(n);
    let s = be16(n);
    assert(s.drop_last().drop_last() =~= Seq::<u8>::empty());
    assert(s.drop_last().last() == s[0]);
    if n < 0x1_0000_0000 {
        let t = be32(n);
        assert(t.drop_last().last() == t[2]);
        assert(t.drop_last().drop_last().last() == t[1]);
        assert(t.drop_last().drop_last().drop_last().last() == t[0]);
        assert(t.drop_last().drop_last().drop_last().drop_last() =~= Seq::<u8>::empty());
    }
}

/// The first octet of a packet tells its kind.
pub proof fn law_first_octets(tag: Tag)
    ensures
        tag.spec_ctb() == 0xC1 <==> tag is PKESK,
        tag.spec_ctb() == 0xC2 <==> tag is Signature,
        tag.spec_ctb() == 0xC3 <==> tag is SKESK,
        tag.spec_ctb() == 0xC4 <==> tag is OnePassSig,
        tag.spec_ctb() == 0xC5 <==> tag is SecretKey,
        tag.spec_ctb() == 0xC6 <==> tag is PublicKey,
        tag.spec_ctb() == 0xC7 <==> tag is SecretSubkey,
        tag.spec_ctb() == 0xC8 <==> tag is CompressedData,
        tag.spec_ctb() == 0xC9 <==> tag is SED,
        tag.spec_ctb() == 0xCA <==> tag is Marker,
        tag.spec_ctb() == 0xCB <==> tag is Literal,
        tag.spec_ctb() == 0xCC <==> tag is Trust,
        tag.spec_ctb() == 0xCD <==> tag is UserID,
        tag.spec_ctb() == 0xCE <==> tag is PublicSubkey,
        tag.spec_ctb() == 0xD1 <==> tag is UserAttribute,
        tag.spec_ctb() == 0xD2 <==> tag is SEIP,
        tag.spec_ctb() == 0xD3 <==> tag is MDC,
        tag.spec_ctb() == 0xD5 <==> tag is Padding,
        tag.spec_number() + 0xC0 == tag.spec_ctb(),
{
}

/// How a length before a body is read: one octet below 192, two octets from 192
/// up to 8383, and else 255 and four octets.
pub proof fn law_body_lengths(n: int)
    requires
        0 <= n < 0x1_0000_0000,
    ensures
        ({
            let s = full_length(n);
            &&& n < 192 <==> s.len() == 1
            &&& 192 <= n < 8384 <==> s.len() == 2
            &&& n >= 8384 <==> s.len() == 5
            &&& n < 192 ==> s[0] == n
            &&& 192 <= n < 8384 ==> 192 <= s[0] < 224 && (s[0] - 192) * 256 + s[1] + 192 == n
            &&& n >= 8384 ==> s[0] == 255 && s[1] * 0x100_0000 + s[2] * 0x1_0000 + s[3] * 0x100
                + s[4] == n
        }),
{
    if n >= 8384 {
        lemma_four_octets(n);
        let s = full_length(n);
        assert(s[1] == be32(n)[0]);
        assert(s[2] == be32(n)[1]);
        assert(s[3] == be32(n)[2]);
        assert(s[4] == be32(n)[3]);
    }
}

/// How the length of a subpacket is read: one octet below 192, two octets from
/// 192 up to 16319, and else 255 and four octets.
pub proof fn law_subpacket_lengths(n: int)
    requires
        0 <= n < 0x1_0000_0000,
    ensures
        ({
            let s = subpacket_length(n);
            &&& n < 192 <==> s.len() == 1
            &&& 192 <= n < 16320 <==> s.len() == 2
            &&& n >= 16320 <==> s.len() == 5
            &&& n < 192 ==> s[0] == n
            &&& 192 <= n < 16320 ==> 192 <= s[0] < 255 && (s[0] - 192) * 256 + s[1] + 192 == n
            &&& n >= 16320 ==> s[0] == 255 && s[1] * 0x100_0000 + s[2] * 0x1_0000 + s[3] * 0x100
                + s[4] == n
        }),
{
    if n >= 16320 {
        lemma_four_octets(n);
        let s = subpacket_length(n);
        assert(s[1] == be32(n)[0]);
        assert(s[2] == be32(n)[1]);
        assert(s[3] == be32(n)[2]);
        assert(s[4] == be32(n)[3]);
    }
}

/// A packet is its first octet, the length of its body, and its body.
pub proof fn law_packet_layout(tag: Tag, body: Seq<u8>)
    requires
        body.len() < 0x1_0000_0000,
    ensures
        ({
            let p = packet(tag, body);
            let k = if body.len() < 192 {
                1int
            } else if body.len() < 8384 {
                2
            } else {
                5
            };
            &&& p.len() == 1 + k + body.len()
            &&& p[0] == tag.spec_ctb()
            &&& p.subrange(1, 1 + k) == full_length(body.len() as int)
            &&& p.skip(1 + k) == body
        }),
{
    law_body_lengths(body.len() as int);
    let p = packet(tag, body);
    let n = full_length(body.len() as int).len() as int;
    assert(p.subrange(1, 1 + n) =~= full_length(body.len() as int));
    assert(p.skip(1 + n) =~= body);
}

/// A body of up to four mebibytes is held back.  Of a longer one a chunk is sent
/// whose length is a power of two, as large as it can be up to two to the power
/// of 30; the octet before it tells the exponent.
pub proof fn law_partial_bodies(pending: Seq<u8>)
    ensures
        pending.len() <= 0x40_0000 ==> chunks_out(pending) == Seq::<u8>::empty() && chunks_rest(
            pending,
        ) == pending,
        pending.len() > 0x40_0000 ==> exists|k: nat|
            {
                &&& 22 <= k <= 30
                &&& #[trigger] pow2(k) <= pending.len()
                &&& k < 30 ==> pending.len() < 2 * pow2(k)
                &&& chunks_out(pending) == seq![(224 + k) as u8] + pending.take(pow2(k) as int)
                    + chunks_out(pending.skip(pow2(k) as int))
                &&& chunks_rest(pending) == chunks_rest(pending.skip(pow2(k) as int))
            },
{
    lemma2_to64();
    if pending.len() > 0x40_0000 {
        let k = chunk_log2(pending.len() as int);
        lemma_chunk_size(k);
        assert(pow2(k as nat) <= pending.len());
    }
}

proof fn lemma_chunk_size(k: int)
    requires
        22 <= k <= 30,
    ensures
        chunk_size(k) == pow2(k as nat),
{
    lemma2_to64();
    if k == 22 {
    } else if k == 23 {
    } else if k == 24 {
    } else if k == 25 {
    } else if k == 26 {
    } else if k == 27 {
    } else if k == 28 {
    } else if k == 29 {
    } else {
    }
}

/// Symmetric algorithms are told by these octets, and have keys and blocks of
/// these lengths.
pub proof fn law_symmetric_algorithms(a: SymmetricAlgorithm)
    ensures
        a matches SymmetricAlgorithm::Private(n) ==> a.spec_octet() == n,
        a matches SymmetricAlgorithm::Unknown(n) ==> a.spec_octet() == n,
        !(a is Private) && !(a is Unknown) ==> {
            &&& a.spec_octet() == 0 <==> a is Unencrypted
            &&& a.spec_octet() == 1 <==> a is IDEA
            &&& a.spec_octet() == 2 <==> a is TripleDES
            &&& a.spec_octet() == 3 <==> a is CAST5
            &&& a.spec_octet() == 4 <==> a is Blowfish
            &&& a.spec_octet() == 7 <==> a is AES128
            &&& a.spec_octet() == 8 <==> a is AES192
            &&& a.spec_octet() == 9 <==> a is AES256
            &&& a.spec_octet() == 10 <==> a is Twofish
            &&& a.spec_octet() == 11 <==> a is Camellia128
            &&& a.spec_octet() == 12 <==> a is Camellia192
            &&& a.spec_octet() == 13 <==> a is Camellia256
        },
        a.spec_key_size() == Some(16nat) <==> a is IDEA || a is CAST5 || a is Blowfish || a is AES128
            || a is Camellia128,
        a.spec_key_size() == Some(24nat) <==> a is TripleDES || a is AES192 || a is Camellia192,
        a.spec_key_size() == Some(32nat) <==> a is AES256 || a is Twofish || a is Camellia256,
        a.spec_key_size() is None <==> a is Unencrypted || a is Private || a is Unknown,
        a.spec_block_size() == Some(8nat) <==> a is IDEA || a is TripleDES || a is CAST5
            || a is Blowfish,
        a.spec_block_size() == Some(16nat) <==> a is AES128 || a is AES192 || a is AES256
            || a is Twofish || a is Camellia128 || a is Camellia192 || a is Camellia256,
        a.spec_block_size() is None <==> a.spec_key_size() is None,
{
}

/// The ciphers in feedback mode that OpenSSL has by these numbers.
pub proof fn law_feedback_ciphers(a: SymmetricAlgorithm)
    ensures
        a.spec_cfb_nid() == Some(35int) <==> a is IDEA,
        a.spec_cfb_nid() == Some(61int) <==> a is TripleDES,
        a.spec_cfb_nid() == Some(110int) <==> a is CAST5,
        a.spec_cfb_nid() == Some(93int) <==> a is Blowfish,
        a.spec_cfb_nid() == Some(421int) <==> a is AES128,
        a.spec_cfb_nid() == Some(425int) <==> a is AES192,
        a.spec_cfb_nid() == Some(429int) <==> a is AES256,
        a.spec_cfb_nid() == Some(757int) <==> a is Camellia128,
        a.spec_cfb_nid() == Some(758int) <==> a is Camellia192,
        a.spec_cfb_nid() == Some(759int) <==> a is Camellia256,
        a.spec_cfb_nid() is None <==> a is Unencrypted || a is Twofish || a is Private
            || a is Unknown,
{
}

/// Modes of authenticated encryption are told by these octets, and have nonces
/// of these lengths; OpenSSL has two of them with AES, by these numbers.
pub proof fn law_modes(m: AEADAlgorithm, a: SymmetricAlgorithm)
    ensures
        m matches AEADAlgorithm::Private(n) ==> m.spec_octet() == n,
        m matches AEADAlgorithm::Unknown(n) ==> m.spec_octet() == n,
        !(m is Private) && !(m is Unknown) ==> {
            &&& m.spec_octet() == 1 <==> m is EAX
            &&& m.spec_octet() == 2 <==> m is OCB
            &&& m.spec_octet() == 3 <==> m is GCM
        },
        m.spec_nonce_size() == Some(16nat) <==> m is EAX,
        m.spec_nonce_size() == Some(15nat) <==> m is OCB,
        m.spec_nonce_size() == Some(12nat) <==> m is GCM,
        m.spec_nonce_size() is None <==> m is Private || m is Unknown,
        m.spec_nid(a) == Some(958int) <==> m is OCB && a is AES128,
        m.spec_nid(a) == Some(959int) <==> m is OCB && a is AES192,
        m.spec_nid(a) == Some(960int) <==> m is OCB && a is AES256,
        m.spec_nid(a) == Some(895int) <==> m is GCM && a is AES128,
        m.spec_nid(a) == Some(898int) <==> m is GCM && a is AES192,
        m.spec_nid(a) == Some(901int) <==> m is GCM && a is AES256,
        m.spec_nid(a) is Some <==> (m is OCB || m is GCM) && (a is AES128 || a is AES192
            || a is AES256),
{
}

/// Two known symmetric algorithms, or modes, with the same octet are the same.
pub proof fn law_octets_tell_algorithms(
    a: SymmetricAlgorithm,
    b: SymmetricAlgorithm,
    m: AEADAlgorithm,
    n: AEADAlgorithm,
)
    requires
        a.spec_octet() == b.spec_octet(),
        m.spec_octet() == n.spec_octet(),
        a.spec_key_size() is Some,
        b.spec_key_size() is Some,
        m.spec_nonce_size() is Some,
        n.spec_nonce_size() is Some,
    ensures
        a == b,
        m == n,
{
}

/// Hash algorithms are told by these octets and names, and salts of these lengths
/// go with them; OpenSSL has them by these numbers.
pub proof fn law_hash_algorithms(h: HashAlgorithm)
    ensures
        h matches HashAlgorithm::Private(n) ==> h.spec_octet() == n,
        h matches HashAlgorithm::Unknown(n) ==> h.spec_octet() == n,
        !(h is Private) && !(h is Unknown) ==> {
            &&& h.spec_octet() == 1 <==> h is MD5
            &&& h.spec_octet() == 2 <==> h is SHA1
            &&& h.spec_octet() == 3 <==> h is RipeMD
            &&& h.spec_octet() == 8 <==> h is SHA256
            &&& h.spec_octet() == 9 <==> h is SHA384
            &&& h.spec_octet() == 10 <==> h is SHA512
            &&& h.spec_octet() == 11 <==> h is SHA224
            &&& h.spec_octet() == 12 <==> h is SHA3_256
            &&& h.spec_octet() == 14 <==> h is SHA3_512
        },
        h.spec_salt_size() == Some(16nat) <==> h is SHA224 || h is SHA256 || h is SHA3_256,
        h.spec_salt_size() == Some(24nat) <==> h is SHA384,
        h.spec_salt_size() == Some(32nat) <==> h is SHA512 || h is SHA3_512,
        h.spec_salt_size() is None <==> h is MD5 || h is SHA1 || h is RipeMD || h is Private
            || h is Unknown,
        h.spec_nid() == Some(4int) <==> h is MD5,
        h.spec_nid() == Some(64int) <==> h is SHA1,
        h.spec_nid() == Some(117int) <==> h is RipeMD,
        h.spec_nid() == Some(672int) <==> h is SHA256,
        h.spec_nid() == Some(673int) <==> h is SHA384,
        h.spec_nid() == Some(674int) <==> h is SHA512,
        h.spec_nid() == Some(675int) <==> h is SHA224,
        h.spec_nid() == Some(1097int) <==> h is SHA3_256,
        h.spec_nid() == Some(1099int) <==> h is SHA3_512,
        h.spec_nid() is None <==> h is Private || h is Unknown,
        h is MD5 ==> h.spec_text_name() == Some("MD5"@),
        h is SHA1 ==> h.spec_text_name() == Some("SHA1"@),
        h is RipeMD ==> h.spec_text_name() == Some("RIPEMD160"@),
        h is SHA256 ==> h.spec_text_name() == Some("SHA256"@),
        h is SHA384 ==> h.spec_text_name() == Some("SHA384"@),
        h is SHA512 ==> h.spec_text_name() == Some("SHA512"@),
        h is SHA224 ==> h.spec_text_name() == Some("SHA224"@),
        h is SHA3_256 ==> h.spec_text_name() == Some("SHA3-256"@),
        h is SHA3_512 ==> h.spec_text_name() == Some("SHA3-512"@),
        h.spec_text_name() is None <==> h is Private || h is Unknown,
{
}

/// Compression algorithms, formats of literal data and types of signatures are
/// told by these octets.
pub proof fn law_other_octets(c: CompressionAlgorithm, f: DataFormat, t: SignatureType)
    ensures
        c matches CompressionAlgorithm::Private(n) ==> c.spec_octet() == n,
        c matches CompressionAlgorithm::Unknown(n) ==> c.spec_octet() == n,
        !(c is Private) && !(c is Unknown) ==> {
            &&& c.spec_octet() == 0 <==> c is Uncompressed
            &&& c.spec_octet() == 1 <==> c is Zip
            &&& c.spec_octet() == 2 <==> c is Zlib
            &&& c.spec_octet() == 3 <==> c is BZip2
        },
        f matches DataFormat::Unknown(n) ==> f.spec_octet() == n,
        !(f is Unknown) ==> {
            &&& f.spec_octet() == 0x62 <==> f is Binary
            &&& f.spec_octet() == 0x74 <==> f is Text
            &&& f.spec_octet() == 0x75 <==> f is Unicode
        },
        t matches SignatureType::Unknown(n) ==> t.spec_octet() == n,
        !(t is Unknown) ==> {
            &&& t.spec_octet() == 0x00 <==> t is Binary
            &&& t.spec_octet() == 0x01 <==> t is Text
            &&& t.spec_octet() == 0x02 <==> t is Standalone
        },
{
}

/// Public key algorithms are told by these octets.
pub proof fn law_public_key_algorithms(p: PublicKeyAlgorithm, key: PublicKeyView)
    ensures
        p matches PublicKeyAlgorithm::Unknown(n) ==> p.spec_octet() == n,
        !(p is Unknown) ==> {
            &&& p.spec_octet() == 1 <==> p is RSAEncryptSign
            &&& p.spec_octet() == 16 <==> p is ElGamalEncrypt
            &&& p.spec_octet() == 17 <==> p is DSA
            &&& p.spec_octet() == 18 <==> p is ECDH
            &&& p.spec_octet() == 19 <==> p is ECDSA
            &&& p.spec_octet() == 22 <==> p is EdDSA
            &&& p.spec_octet() == 25 <==> p is X25519
            &&& p.spec_octet() == 26 <==> p is X448
            &&& p.spec_octet() == 27 <==> p is Ed25519
            &&& p.spec_octet() == 28 <==> p is Ed448
        },
        key is RSA ==> key.algo() is RSAEncryptSign,
        key is X25519 ==> key.algo() is X25519,
        key is ECDH ==> key.algo() is ECDH,
        key matches PublicKeyView::Other { algo } ==> key.algo() == algo,
{
}

/// Curves are told by these object identifiers; OpenSSL has their groups by these
/// numbers.
pub proof fn law_curves(c: Curve)
    ensures
        c is NistP256 ==> c@ == seq![0x2au8, 0x86, 0x48, 0xce, 0x3d, 0x03, 0x01, 0x07]
            && c.spec_nid() == Some(415int),
        c is NistP384 ==> c@ == seq![0x2bu8, 0x81, 0x04, 0x00, 0x22] && c.spec_nid() == Some(715int),
        c is NistP521 ==> c@ == seq![0x2bu8, 0x81, 0x04, 0x00, 0x23] && c.spec_nid() == Some(716int),
        c is BrainpoolP256 ==> c@ == seq![0x2bu8, 0x24, 0x03, 0x03, 0x02, 0x08, 0x01, 0x01, 0x07]
            && c.spec_nid() == Some(927int),
        c is BrainpoolP384 ==> c@ == seq![0x2bu8, 0x24, 0x03, 0x03, 0x02, 0x08, 0x01, 0x01, 0x0b]
            && c.spec_nid() == Some(931int),
        c is BrainpoolP512 ==> c@ == seq![0x2bu8, 0x24, 0x03, 0x03, 0x02, 0x08, 0x01, 0x01, 0x0d]
            && c.spec_nid() == Some(933int),
        c is Ed25519 ==> c@ == seq![0x2bu8, 0x06, 0x01, 0x04, 0x01, 0xda, 0x47, 0x0f, 0x01]
            && c.spec_nid() is None,
        c is Cv25519 ==> c@ == seq![0x2bu8, 0x06, 0x01, 0x04, 0x01, 0x97, 0x55, 0x01, 0x05, 0x01]
            && c.spec_nid() is None,
        c matches Curve::Unknown(oid) ==> c@ == oid@ && c.spec_nid() == if oid@ == seq![
            0x2bu8,
            0x81,
            0x04,
            0x00,
            0x0a,
        ] {
            Some(714int)
        } else {
            None
        },
{
}

/// The octet for the length of chunks, and that for the number of octets that are
/// hashed for a password, are read like this.
pub proof fn law_coded_lengths()
    ensures
        AEAD_CHUNK_SIZE == pow2((AEAD_CHUNK_OCTET + 6) as nat),
        AEAD_CHUNK_SIZE == 4096,
        S2K_COUNT == (16 + S2K_CODED_COUNT % 16) * pow2((S2K_CODED_COUNT / 16 + 6) as nat),
        S2K_COUNT == 65011712,
{
    lemma2_to64();
    let n = (S2K_CODED_COUNT / 16 + 6) as nat;
    assert(n == 21);
    assert(pow2(n) == 0x20_0000);
    assert((16 + S2K_CODED_COUNT % 16) * pow2(n) == 31 * 0x20_0000);
}

/// The key ID of a version 4 key is the end of its fingerprint, that of a version
/// 6 key the start.
pub proof fn law_key_ids(fp: FingerprintView)
    requires
        fp.version == 4 && fp.octets.len() == 20 || fp.version == 6 && fp.octets.len() == 32,
    ensures
        fp.keyid().len() == 8,
        forall|i: int|
            0 <= i < 8 ==> #[trigger] fp.keyid()[i] == fp.octets[if fp.version == 4 {
                12 + i
            } else {
                i
            }],
{
}

#[verifier::spinoff_prover]
#[verifier::rlimit(40)]
proof fn lemma_number_split(s: Seq<u8>)
    requires
        s.len() > 0,
    ensures
        number(s) == s[0] * pow2((8 * (s.len() - 1)) as nat) + number(s.skip(1)),
        number(s.skip(1)) < pow2((8 * (s.len() - 1)) as nat),
    decreases s.len(),
{
    lemma2_to64();
    if s.len() == 1 {
        assert(s.drop_last() =~= Seq::<u8>::empty());
        assert(s.skip(1) =~= Seq::<u8>::empty());
        assert(number(s.drop_last()) == 0);
        let p = pow2((8 * (s.len() - 1)) as nat) as int;
        assert(p == 1);
        assert(s[0] * p == s[0]) by (nonlinear_arith)
            requires
                p == 1,
        ;
    } else {
        let init = s.drop_last();
        lemma_number_split(init);
        assert(s.skip(1).drop_last() =~= init.skip(1));
        assert(s.skip(1).last() == s.last());
        let n = (8 * (s.len() - 1)) as nat;
        let m = (8 * (s.len() - 2)) as nat;
        vstd::arithmetic::power2::lemma_pow2_adds(m, 8);
        assert(pow2(n) == pow2(m) * 256);
        assert(number(s) == number(init) * 256 + s.last());
        let a = s[0] as int;
        let p = pow2(m) as int;
        let r = number(init.skip(1)) as int;
        assert((a * p + r) * 256 == a * (p * 256) + r * 256) by (nonlinear_arith);
        assert(number(s.skip(1)) == r * 256 + s.last());
        assert(r * 256 + s.last() < p * 256) by (nonlinear_arith)
            requires
                r < p,
                s.last() < 256,
        ;
    }
}

/// A multiprecision integer is the number of its bits in two octets, and the
/// number in as many octets as it takes.
#[verifier::spinoff_prover]
#[verifier::rlimit(40)]
pub proof fn law_multiprecision_integers(s: Seq<u8>)
    requires
        mpi_fits(s),
    ensures
        ({
            let m = mpi(s);
            let n = m[0] * 0x100 + m[1];
            &&& m.len() == 2 + (n + 7) / 8
            &&& number(m.skip(2)) == number(s)
            &&& number(s) < pow2(n as nat)
            &&& n > 0 ==> number(s) >= pow2((n - 1) as nat)
        }),
{
    let v = strip_zeros(s);
    let n = bits(v);
    let m = mpi(s);
    lemma_number_stripped(s);
    law_network_order(n);
    assert(m.skip(2) =~= v);
    lemma2_to64();
    if v.len() > 0 {
        let b = octet_bits(v[0]);
        let k = (8 * (v.len() - 1)) as nat;
        lemma_number_split(v);
        vstd::arithmetic::power2::lemma_pow2_adds(k, b as nat);
        vstd::arithmetic::power2::lemma_pow2_adds(k, (b - 1) as nat);
        let p = pow2(k) as int;
        let a = v[0] as int;
        let r = number(v.skip(1)) as int;
        assert(pow2(b as nat) >= a + 1);
        assert(pow2((b - 1) as nat) <= a);
        assert(a * p + r < p * pow2(b as nat)) by (nonlinear_arith)
            requires
                r < p,
                a + 1 <= pow2(b as nat),
                p >= 0,
        ;
        assert(p * pow2((b - 1) as nat) <= a * p + r) by (nonlinear_arith)
            requires
                r >= 0,
                pow2((b - 1) as nat) <= a,
                p >= 0,
        ;
        assert(n == k + b);
    } else {
        assert(number(v) == 0);
    }
}

/// Several multiprecision integers stand one after the other.
pub proof fn law_several_integers(a: Seq<Seq<u8>>, b: Seq<Seq<u8>>, s: Seq<u8>)
    ensures
        mpis(seq![s]) == mpi(s),
        mpis(a + b) == mpis(a) + mpis(b),
    decreases b.len(),
{
    assert(seq![s].drop_last() =~= Seq::<Seq<u8>>::empty());
    assert(mpis(seq![s].drop_last()) =~= Seq::<u8>::empty());
    assert(mpis(seq![s]) =~= mpi(s));
    if b.len() == 0 {
        assert(a + b =~= a);
        assert(mpis(a) + mpis(b) =~= mpis(a));
    } else {
        law_several_integers(a, b.drop_last(), s);
        assert((a + b).drop_last() =~= a + b.drop_last());
        assert((mpis(a) + mpis(b.drop_last())) + mpi(b.last()) =~= mpis(a) + mpis(b));
    }
}

} // verus!
