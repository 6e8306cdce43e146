//! Laws on what stands where in the packets of an encrypted message, and on how
//! the keys are derived that they are encrypted with.

use vstd::arithmetic::power2::pow2;
use vstd::prelude::*;

use crate::backend::{cfb, digest, hkdf, sealed, unsealed};
use crate::bytes::{be16, be32, be64, text};
use crate::cipher::{seip2_aad, zeros, AeadView, CfbView, AEAD_CHUNK_SIZE};
use crate::ecdh::{kdf_param, kek, pad};
use crate::encryptor::{DrawsView, EncryptorView};
use crate::esk::{
    ciphertext_octets, octet_sum, payload, pkesk3, pkesk3_body, pkesk6, pkesk6_body, skesk4, skesk6,
    skesk6_aad, skesk6_body, skesk6_opens,
};
use crate::framing::{full_length, joined, lemma_unframe_full, packet, unframe, Tag};
use crate::hashing::{cycled, hash_of, s2k, s2k_specifier};
use crate::key::{mpi, number, CiphertextView, FingerprintView, KeyHandleView, KeyView};
use crate::laws::packet_pieces;
use crate::octets::{
    law_coded_lengths, law_first_octets, law_key_ids, law_numbers_are_read,
    law_octets_tell_algorithms,
};
use crate::opening::{aead_pieces, law_seip2_message, seip2_writes};
use crate::pk::x25519_kek;
use crate::stack::{feed_all, finalizes_to, mdc_packet, Cookie, FilterView, LayerView};
use crate::stream::LiteralView;
use crate::types::{AEADAlgorithm, HashAlgorithm, SymmetricAlgorithm};

verus! {

/// The sum of octets that the checksum of a session key comes from.
pub proof fn law_octet_sums(a: Seq<u8>, b: Seq<u8>, x: u8)
    ensures
        octet_sum(Seq::empty()) == 0,
        octet_sum(seq![x]) == x,
        octet_sum(a + b) == octet_sum(a) + octet_sum(b),
        octet_sum(a) >= 0,
    decreases a.len() + b.len(),
{
    assert(seq![x].drop_last() =~= Seq::<u8>::empty());
    assert(octet_sum(seq![x].drop_last()) == 0);
    if a.len() > 0 {
        law_octet_sums(a.drop_last(), Seq::empty(), x);
    }
    if b.len() == 0 {
        assert(a + b =~= a);
    } else {
        law_octet_sums(a, b.drop_last(), x);
        assert((a + b).drop_last() =~= a + b.drop_last());
    }
}

/// What is encrypted for a recipient: the octet of the algorithm, where that is
/// told, the session key, and the sum of its octets in two octets.
pub proof fn law_payload_layout(algo: Option<SymmetricAlgorithm>, sk: Seq<u8>)
    ensures
        ({
            let p = payload(algo, sk);
            let k = if algo is Some {
                1int
            } else {
                0
            };
            let n = sk.len() as int;
            &&& p.len() == k + n + 2
            &&& algo matches Some(a) ==> p[0] == a.spec_octet()
            &&& p.subrange(k, k + n) == sk
            &&& number(p.skip(k + n)) == octet_sum(sk) % 65536
        }),
{
    let p = payload(algo, sk);
    let k = if algo is Some {
        1int
    } else {
        0
    };
    let n = sk.len() as int;
    law_octet_sums(sk, sk, 0);
    law_numbers_are_read(octet_sum(sk) % 65536);
    assert(p.subrange(k, k + n) =~= sk);
    assert(p.skip(k + n) =~= be16(octet_sum(sk) % 65536));
}

/// What stands where in an encrypted session key: the octet of the algorithm, and
/// with RSA the number; with ECDH the ephemeral point as a number, and the wrapped
/// key with its length; with X25519 the ephemeral key, and the wrapped key with
/// its length, which counts the octet of the symmetric algorithm where that is
/// told before it.
#[verifier::spinoff_prover]
#[verifier::rlimit(40)]
pub proof fn law_ciphertext_layout(algo: Option<SymmetricAlgorithm>, c: CiphertextView)
    ensures
        ({
            let o = ciphertext_octets(algo, c);
            match c {
                CiphertextView::RSA { c } => o.len() > 0 && o[0] == 1 && o.skip(1) == mpi(c),
                CiphertextView::ECDH { e, key } => {
                    let m = mpi(e).len() as int;
                    &&& o.len() == 2 + m + key.len()
                    &&& o[0] == 18
                    &&& o.subrange(1, 1 + m) == mpi(e)
                    &&& key.len() <= 255 ==> o[1 + m] == key.len()
                    &&& o.skip(2 + m) == key
                },
                CiphertextView::X25519 { e, key } => {
                    let m = e.len() as int;
                    &&& o[0] == 25
                    &&& o.subrange(1, 1 + m) == e
                    &&& key.len() < 255 ==> match algo {
                        Some(a) => o[1 + m] == key.len() + 1 && o[2 + m] == a.spec_octet() && o.skip(
                            3 + m,
                        ) == key,
                        None => o[1 + m] == key.len() && o.skip(2 + m) == key,
                    }
                },
            }
        }),
{
    let o = ciphertext_octets(algo, c);
    match c {
        CiphertextView::RSA { c } => {
            assert(o.skip(1) =~= mpi(c));
        },
        CiphertextView::ECDH { e, key } => {
            let m = mpi(e).len() as int;
            assert(o.subrange(1, 1 + m) =~= mpi(e));
            assert(o.skip(2 + m) =~= key);
        },
        CiphertextView::X25519 { e, key } => {
            let m = e.len() as int;
            assert(o.subrange(1, 1 + m) =~= e);
            match algo {
                Some(_) => assert(o.skip(3 + m) =~= key),
                None => assert(o.skip(2 + m) =~= key),
            }
        },
    }
}

/// The body of a packet, as it is read.
proof fn lemma_packet_body(tag: Tag, body: Seq<u8>)
    requires
        body.len() <= u32::MAX,
    ensures
        packet(tag, body)[0] == tag.spec_ctb(),
        unframe(packet(tag, body).skip(1)) == Some(body),
{
    lemma_unframe_full(body);
    assert(packet(tag, body).skip(1) =~= full_length(body.len() as int) + body);
}

/// What stands where in a packet of version 3 for a recipient: the version, the
/// key ID, or zeros if the recipient is not named, and the encrypted session key.
#[verifier::spinoff_prover]
#[verifier::rlimit(40)]
pub proof fn law_packet_for_recipient3(
    handle: Option<KeyHandleView>,
    algo: SymmetricAlgorithm,
    c: CiphertextView,
)
    requires
        handle matches Some(KeyHandleView::KeyID(id)) ==> id.len() == 8,
        handle matches Some(KeyHandleView::Fingerprint(fp)) ==> (fp.version == 4 && fp.octets.len()
            == 20 || fp.version == 6 && fp.octets.len() == 32),
        pkesk3_body(handle, algo, c).len() <= u32::MAX,
    ensures
        ({
            let p = pkesk3(handle, algo, c);
            &&& p[0] == 0xC1
            &&& unframe(p.skip(1)) matches Some(b) && {
                &&& b[0] == 3
                &&& handle is None ==> b.subrange(1, 9) == seq![0u8, 0, 0, 0, 0, 0, 0, 0]
                &&& handle matches Some(KeyHandleView::KeyID(id)) ==> b.subrange(1, 9) == id
                &&& handle matches Some(KeyHandleView::Fingerprint(fp)) ==> b.subrange(1, 9)
                    == if fp.version == 4 {
                    fp.octets.subrange(12, 20)
                } else {
                    fp.octets.subrange(0, 8)
                }
                &&& b.skip(9) == ciphertext_octets(Some(algo), c)
            }
        }),
{
    let b = pkesk3_body(handle, algo, c);
    law_first_octets(Tag::PKESK);
    lemma_packet_body(Tag::PKESK, b);
    let id = match handle {
        None => zeros(8),
        Some(KeyHandleView::KeyID(id)) => id,
        Some(KeyHandleView::Fingerprint(fp)) => {
            law_key_ids(fp);
            fp.keyid()
        },
    };
    assert(id.len() == 8);
    assert(b.subrange(1, 9) =~= id);
    assert(b.skip(9) =~= ciphertext_octets(Some(algo), c));
    match handle {
        None => assert(zeros(8) =~= seq![0u8, 0, 0, 0, 0, 0, 0, 0]),
        Some(KeyHandleView::KeyID(_)) => {},
        Some(KeyHandleView::Fingerprint(fp)) => if fp.version == 4 {
            assert(fp.keyid() =~= fp.octets.subrange(12, 20));
        } else {
            assert(fp.keyid() =~= fp.octets.subrange(0, 8));
        },
    }
}

/// What stands where in a packet of version 6 for a recipient: the version, the
/// length of what follows up to the algorithm, the version and the octets of the
/// fingerprint, or nothing if the recipient is not named, and the encrypted
/// session key, which does not tell the symmetric algorithm.
pub proof fn law_packet_for_recipient6(fingerprint: Option<FingerprintView>, c: CiphertextView)
    requires
        fingerprint matches Some(fp) ==> fp.octets.len() < 255,
        pkesk6_body(fingerprint, c).len() <= u32::MAX,
    ensures
        ({
            let p = pkesk6(
                match fingerprint {
                    Some(fp) => Some(KeyHandleView::Fingerprint(fp)),
                    None => None,
                },
                c,
            );
            &&& p[0] == 0xC1
            &&& unframe(p.skip(1)) matches Some(b) && {
                &&& b[0] == 6
                &&& fingerprint is None ==> b[1] == 0 && b.skip(2) == ciphertext_octets(None, c)
                &&& fingerprint matches Some(fp) ==> {
                    let n = fp.octets.len() as int;
                    &&& b[1] == n + 1
                    &&& b[2] == fp.version
                    &&& b.subrange(3, 3 + n) == fp.octets
                    &&& b.skip(3 + n) == ciphertext_octets(None, c)
                }
            }
        }),
{
    let b = pkesk6_body(fingerprint, c);
    law_first_octets(Tag::PKESK);
    lemma_packet_body(Tag::PKESK, b);
    match fingerprint {
        None => assert(b.skip(2) =~= ciphertext_octets(None, c)),
        Some(fp) => {
            let n = fp.octets.len() as int;
            assert(b.subrange(3, 3 + n) =~= fp.octets);
            assert(b.skip(3 + n) =~= ciphertext_octets(None, c));
        },
    }
}

/// There is a packet for each recipient and for each password, in their order, of
/// the version that goes with the version of the encrypted data packet.
pub proof fn law_a_packet_for_everyone(v: EncryptorView, draws: DrawsView, i: int)
    ensures
        v.pkesks(draws).len() == v.recipients.len(),
        v.skesks(draws).len() == v.passwords.len(),
        0 <= i < v.recipients.len() ==> v.pkesks(draws)[i] == if v.aead() is Some {
            pkesk6(v.recipients[i].handle, draws.ciphertexts[i])
        } else {
            pkesk3(v.recipients[i].handle, v.sym_algo, draws.ciphertexts[i])
        },
        0 <= i < v.passwords.len() ==> v.skesks(draws)[i] == match v.aead() {
            Some(aead) => skesk6(
                v.sym_algo,
                aead,
                draws.s2k_salts[i],
                draws.nonces[i],
                v.passwords[i],
                v.key(draws),
            ),
            None => skesk4(v.sym_algo, draws.s2k_salts[i], v.passwords[i], v.key(draws)),
        },
        v.key(draws) == match v.session_key {
            Some(sk) => sk,
            None => draws.session_key,
        },
{
}

/// Version 2 of the encrypted data packet is made if and only if a mode was
/// selected, or there is a recipient and each of them understands it; then the
/// mode is OCB.  The packets for recipients tell the algorithm only in version 1.
pub proof fn law_which_version(v: EncryptorView)
    ensures
        v.aead_algo matches Some(m) ==> v.aead() == Some(m),
        v.aead_algo is None ==> {
            &&& v.aead() is None || v.aead() == Some(AEADAlgorithm::OCB)
            &&& v.recipients.len() == 0 ==> v.aead() is None
            &&& forall|i: int|
                0 <= i < v.recipients.len() && !(#[trigger] v.recipients[i]).features.seipdv2
                    ==> v.aead() is None
            &&& v.recipients.len() > 0 && v.aead() is None ==> exists|i: int|
                0 <= i < v.recipients.len() && !(#[trigger] v.recipients[i]).features.seipdv2
        },
        v.aead() is Some ==> v.told_algo() is None,
        v.aead() is None ==> v.told_algo() == Some(v.sym_algo),
{
}

/// What is hashed for a password: the salt and the password, over and over, up to
/// 65011712 octets, or all of it once if that is more.
#[verifier::spinoff_prover]
#[verifier::rlimit(40)]
pub proof fn law_password_is_hashed_over_and_over(
    salt: Seq<u8>,
    password: Seq<u8>,
    k: int,
    d: Seq<u8>,
)
    requires
        salt.len() == 8,
        d.len() == if 8 + password.len() < 65011712 {
            65011712
        } else {
            8 + password.len()
        },
        d.take(8) == salt,
        d.subrange(8, 8int + password.len()) == password,
        forall|i: int| 8 + password.len() <= i < d.len() ==> #[trigger] d[i] == d[i - 8
            - password.len()],
    ensures
        s2k(salt, password, k) == digest(672, d).take(k),
{
    let s = salt + password;
    let n = s.len() as int;
    assert forall|i: int| 0 <= i < n implies #[trigger] d[i] == s[i] by {
        if i < 8 {
            assert(d.take(8)[i] == d[i]);
        } else {
            assert(d.subrange(8, 8int + password.len())[i - 8] == d[i]);
        }
    }
    assert forall|i: int| 0 <= i < d.len() implies #[trigger] d[i] == s[i % n] by {
        lemma_over_and_over(s, d, i);
    }
    assert(d =~= cycled(s, d.len() as int));
}

proof fn lemma_over_and_over(s: Seq<u8>, d: Seq<u8>, i: int)
    requires
        0 < s.len(),
        0 <= i < d.len(),
        forall|i: int| 0 <= i < s.len() && i < d.len() ==> #[trigger] d[i] == s[i],
        forall|i: int| s.len() <= i < d.len() ==> #[trigger] d[i] == d[i - s.len()],
    ensures
        d[i] == s[i % (s.len() as int)],
    decreases i,
{
    let n = s.len() as int;
    if i < n {
        vstd::arithmetic::div_mod::lemma_small_mod(i as nat, n as nat);
    } else {
        lemma_over_and_over(s, d, i - n);
        vstd::arithmetic::div_mod::lemma_mod_sub_multiples_vanish(i, n);
    }
}

/// How a password is used, as it stands in a packet: the iterated and salted
/// method, SHA-256, the salt, and the coded number of octets.
pub proof fn law_specifier_layout(salt: Seq<u8>)
    requires
        salt.len() == 8,
    ensures
        ({
            let s = s2k_specifier(salt);
            &&& s.len() == 11
            &&& s[0] == 3
            &&& s[1] == 8
            &&& s.subrange(2, 10) == salt
            &&& s[10] == 255
        }),
{
    assert(s2k_specifier(salt).subrange(2, 10) =~= salt);
}

/// What stands where in a packet of version 4 for a password: the version, the
/// algorithm, how the password is used, and the encryption in feedback mode of
/// the octet of the algorithm and of the session key.
#[verifier::rlimit(40)]
#[verifier::spinoff_prover]
pub proof fn law_packet_for_password4(
    algo: SymmetricAlgorithm,
    salt: Seq<u8>,
    password: Seq<u8>,
    sk: Seq<u8>,
)
    requires
        salt.len() == 8,
        algo.spec_key_size() is Some,
        algo.spec_block_size() is Some,
        skesk4(algo, salt, password, sk).len() <= 0xFFFF,
    ensures
        ({
            let p = skesk4(algo, salt, password, sk);
            let k = algo.spec_key_size()->0 as int;
            &&& p[0] == 0xC3
            &&& unframe(p.skip(1)) matches Some(b) && {
                &&& b[0] == 4
                &&& b[1] == algo.spec_octet()
                &&& b[2] == 3
                &&& b[3] == 8
                &&& b.subrange(4, 12) == salt
                &&& b[12] == 255
                &&& b.skip(13) == cfb(
                    algo.spec_cfb_nid()->0,
                    s2k(salt, password, k),
                    Seq::new(algo.spec_block_size()->0, |i: int| 0u8),
                    seq![algo.spec_octet()] + sk,
                )
            }
        }),
{
    let p = skesk4(algo, salt, password, sk);
    let k = algo.spec_key_size()->0 as int;
    let c = CfbView { algo, key: s2k(salt, password, k), data: seq![algo.spec_octet()] + sk };
    let b = seq![4u8, algo.spec_octet()] + s2k_specifier(salt) + c.sent();
    law_first_octets(Tag::SKESK);
    law_specifier_layout(salt);
    assert(p == packet(Tag::SKESK, b));
    lemma_packet_body(Tag::SKESK, b);
    let s = s2k_specifier(salt);
    assert(b[2] == s[0]);
    assert(b[3] == s[1]);
    assert(b[12] == s[10]);
    assert(b.subrange(4, 12) =~= s.subrange(2, 10));
    assert(b.skip(13) =~= c.sent());
    assert(zeros(algo.spec_block_size()->0 as int) =~= Seq::new(
        algo.spec_block_size()->0,
        |i: int| 0u8,
    ));
}

/// What stands where in a packet of version 6 for a password: the version, the
/// length of what follows up to the encrypted session key, the algorithms, how
/// the password is used with its length, the nonce, and the session key, which is
/// encrypted under a key that is derived from the password, the octet of the
/// packet, and the version and the algorithms as they stand in it; these octets
/// are authenticated, too.
#[verifier::rlimit(60)]
#[verifier::spinoff_prover]
pub proof fn law_packet_for_password6(
    algo: SymmetricAlgorithm,
    aead: AEADAlgorithm,
    salt: Seq<u8>,
    nonce: Seq<u8>,
    password: Seq<u8>,
    sk: Seq<u8>,
)
    requires
        salt.len() == 8,
        nonce.len() <= 16,
        skesk6(algo, aead, salt, nonce, password, sk).len() <= 0xFFFF,
        skesk6_opens(algo, aead, salt, nonce, password, sk),
    ensures
        ({
            let p = skesk6(algo, aead, salt, nonce, password, sk);
            let k = algo.spec_key_size()->0 as int;
            let n = nonce.len() as int;
            &&& p[0] == 0xC3
            &&& unframe(p.skip(1)) matches Some(b) && {
                let aad = seq![p[0], b[0], b[2], b[3]];
                &&& b[0] == 6
                &&& b[1] == 3 + 11 + n
                &&& b[2] == algo.spec_octet()
                &&& b[3] == aead.spec_octet()
                &&& b[4] == 11
                &&& b[5] == 3
                &&& b[6] == 8
                &&& b.subrange(7, 15) == salt
                &&& b[15] == 255
                &&& b.subrange(16, 16 + n) == nonce
                &&& unsealed(
                    aead.spec_nid(algo)->0,
                    hkdf(s2k(salt, password, k), Seq::empty(), aad, k)->0,
                    nonce,
                    aad,
                    b.skip(16 + n),
                ) == Some(sk)
            }
        }),
{
    let p = skesk6(algo, aead, salt, nonce, password, sk);
    let k = algo.spec_key_size()->0 as int;
    let n = nonce.len() as int;
    let aad = skesk6_aad(algo, aead);
    let key = hkdf(s2k(salt, password, k), Seq::empty(), aad, k)->0;
    let esk = sealed(aead.spec_nid(algo)->0, key, nonce, aad, sk);
    let b = skesk6_body(algo, aead, salt, nonce, esk);
    let s = s2k_specifier(salt);
    law_first_octets(Tag::SKESK);
    law_specifier_layout(salt);
    assert(p == packet(Tag::SKESK, b));
    lemma_packet_body(Tag::SKESK, b);
    assert(b[5] == s[0]);
    assert(b[6] == s[1]);
    assert(b[15] == s[10]);
    assert(b.subrange(7, 15) =~= s.subrange(2, 10));
    assert(b.subrange(16, 16 + n) =~= nonce);
    assert(b.skip(16 + n) =~= esk);
    assert(seq![p[0], b[0], b[2], b[3]] =~= aad);
}

/// What the key derivation of Elliptic Curve Diffie-Hellman is bound to, read from
/// the front: the length of the identifier of the curve and the identifier, the
/// octet of the algorithm, the parameters of the key derivation as they stand in
/// the public key (their length, a reserved one, the hash algorithm, and then the
/// symmetric algorithm), twenty octets that say `Anonymous Sender`, and the
/// fingerprint of the recipient.
#[verifier::rlimit(40)]
pub proof fn law_key_derivation_parameters(
    curve: Seq<u8>,
    hash: HashAlgorithm,
    sym: SymmetricAlgorithm,
    fingerprint: FingerprintView,
)
    requires
        curve.len() <= 255,
    ensures
        ({
            let p = kdf_param(curve, hash, sym, fingerprint);
            let n = curve.len() as int;
            &&& p.len() == 26 + n + fingerprint.octets.len()
            &&& p[0] == n
            &&& p.subrange(1, 1 + n) == curve
            &&& p[1 + n] == 18
            &&& p[2 + n] == 3
            &&& p[3 + n] == 1
            &&& p[4 + n] == hash.spec_octet()
            &&& p[5 + n] == sym.spec_octet()
            &&& p.subrange(6 + n, 26 + n) == seq![
                0x41u8,
                0x6E,
                0x6F,
                0x6E,
                0x79,
                0x6D,
                0x6F,
                0x75,
                0x73,
                0x20,
                0x53,
                0x65,
                0x6E,
                0x64,
                0x65,
                0x72,
                0x20,
                0x20,
                0x20,
                0x20,
            ]
            &&& p.skip(26 + n) == fingerprint.octets
        }),
{
    let p = kdf_param(curve, hash, sym, fingerprint);
    let n = curve.len() as int;
    let sender = text("Anonymous Sender    ");
    reveal_strlit("Anonymous Sender    ");
    assert(vstd::string::is_ascii("Anonymous Sender    "));
    vstd::string::is_ascii_spec_bytes("Anonymous Sender    ");
    assert(sender.len() == 20);
    assert(p.subrange(1, 1 + n) =~= curve);
    assert(p.subrange(6 + n, 26 + n) =~= sender);
    assert(p.skip(26 + n) =~= fingerprint.octets);
}

/// The key encryption key of Elliptic Curve Diffie-Hellman is the start of the
/// digest of the number one in four octets, the shared secret, and the parameters;
/// it is as long as the keys of the symmetric algorithm.
pub proof fn law_key_encryption_key(key: KeyView, secret: Seq<u8>, d: Seq<u8>)
    requires
        key.mpis is ECDH,
        key.mpis->sym is AES128 || key.mpis->sym is AES192 || key.mpis->sym is AES256,
        d.len() >= 4 + secret.len(),
        d.take(4) == seq![0u8, 0, 0, 1],
        d.subrange(4, 4int + secret.len()) == secret,
        d.skip(4int + secret.len()) == kdf_param(
            key.mpis->curve,
            key.mpis->hash,
            key.mpis->sym,
            key.fingerprint,
        ),
    ensures
        key.mpis->sym is AES128 ==> kek(key, secret) == digest(
            key.mpis->hash.spec_nid()->0,
            d,
        ).take(16),
        key.mpis->sym is AES192 ==> kek(key, secret) == digest(
            key.mpis->hash.spec_nid()->0,
            d,
        ).take(24),
        key.mpis->sym is AES256 ==> kek(key, secret) == digest(
            key.mpis->hash.spec_nid()->0,
            d,
        ).take(32),
{
    let p = kdf_param(key.mpis->curve, key.mpis->hash, key.mpis->sym, key.fingerprint);
    let pre = seq![0u8, 0, 0, 1] + secret + p;
    let n = 4int + secret.len();
    assert(d =~= d.take(4) + d.subrange(4, n) + d.skip(n));
    assert(d =~= pre);
}

/// A session key is padded to forty octets, and every octet of the padding tells
/// its length.
pub proof fn law_padding(sk: Seq<u8>)
    requires
        sk.len() <= 40,
    ensures
        pad(sk).len() == 40,
        pad(sk).take(sk.len() as int) == sk,
        forall|i: int| sk.len() <= i < 40 ==> #[trigger] pad(sk)[i] == 40 - sk.len(),
{
    assert(pad(sk).take(sk.len() as int) =~= sk);
}

/// The key encryption key of X25519 is derived, without a salt, from the ephemeral
/// key, the key of the recipient and the shared secret, and is bound to `OpenPGP
/// X25519`.
#[verifier::spinoff_prover]
#[verifier::rlimit(40)]
pub proof fn law_x25519_key_encryption_key(e: Seq<u8>, u: Seq<u8>, secret: Seq<u8>, d: Seq<u8>)
    requires
        e.len() == 32,
        u.len() == 32,
        d.len() == 64 + secret.len(),
        d.subrange(0, 32) == e,
        d.subrange(32, 64) == u,
        d.skip(64) == secret,
    ensures
        x25519_kek(e, u, secret) == hkdf(
            d,
            Seq::empty(),
            seq![
                0x4Fu8,
                0x70,
                0x65,
                0x6E,
                0x50,
                0x47,
                0x50,
                0x20,
                0x58,
                0x32,
                0x35,
                0x35,
                0x31,
                0x39,
            ],
            16,
        ),
{
    let info = text("OpenPGP X25519");
    reveal_strlit("OpenPGP X25519");
    assert(vstd::string::is_ascii("OpenPGP X25519"));
    vstd::string::is_ascii_spec_bytes("OpenPGP X25519");
    assert(d =~= d.subrange(0, 32) + d.subrange(32, 64) + d.skip(64));
    assert(info =~= seq![
        0x4Fu8,
        0x70,
        0x65,
        0x6E,
        0x50,
        0x47,
        0x50,
        0x20,
        0x58,
        0x32,
        0x35,
        0x35,
        0x31,
        0x39,
    ]);
}

/// Digests are those of the library, of exactly the data.
pub proof fn law_digests(h: HashAlgorithm, data: Seq<u8>)
    ensures
        h.spec_nid() matches Some(nid) ==> hash_of(h, data) == digest(nid, data),
{
}

/// The packet that detects modifications holds the SHA-1 digest of all that is
/// encrypted before it and of its own first two octets.
pub proof fn law_modification_detection(all: Seq<u8>)
    ensures
        mdc_packet(all) == seq![0xD3u8, 0x14] + digest(64, all + seq![0xD3u8, 0x14]),
{
    law_first_octets(Tag::MDC);
    assert(seq![Tag::MDC.spec_ctb(), 20u8] =~= seq![0xD3u8, 0x14]);
}

/// What precedes the data in a literal data packet: the format, the name of a file
/// with its length, and the date.
pub proof fn law_literal_headers(l: LiteralView)
    requires
        l.filename.len() <= 255,
        0 <= l.date < 0x1_0000_0000,
    ensures
        ({
            let h = l.headers();
            let n = l.filename.len() as int;
            &&& h.len() == 6 + n
            &&& h[0] == l.format.spec_octet()
            &&& h[1] == n
            &&& h.subrange(2, 2 + n) == l.filename
            &&& number(h.skip(2 + n)) == l.date
        }),
{
    let h = l.headers();
    let n = l.filename.len() as int;
    law_numbers_are_read(l.date);
    assert(h.subrange(2, 2 + n) =~= l.filename);
    assert(h.skip(2 + n) =~= be32(l.date));
}

/// The associated data of version 2 of the encrypted data packet are the first
/// octet of the packet and the first four octets of its body as it is written; the
/// key and the start of the nonces are derived from the session key with the salt,
/// which follows these in the body, and bound to the same octets.
pub proof fn law_associated_data(v: EncryptorView, draws: DrawsView)
    requires
        v.aead() is Some,
        v.sym_algo.spec_key_size() is Some,
        v.aead()->0.spec_nonce_size() is Some,
        draws.salt.len() == 32,
    ensures
        ({
            let h = v.seip2_headers(draws);
            let c = v.seip2_cipher(draws);
            let k = v.sym_algo.spec_key_size()->0 as int;
            let n = v.aead()->0.spec_nonce_size()->0 as int;
            let aad = seq![0xD2u8] + h.take(4);
            let derived = hkdf(v.key(draws), h.skip(4), aad, k + n - 8)->0;
            &&& h.len() == 36
            &&& h[0] == 2
            &&& h[1] == v.sym_algo.spec_octet()
            &&& h[2] == v.aead()->0.spec_octet()
            &&& h[3] == 6
            &&& h.skip(4) == draws.salt
            &&& c.aad == aad
            &&& c.key == derived.take(k)
            &&& c.prefix == derived.skip(k)
            &&& c.symm == v.sym_algo
            &&& Some(c.aead) == v.aead()
        }),
{
    let h = v.seip2_headers(draws);
    assert(h.skip(4) =~= draws.salt);
    assert(seq![0xD2u8] + h.take(4) =~= seip2_aad(v.sym_algo, v.aead()->0));
}

/// What is read out of authenticated chunks and the last tag: chunks of `size`
/// octets and a tag each, of which the last one may be shorter, with nonces that
/// count them; the last tag is that of nothing, and authenticates how much there
/// was, too.
pub open spec fn open_chunks(
    nid: int,
    key: Seq<u8>,
    prefix: Seq<u8>,
    aad: Seq<u8>,
    size: int,
    s: Seq<u8>,
    index: int,
    done: int,
) -> Option<Seq<u8>>
    decreases s.len(),
{
    if s.len() < 16 || size < 1 {
        None
    } else if s.len() == 16 {
        if unsealed(nid, key, prefix + be64(index), aad + be64(done), s) == Some(Seq::<u8>::empty()) {
            Some(Seq::empty())
        } else {
            None
        }
    } else {
        let n = if s.len() - 16 < size + 16 {
            s.len() - 16
        } else {
            size + 16
        };
        match unsealed(nid, key, prefix + be64(index), aad, s.take(n)) {
            None => None,
            Some(p) => match open_chunks(
                nid,
                key,
                prefix,
                aad,
                size,
                s.skip(n),
                index + 1,
                done + p.len(),
            ) {
                None => None,
                Some(more) => Some(p + more),
            },
        }
    }
}

/// What whoever has the session key reads out of the body of version 2 of the
/// encrypted data packet, given the algorithms that the octets in the body tell:
/// the rest is taken from the body.
pub open spec fn open_body(
    symm: SymmetricAlgorithm,
    aead: AEADAlgorithm,
    sk: Seq<u8>,
    b: Seq<u8>,
) -> Option<Seq<u8>> {
    if b.len() < 36 || b[0] != 2 || b[1] != symm.spec_octet() || b[2] != aead.spec_octet() {
        None
    } else {
        let aad = seq![0xD2u8] + b.take(4);
        let k = symm.spec_key_size()->0 as int;
        let n = aead.spec_nonce_size()->0 as int;
        match hkdf(sk, b.subrange(4, 36), aad, k + n - 8) {
            None => None,
            Some(derived) => open_chunks(
                aead.spec_nid(symm)->0,
                derived.take(k),
                derived.skip(k),
                aad,
                pow2((b[3] + 6) as nat) as int,
                b.skip(36),
                0,
                0,
            ),
        }
    }
}

/// Reading with a cipher is reading with its parameters.
proof fn lemma_open_chunks(a: AeadView, nid: int, s: Seq<u8>, index: int, done: int)
    requires
        nid == a.aead.spec_nid(a.symm)->0,
    ensures
        open_chunks(nid, a.key, a.prefix, a.aad, AEAD_CHUNK_SIZE as int, s, index, done) == a.read(
            s,
            index,
            done,
        ),
    decreases s.len(),
{
    if s.len() > 16 {
        let n = if s.len() - 16 < AEAD_CHUNK_SIZE + 16 {
            s.len() - 16
        } else {
            AEAD_CHUNK_SIZE + 16
        };
        match a.chunk_opened(index, a.aad, s.take(n)) {
            None => {},
            Some(p) => lemma_open_chunks(a, nid, s.skip(n), index + 1, done + p.len()),
        }
    }
}

/// A reader that takes the algorithms, the length of the chunks and the salt out of
/// the headers of version 2 of the encrypted data packet, and builds the associated
/// data from the octets there, reads what was written.
#[verifier::rlimit(60)]
#[verifier::spinoff_prover]
pub proof fn law_headers_tell_how_to_read(
    v: EncryptorView,
    draws: DrawsView,
    cookie: Cookie,
    sink: Seq<u8>,
    writes: Seq<Seq<u8>>,
    out: Seq<u8>,
    symm: SymmetricAlgorithm,
    aead: AEADAlgorithm,
)
    requires
        v.aead() is Some,
        v.sym_algo.spec_key_size() is Some,
        v.aead()->0.spec_nonce_size() is Some,
        v.draws_fit(draws),
        hkdf(
            v.key(draws),
            draws.salt,
            seq![0xD2u8] + v.seip2_headers(draws).take(4),
            v.sym_algo.spec_key_size()->0 + v.aead()->0.spec_nonce_size()->0 - 8,
        ) is Some,
        v.inner == seq![LayerView { cookie, filter: FilterView::Sink(sink) }],
        cookie.private is Nothing,
        finalizes_to(feed_all(v.built(draws), writes), out),
        symm.spec_key_size() is Some,
        aead.spec_nonce_size() is Some,
    ensures
        ({
            let packet = joined(packet_pieces(Seq::empty(), seip2_writes(v, draws, writes)));
            &&& out == sink + joined(v.pkesks(draws)) + joined(v.skesks(draws)) + seq![0xD2u8]
                + packet
            &&& unframe(packet) matches Some(b) && {
                &&& b.len() >= 36
                &&& b[1] == symm.spec_octet() && b[2] == aead.spec_octet() ==> open_body(
                    symm,
                    aead,
                    v.key(draws),
                    b,
                ) == Some(joined(writes))
            }
        }),
{
    let packet = joined(packet_pieces(Seq::empty(), seip2_writes(v, draws, writes)));
    let a = v.seip2_cipher(draws);
    let h = v.seip2_headers(draws);
    let c = joined(aead_pieces(a, writes));
    law_seip2_message(v, draws, cookie, sink, writes, out);
    law_first_octets(Tag::SEIP);
    law_associated_data(v, draws);
    law_coded_lengths();
    let b = h + c;
    assert(unframe(packet) == Some(b));
    assert(b[1] == h[1]);
    assert(b[2] == h[2]);
    assert(b[3] == h[3]);
    if b[1] == symm.spec_octet() && b[2] == aead.spec_octet() {
        law_octets_tell_algorithms(symm, v.sym_algo, aead, v.aead()->0);
        assert(b.take(4) =~= h.take(4));
        assert(b.subrange(4, 36) =~= draws.salt);
        assert(b.skip(36) =~= c);
        assert(b[0] == h[0]);
        lemma_open_chunks(a, aead.spec_nid(symm)->0, c, 0, 0);
    }
}

} // verus!
