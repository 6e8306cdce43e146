//! Laws on what the settings of writers come to, what they refuse, and how keys are
//! wrapped and unwrapped.

use vstd::prelude::*;
use vstd::utf8::encode_utf8;

use crate::armor::header_views;
use crate::backend::{
    aead_key_size, aead_nonce_size, bzipped, cfb_iv_size, cfb_key_size, deflated, digest_size,
    ec_shared, hkdf, inflated, key_unwrapped, key_wrapped, unbzipped, Call, MAX_LEN,
};
use crate::bytes::{decimal, text, views};
use crate::cipher::{seip2_error, AeadView, CfbView};
use crate::compression::{compressed, decompressed, is_supported, CompressionView};
use crate::crypto::SignatureView;
use crate::ecdh::{
    decryption, group, kek, kek_error, pad, unpad, unwrapped, wrap_fails, wrapped,
};
use crate::encryptor::{
    ciphertext_views, recipient_views, seip1_mounted, DrawsView, EncryptorView, Recipient,
};
use crate::error::ErrorView;
use crate::esk::{pkesk3_body, pkesk3_error, pkesk6_body, pkesk6_error, skesk4_fails, skesk6_fails};
use crate::hashing::HashingMode;
use crate::key::{
    bits, strip_zeros, Ciphertext, CiphertextView, Fingerprint, KeyHandleView, KeyView, PublicKeyView,
};
use crate::pk::{is_native_point, native_point, pk_error};
use crate::signature::{area, fingerprint_views, one_pass_sig, subpacket_views, Subpacket};
use crate::signer::{
    default_hashes, keys_of, law_retained_are_acceptable_to_both, retained, signers_of, SignerView,
};
use crate::signing::{entry_views, hashing_views, Entry, SigningView};
use crate::stack::{
    exceeds, feed, finalizes_well, finalizing_fails, layer_views, lemma_feed_shape, peel,
    with_profile, FilterView, Layer, LayerView, Private,
};
use crate::stream::next_level;
use crate::textfilter::normalize;
use crate::types::{
    AEADAlgorithm, CompressionAlgorithm, HashAlgorithm, Profile, SymmetricAlgorithm,
};

verus! {

/// Unless a hash algorithm was selected, the first of these that is acceptable is
/// used: SHA-512, SHA-384, SHA-256, SHA-224, SHA-1, RIPEMD-160, MD5.
#[verifier::rlimit(60)]
#[verifier::spinoff_prover]
pub proof fn law_preferred_hash(v: SignerView)
    requires
        v.valid(),
    ensures
        v.hash_algo matches Some(h) ==> v.algo() == h,
        v.hash_algo is None ==> ({
            let a = v.acceptable;
            if a.contains(HashAlgorithm::SHA512) {
                v.algo() is SHA512
            } else if a.contains(HashAlgorithm::SHA384) {
                v.algo() is SHA384
            } else if a.contains(HashAlgorithm::SHA256) {
                v.algo() is SHA256
            } else if a.contains(HashAlgorithm::SHA224) {
                v.algo() is SHA224
            } else if a.contains(HashAlgorithm::SHA1) {
                v.algo() is SHA1
            } else if a.contains(HashAlgorithm::RipeMD) {
                v.algo() is RipeMD
            } else {
                v.algo() is MD5
            }
        }),
{
    let a = v.acceptable;
    let d = default_hashes();
    let first = a[0];
    assert(a.contains(first));
    law_retained_are_acceptable_to_both(d, a, first);
    lemma_retained_first(d, a);
    let i = choose|i: int| 0 <= i < d.len() && d[i] == first && forall|j: int|
        0 <= j < i ==> !a.contains(#[trigger] d[j]);
    assert(i > 0 ==> !a.contains(d[0]));
    assert(i > 1 ==> !a.contains(d[1]));
    assert(i > 2 ==> !a.contains(d[2]));
    assert(i > 3 ==> !a.contains(d[3]));
    assert(i > 4 ==> !a.contains(d[4]));
    assert(i > 5 ==> !a.contains(d[5]));
    assert(a.contains(d[i]));
}

/// The first of the retained algorithms is preceded by none that are retained.
#[verifier::spinoff_prover]
#[verifier::rlimit(40)]
proof fn lemma_retained_first(d: Seq<HashAlgorithm>, b: Seq<HashAlgorithm>)
    requires
        retained(d, b).len() > 0,
    ensures
        exists|i: int|
            0 <= i < d.len() && d[i] == retained(d, b)[0] && forall|j: int|
                0 <= j < i ==> !b.contains(#[trigger] d[j]),
    decreases d.len(),
{
    let init = d.drop_last();
    if retained(init, b).len() > 0 {
        lemma_retained_first(init, b);
        let i = choose|i: int|
            0 <= i < init.len() && init[i] == retained(init, b)[0] && forall|j: int|
                0 <= j < i ==> !b.contains(#[trigger] init[j]);
        assert(d[i] == retained(d, b)[0]);
        assert forall|j: int| 0 <= j < i implies !b.contains(#[trigger] d[j]) by {
            assert(!b.contains(init[j]));
        }
    } else {
        lemma_none_retained(init, b);
        let i = d.len() - 1;
        assert(d[i] == retained(d, b)[0]);
        assert forall|j: int| 0 <= j < i implies !b.contains(#[trigger] d[j]) by {
            assert(!b.contains(init[j]));
        }
    }
}

proof fn lemma_none_retained(d: Seq<HashAlgorithm>, b: Seq<HashAlgorithm>)
    requires
        retained(d, b).len() == 0,
    ensures
        forall|j: int| 0 <= j < d.len() ==> !b.contains(#[trigger] d[j]),
    decreases d.len(),
{
    if d.len() > 0 {
        lemma_none_retained(d.drop_last(), b);
        assert forall|j: int| 0 <= j < d.len() implies !b.contains(#[trigger] d[j]) by {
            if j < d.len() - 1 {
                assert(!b.contains(d.drop_last()[j]));
            }
        }
    }
}

/// What a signature says and holds: the key of its signer, the algorithm, the salt if
/// and only if the key has version 6, the time, all intended recipients, and what is
/// in the template; a signature in the clear is a text signature.
pub proof fn law_signature_parameters(
    v: SignerView,
    salts: Seq<Seq<u8>>,
    data: Seq<u8>,
    i: int,
    time: int,
)
    requires
        0 <= i < v.keys.len(),
    ensures
        ({
            let s = v.signing(salts).push(data);
            let p = s.params(i, time);
            &&& s.signers.len() == v.keys.len()
            &&& s.signers[i].signer == v.signers[i]
            &&& s.mode == v.mode
            &&& s.creation_time == v.creation_time
            &&& p.key == v.keys[i]
            &&& p.algo == v.algo()
            &&& p.key.fingerprint.version == 6 ==> p.salt == salts[i]
            &&& p.key.fingerprint.version != 6 ==> p.salt.len() == 0
            &&& p.time == time
            &&& p.recipients == v.recipients
            &&& p.template.hashed == v.template.hashed
            &&& p.template.unhashed == v.template.unhashed
            &&& v.mode is Cleartext ==> p.template.typ is Text
            &&& !(v.mode is Cleartext) ==> p.template.typ == v.template.typ
        }),
{
}

/// Signatures are made at the selected time, if one was selected, and by answers of
/// the signers to the digests.
pub proof fn law_when_signatures_are_made(
    v: SignerView,
    salts: Seq<Seq<u8>>,
    data: Seq<u8>,
    outcomes: Seq<crate::signing::Outcome>,
    i: int,
)
    requires
        v.signing(salts).push(data).may_emit(outcomes),
        0 <= i < v.keys.len(),
    ensures
        outcomes.len() == v.keys.len(),
        v.creation_time matches Some(t) ==> outcomes[v.keys.len() - 1 - i].0 == t,
        0 <= outcomes[v.keys.len() - 1 - i].0 <= 0xFFFF_FFFF,
        v.signers[i].0.signs(
            v.algo(),
            v.signing(salts).push(data).digest(i, outcomes[v.keys.len() - 1 - i].0),
            outcomes[v.keys.len() - 1 - i].1,
        ),
{
    let s = v.signing(salts).push(data);
    let j = v.keys.len() - 1 - i;
    assert(s.may_sign(outcomes.len() - 1 - j, outcomes[j]));
}

/// Line ends are normalized if and only if text is signed.
pub proof fn law_what_is_hashed(v: SignerView, salts: Seq<Seq<u8>>, data: Seq<u8>, i: int)
    requires
        0 <= i < v.keys.len(),
    ensures
        ({
            let h = v.signing(salts).push(data).hashes[i];
            let salt = if v.keys[i].fingerprint.version == 6 {
                salts[i]
            } else {
                Seq::empty()
            };
            &&& v.template.typ is Text || v.mode is Cleartext ==> h.data == salt + normalize(
                false,
                data,
            ).1
            &&& !(v.template.typ is Text) && !(v.mode is Cleartext) ==> h.data == salt + data
            &&& h.salt == salt
            &&& h.algo == v.algo()
        }),
{
}

/// However data is cut into two writes, as much has been written in the end.
pub proof fn law_position(v: SignerView, salts: Seq<Seq<u8>>, a: Seq<u8>, b: Seq<u8>)
    requires
        a.len() + b.len() < 0x1_0000_0000_0000_0000,
    ensures
        v.signing(salts).push(a).push(b).position == a.len() + b.len(),
{
}

/// There is a one-pass signature for each signer, in their order, with what the
/// signature will have, and only the last one says that it is the last one.
pub proof fn law_one_pass_signatures(v: SignerView, salts: Seq<Seq<u8>>, i: int, time: int)
    requires
        0 <= i < v.keys.len(),
        v.mode is Inline,
    ensures
        ({
            let p = v.signing(salts).params(i, time);
            &&& v.one_pass_sigs(salts).len() == v.keys.len()
            &&& i == v.keys.len() - 1 ==> v.one_pass_sigs(salts)[i] == one_pass_sig(
                p.template.typ,
                p.key,
                p.algo,
                p.salt,
                true,
            )
            &&& i < v.keys.len() - 1 ==> v.one_pass_sigs(salts)[i] == one_pass_sig(
                p.template.typ,
                p.key,
                p.algo,
                p.salt,
                false,
            )
        }),
{
}

/// What precedes a text that is signed in the clear: a line that says so, a line that
/// names the hash algorithm if there is a version 4 key among those that sign, and an
/// empty line.
pub proof fn law_cleartext_header(v: SignerView, i: int)
    ensures
        0 <= i < v.keys.len() && v.keys[i].fingerprint.version == 4 ==> v.cleartext_header()
            == text("-----BEGIN PGP SIGNED MESSAGE-----") + seq![0x0Au8] + text("Hash: ")
            + encode_utf8(v.algo().spec_text_name()->0) + seq![0x0Au8, 0x0A],
        (forall|i: int|
            0 <= i < v.keys.len() ==> (#[trigger] v.keys[i]).fingerprint.version != 4)
            ==> v.cleartext_header() == text("-----BEGIN PGP SIGNED MESSAGE-----") + seq![
            0x0Au8,
            0x0A,
        ],
{
    let first = text("-----BEGIN PGP SIGNED MESSAGE-----");
    let name = encode_utf8(v.algo().spec_text_name()->0);
    if v.any_v4() {
        assert(v.cleartext_header() =~= first + seq![0x0Au8] + text("Hash: ") + name + seq![
            0x0Au8,
            0x0A,
        ]);
    } else {
        assert(v.cleartext_header() =~= first + seq![0x0Au8, 0x0A]);
    }
}

/// A signer is refused for its key of a version other than 4 and 6, and for one of
/// version 6 if no salt goes with the hash algorithm.
pub proof fn law_which_keys_are_refused(v: SignerView, i: int)
    requires
        0 <= i < v.keys.len(),
    ensures
        ({
            let version = v.keys[i].fingerprint.version;
            &&& version == 4 ==> v.refusal_at(i) is None
            &&& version == 6 && v.algo().spec_salt_size() is Some ==> v.refusal_at(i) is None
            &&& version == 6 && v.algo().spec_salt_size() is None ==> v.refusal_at(i) == Some(
                ErrorView::UnsupportedHashAlgorithm(v.algo()),
            )
            &&& version != 4 && version != 6 ==> v.refusal_at(i) == Some(
                ErrorView::InvalidOperation(
                    "Unsupported Key version "@ + decimal(version as nat),
                ),
            )
        }),
{
}

/// An encryptor is refused if nobody could decrypt the message, if its algorithm is not
/// known, or if its session key does not have the length of the keys of the algorithm;
/// and for no other reason.
pub proof fn law_which_encryptors_are_refused(v: EncryptorView)
    ensures
        ({
            let nobody = v.recipients.len() == 0 && v.passwords.len() == 0 && v.session_key
                is None;
            let unknown = v.sym_algo.spec_key_size() is None;
            let misfit = v.session_key matches Some(sk) && sk.len()
                != v.sym_algo.spec_key_size()->0;
            &&& v.refusal() is None <==> !nobody && !unknown && !misfit
            &&& nobody ==> v.refusal() == Some(
                ErrorView::InvalidOperation(
                    "Neither recipients, passwords, nor session key given"@,
                ),
            )
            &&& !nobody && unknown ==> v.refusal() == Some(
                ErrorView::UnsupportedSymmetricAlgorithm(v.sym_algo),
            )
            &&& !nobody && !unknown && misfit ==> v.refusal() == Some(
                ErrorView::InvalidOperation(
                    v.sym_algo.spec_name() + " requires a "@ + decimal(
                        v.sym_algo.spec_key_size()->0,
                    ) + " bit key, but session key has "@ + decimal(v.session_key->0.len()),
                ),
            )
        }),
{
}

/// What is drawn at random has these lengths.
pub proof fn law_how_much_is_drawn(v: EncryptorView, draws: DrawsView, i: int)
    requires
        v.draws_fit(draws),
    ensures
        v.aead() is Some ==> draws.salt.len() == 32,
        v.session_key is None && v.sym_algo.spec_key_size() is Some ==> Some(
            draws.session_key.len(),
        ) == v.sym_algo.spec_key_size(),
        v.aead() is None && v.sym_algo.spec_block_size() is Some ==> Some(draws.iv.len())
            == v.sym_algo.spec_block_size(),
        draws.ciphertexts.len() == v.recipients.len(),
        draws.s2k_salts.len() == v.passwords.len(),
        0 <= i < v.passwords.len() ==> draws.s2k_salts[i].len() == 8,
        0 <= i < v.passwords.len() && v.aead() is Some && v.aead()->0.spec_nonce_size() is Some
            ==> Some(draws.nonces[i].len()) == v.aead()->0.spec_nonce_size(),
{
}

/// The value of a decimal numeral.
pub open spec fn numeral_value(s: Seq<char>) -> int
    decreases s.len(),
{
    if s.len() == 0 {
        0
    } else {
        10 * numeral_value(s.drop_last()) + (s.last() as int - 0x30)
    }
}

/// A number is read out of its decimal numeral, which is made of digits and does not
/// start with a zero, unless the number is zero.
#[verifier::spinoff_prover]
#[verifier::rlimit(40)]
pub proof fn law_decimal_reads_back(n: nat)
    ensures
        decimal(n).len() > 0,
        numeral_value(decimal(n)) == n,
        forall|i: int|
            0 <= i < decimal(n).len() ==> 0x30 <= #[trigger] decimal(n)[i] as int <= 0x39,
        n > 0 ==> decimal(n)[0] as int != 0x30,
    decreases n,
{
    let d = decimal(n);
    if n < 10 {
        assert(d.drop_last() =~= Seq::<char>::empty());
        assert(numeral_value(d.drop_last()) == 0);
    } else {
        law_decimal_reads_back(n / 10);
        let init = decimal(n / 10);
        assert(d.drop_last() =~= init);
        assert forall|i: int| 0 <= i < d.len() implies 0x30 <= #[trigger] d[i] as int <= 0x39 by {
            if i < init.len() {
                assert(d[i] == init[i]);
            }
        }
        assert(d[0] == init[0]);
    }
}

/// The profile that an armor writer is asked for reaches the topmost one, at `k`, and
/// changes nothing else; without an encryption container above it, it is the one that
/// was asked for, and otherwise that of the lowest container, at `e`.  Without an armor
/// writer nothing changes.
#[verifier::spinoff_prover]
#[verifier::rlimit(40)]
pub proof fn law_profile_reaches_the_armor(ls: Seq<LayerView>, asked: Profile, k: int, e: int)
    requires
        -1 <= k < ls.len(),
        k >= 0 ==> ls[k].cookie.private is Armorer,
        forall|i: int| k < i < ls.len() ==> !((#[trigger] ls[i]).cookie.private is Armorer),
        k < e <= ls.len(),
        e < ls.len() ==> ls[e].cookie.private is Encryptor,
        forall|i: int| k < i < e ==> !((#[trigger] ls[i]).cookie.private is Encryptor),
    ensures
        with_profile(ls, asked).len() == ls.len(),
        forall|i: int|
            0 <= i < ls.len() && i != k ==> #[trigger] with_profile(ls, asked)[i] == ls[i],
        k >= 0 ==> ({
            let armor = with_profile(ls, asked)[k];
            &&& armor.filter == ls[k].filter
            &&& armor.cookie.level == ls[k].cookie.level
            &&& armor.cookie.private == (Private::Armorer {
                set_profile: Some(
                    if e < ls.len() {
                        ls[e].cookie.private->Encryptor_profile
                    } else {
                        asked
                    },
                ),
            })
        }),
    decreases ls.len(),
{
    if ls.len() > 0 && k < ls.len() - 1 {
        let init = ls.drop_last();
        let n = init.len() as int;
        let profile = match ls.last().cookie.private {
            Private::Encryptor { profile } => profile,
            _ => asked,
        };
        assert(!(ls[n].cookie.private is Armorer));
        assert forall|i: int| k < i < init.len() implies !((
        #[trigger] init[i]).cookie.private is Armorer) by {
            assert(init[i] == ls[i]);
        }
        let f = if e < n {
            e
        } else {
            n
        };
        assert forall|i: int| k < i < f implies !((
        #[trigger] init[i]).cookie.private is Encryptor) by {
            assert(init[i] == ls[i]);
        }
        if e == ls.len() {
            assert(!(ls[n].cookie.private is Encryptor));
        }
        law_profile_reaches_the_armor(init, profile, k, f);
        let done = with_profile(init, profile);
        assert(with_profile(ls, asked) == done.push(ls.last()));
        assert forall|i: int| 0 <= i < ls.len() && i != k implies #[trigger] with_profile(
            ls,
            asked,
        )[i] == ls[i] by {
            if i < n {
                assert(done[i] == init[i]);
            }
        }
    }
}

/// The armor around a message does without a checksum if version 2 of the encrypted
/// data packet is made, or if all keys that sign are of a version after 4.
pub proof fn law_who_does_without_checksum(e: EncryptorView, s: SignerView, layer: LayerView)
    ensures
        e.aead() is Some ==> e.profiled() == with_profile(e.inner, Profile::RFC9580),
        e.aead() is None ==> e.profiled() == e.inner,
        (forall|i: int| 0 <= i < s.keys.len() ==> (#[trigger] s.keys[i]).fingerprint.version > 4)
            ==> s.profiled() == with_profile(s.inner, Profile::RFC9580),
        (exists|i: int| 0 <= i < s.keys.len() && (#[trigger] s.keys[i]).fingerprint.version <= 4)
            ==> s.profiled() == s.inner,
        layer.filter matches FilterView::Armorer(a) ==> {
            let without = layer.cookie.private == (Private::Armorer {
                set_profile: Some(Profile::RFC9580),
            });
            &&& without ==> layer.rest() == a.rest(false)
            &&& !without ==> layer.rest() == a.rest(true)
        },
{
}

/// Which library compresses, and which decompresses: deflate without a header for ZIP,
/// deflate with the header of zlib for ZLIB, and bzip2, which knows no level of no
/// compression.
pub proof fn law_compression_formats(
    a: CompressionAlgorithm,
    level: int,
    calls: Seq<Call>,
    data: Seq<u8>,
)
    ensures
        a is Zip ==> compressed(a, level, calls) == deflated(false, level, calls) && decompressed(
            a,
            data,
        ) == inflated(false, data),
        a is Zlib ==> compressed(a, level, calls) == deflated(true, level, calls) && decompressed(
            a,
            data,
        ) == inflated(true, data),
        a is BZip2 && level > 0 ==> compressed(a, level, calls) == bzipped(level, calls),
        a is BZip2 ==> compressed(a, 0, calls) == bzipped(1, calls) && decompressed(a, data)
            == unbzipped(data),
        a is Uncompressed ==> decompressed(a, data) == Some(data) && CompressionView::start(
            a,
            level,
        ).push(data).1 == data,
{
}

/// Padding is taken off if and only if there is some of the given length, each octet of
/// which tells that length; without a length, the last octet gives it.  Nothing longer
/// than 255 octets is looked at.
#[verifier::spinoff_prover]
#[verifier::rlimit(40)]
pub proof fn law_unpadding(m: Seq<u8>, len: usize)
    ensures
        unpad(m, Some(len)) is Ok <==> len <= m.len() <= 255 && forall|i: int|
            len <= i < m.len() ==> (#[trigger] m[i]) == m.len() - len,
        unpad(m, Some(len)) matches Ok(sk) ==> sk == m.take(len as int),
        m.len() == 0 ==> unpad(m, None) is Err,
        0 < m.len() <= 255 && m.last() <= m.len() ==> unpad(m, None) == unpad(
            m,
            Some((m.len() - m.last()) as usize),
        ),
        m.len() > 0 && m.last() > m.len() ==> unpad(m, None) is Err,
        m.len() > 255 ==> unpad(m, Some(len)) == Err::<Seq<u8>, ErrorView>(
            ErrorView::InvalidArgument("message too large"@),
        ),
        m.len() <= 255 && m.len() < len ==> unpad(m, Some(len)) == Err::<Seq<u8>, ErrorView>(
            ErrorView::InvalidArgument("message too small"@),
        ),
        len <= m.len() <= 255 && unpad(m, Some(len)) is Err ==> unpad(m, Some(len)) == Err::<
            Seq<u8>,
            ErrorView,
        >(ErrorView::InvalidArgument("bad padding"@)),
{
    let l = len as int;
    let fill = Seq::new((m.len() - l) as nat, |i: int| (m.len() - l) as u8);
    if l <= m.len() <= 255 {
        if m.skip(l) == fill {
            assert forall|i: int| l <= i < m.len() implies (#[trigger] m[i]) == m.len() - len by {
                assert(m.skip(l)[i - l] == m[i]);
                assert(fill[i - l] == m.len() - l);
            }
        } else if forall|i: int| l <= i < m.len() ==> (#[trigger] m[i]) == m.len() - len {
            assert(m.skip(l) =~= fill);
        }
    }
}

/// A session key is wrapped after it was padded, with the key encryption key, and
/// unwrapped before the padding is taken off.
pub proof fn law_wrapping(key: KeyView, secret: Seq<u8>, sk: Seq<u8>, w: Seq<u8>, len: Option<usize>)
    ensures
        wrapped(key, sk, secret) == key_wrapped(kek(key, secret), pad(sk)),
        key_unwrapped(kek(key, secret), w) matches Some(m) ==> unwrapped(key, secret, w, len)
            == unpad(m, len),
        key_unwrapped(kek(key, secret), w) is None ==> unwrapped(key, secret, w, len) is Err,
{
}

/// Keys are wrapped with AES, whose keys must not be longer than the digests of the hash
/// algorithm.
pub proof fn law_which_keys_derive(key: PublicKeyView)
    requires
        key is ECDH,
    ensures
        ({
            let known = key->hash.spec_nid() is Some;
            let n = digest_size(key->hash.spec_nid()->0);
            let aes = key->sym is AES128 || key->sym is AES192 || key->sym is AES256;
            &&& kek_error(key) is None <==> known && (key->sym is AES128 && n >= 16
                || key->sym is AES192 && n >= 24 || key->sym is AES256 && n >= 32)
            &&& !aes ==> kek_error(key) == Some(ErrorView::UnsupportedSymmetricAlgorithm(key->sym))
            &&& aes && !known ==> kek_error(key) == Some(
                ErrorView::UnsupportedHashAlgorithm(key->hash),
            )
        }),
{
}

/// The group of a key is that of its curve, except that there is none for Curve25519.
pub proof fn law_groups(key: PublicKeyView)
    ensures
        key is ECDH && !key->cv25519 ==> (group(key) is Ok <==> key->nid is Some),
        key is ECDH && !key->cv25519 && key->nid is Some ==> group(key) == Ok::<int, ErrorView>(
            key->nid->0,
        ),
        key is ECDH && !key->cv25519 && key->nid is None ==> group(key) == Err::<int, ErrorView>(
            ErrorView::UnsupportedEllipticCurve(key->curve),
        ),
        key is ECDH && key->cv25519 ==> group(key) is Err,
        !(key is ECDH) ==> group(key) is Err,
{
}

/// A key on Curve25519 stands in a packet behind the octet 0x40.
pub proof fn law_curve25519_points(u: Seq<u8>, q: Seq<u8>)
    ensures
        native_point(u).len() == u.len() + 1,
        native_point(u)[0] == 0x40,
        native_point(u).skip(1) == u,
        is_native_point(q) <==> q.len() == 33 && q == native_point(q.skip(1)),
{
    assert(native_point(u).skip(1) =~= u);
    if is_native_point(q) {
        assert(q =~= native_point(q.skip(1)));
    } else if q.len() == 33 && q == native_point(q.skip(1)) {
        assert(q[0] == 0x40);
    }
}

/// Digests have these lengths.
pub proof fn law_digest_lengths(h: HashAlgorithm)
    ensures
        h.spec_nid() matches Some(nid) ==> {
            &&& digest_size(nid) == 16 <==> h is MD5
            &&& digest_size(nid) == 20 <==> h is SHA1 || h is RipeMD
            &&& digest_size(nid) == 28 <==> h is SHA224
            &&& digest_size(nid) == 32 <==> h is SHA256 || h is SHA3_256
            &&& digest_size(nid) == 48 <==> h is SHA384
            &&& digest_size(nid) == 64 <==> h is SHA512 || h is SHA3_512
        },
{
}

/// The library of ciphers asks for keys, initialization vectors and nonces of the
/// lengths that the algorithms have.
pub proof fn law_cipher_lengths(a: SymmetricAlgorithm, m: AEADAlgorithm)
    ensures
        a.spec_cfb_nid() matches Some(nid) ==> {
            &&& a.spec_key_size() == Some(cfb_key_size(nid))
            &&& a.spec_block_size() == Some(cfb_iv_size(nid))
        },
        m.spec_nid(a) matches Some(nid) ==> {
            &&& a.spec_key_size() == Some(aead_key_size(nid))
            &&& m.spec_nonce_size() == Some(aead_nonce_size(nid))
        },
{
}

/// The algorithms that data is compressed with.
pub proof fn law_which_compression_is_supported(a: CompressionAlgorithm)
    ensures
        is_supported(a) <==> !(a is Private) && !(a is Unknown),
{
}

/// Version 2 of the encrypted data packet is refused for an algorithm that is not known,
/// for a mode that there is not for the algorithm, and if no key is derived; and for no
/// other reason.
pub proof fn law_which_ciphers_are_refused(
    a: SymmetricAlgorithm,
    m: AEADAlgorithm,
    salt: Seq<u8>,
    sk: Seq<u8>,
)
    ensures
        ({
            let k = a.spec_key_size();
            let n = m.spec_nonce_size();
            let info = seq![0xD2u8, 2, a.spec_octet(), m.spec_octet(), 6];
            let derived = hkdf(sk, salt, info, k->0 + n->0 - 8);
            &&& k is None ==> seip2_error(a, m, salt, sk) == Some(
                ErrorView::UnsupportedSymmetricAlgorithm(a),
            )
            &&& k is Some && m.spec_nid(a) is None ==> seip2_error(a, m, salt, sk) == Some(
                ErrorView::UnsupportedAEADAlgorithm(m),
            )
            &&& m.spec_nid(a) is Some && derived is None ==> seip2_error(a, m, salt, sk) == Some(
                ErrorView::Backend,
            )
            &&& m.spec_nid(a) is Some && derived is Some ==> seip2_error(a, m, salt, sk) is None
        }),
{
}

/// Packets for passwords are not made with an algorithm that is not known, or with a mode
/// that there is not for it, and the error says so.
pub proof fn law_which_password_packets_are_refused(
    a: SymmetricAlgorithm,
    m: AEADAlgorithm,
    e: ErrorView,
)
    ensures
        a.spec_key_size() is None ==> {
            &&& skesk4_fails(a, e) <==> e == ErrorView::UnsupportedSymmetricAlgorithm(a)
            &&& skesk6_fails(a, m, e) <==> e == ErrorView::UnsupportedSymmetricAlgorithm(a)
        },
        a.spec_key_size() is Some && m.spec_nid(a) is None ==> (skesk6_fails(a, m, e) <==> e
            == ErrorView::UnsupportedAEADAlgorithm(m)),
        m.spec_nid(a) is Some && skesk6_fails(a, m, e) ==> e is Backend || e
            == ErrorView::UnsupportedHashAlgorithm(HashAlgorithm::SHA256),
{
}

/// A packet for a recipient is refused if its numbers do not fit, or if it is too large;
/// and in version 6 if the recipient is named by a key ID.
pub proof fn law_which_recipient_packets_are_refused(
    handle: Option<KeyHandleView>,
    a: SymmetricAlgorithm,
    c: CiphertextView,
)
    ensures
        ({
            let fits = match c {
                CiphertextView::RSA { c } => bits(strip_zeros(c)) <= 0xFFFF,
                CiphertextView::ECDH { e, .. } => bits(strip_zeros(e)) <= 0xFFFF,
                CiphertextView::X25519 { .. } => true,
            };
            let short3 = pkesk3_body(handle, a, c).len() <= 0xFFFF_FFFF;
            &&& pkesk3_error(handle, a, c) is None <==> fits && short3
            &&& !(fits && short3) ==> pkesk3_error(handle, a, c) == Some(ErrorView::TooLarge)
            &&& handle matches Some(KeyHandleView::KeyID(_)) ==> pkesk6_error(handle, c) == Some(
                ErrorView::InvalidOperation("Cannot convert keyid to fingerprint"@),
            )
            &&& handle matches Some(KeyHandleView::Fingerprint(fp)) ==> {
                let short6 = pkesk6_body(Some(fp), c).len() <= 0xFFFF_FFFF;
                &&& pkesk6_error(handle, c) is None <==> fits && short6
                &&& !(fits && short6) ==> pkesk6_error(handle, c) == Some(ErrorView::TooLarge)
            }
            &&& handle is None ==> {
                let short6 = pkesk6_body(None, c).len() <= 0xFFFF_FFFF;
                &&& pkesk6_error(handle, c) is None <==> fits && short6
                &&& !(fits && short6) ==> pkesk6_error(handle, c) == Some(ErrorView::TooLarge)
            }
        }),
{
}

/// A writer has the level after that of the writer that it is put on.
pub proof fn law_levels(ls: Seq<LayerView>)
    ensures
        ls.last().cookie.level < usize::MAX ==> next_level(ls) == ls.last().cookie.level + 1,
        ls.last().cookie.level == usize::MAX ==> next_level(ls) == usize::MAX,
{
}

/// Which writers may fail to take in data: those that encrypt or hash it; and an
/// authenticated cipher does not fail before a chunk is complete.
pub proof fn law_which_writers_may_fail(f: FilterView, d: Seq<u8>)
    ensures
        f.steady() <==> !(f is Signer) && !(f is Encryptor) && !(f is Cfb) && !(f is Aead) && !(f
            matches FilterView::Literal(Some(_))),
        f.steady() ==> f.accepts(d),
        f matches FilterView::Aead(a) ==> (a.data.len() % 4096 + d.len() < 4096 ==> f.accepts(d)),
        f.plain() <==> f.steady() && (f matches FilterView::Compression(c) ==> c.algo
            is Uncompressed),
{
}

/// No signature is made at a time that cannot be written down in four octets, or with
/// subpackets that are too long for their area.
pub proof fn law_which_signatures_are_refused(
    s: SigningView,
    i: int,
    time: int,
    sig: SignatureView,
    e: ErrorView,
)
    requires
        s.creation_time is Some ==> s.creation_time->0 == time,
    ensures
        ({
            let p = s.params(i, time);
            let limit = if p.key.fingerprint.version == 6 {
                0xFFFF_FFFFint
            } else {
                0xFFFF
            };
            let fits = area(p.hashed()).len() <= limit && area(p.unhashed()).len() <= limit;
            &&& !(0 <= time <= 0xFFFF_FFFF) ==> !s.may_sign(i, (time, sig)) && (s.may_refuse(
                i,
                time,
                e,
            ) <==> e == ErrorView::InvalidArgument("Time exceeds u32 epoch"@))
            &&& 0 <= time <= 0xFFFF_FFFF && !fits ==> !s.may_sign(i, (time, sig)) && (s.may_refuse(
                i,
                time,
                e,
            ) <==> e == ErrorView::TooLarge)
        }),
{
}

/// What a recipient gets out of a ciphertext with its secret key: the group comes from
/// its curve, the secret from the ephemeral point, the key encryption key from the secret,
/// and the padding is taken off what was wrapped.
pub proof fn law_decryption(
    recipient: KeyView,
    scalar: Seq<u8>,
    c: CiphertextView,
    len: Option<usize>,
)
    requires
        recipient.mpis is ECDH,
        c is ECDH,
        scalar.len() <= MAX_LEN,
    ensures
        ({
            let nid = recipient.mpis->nid;
            let secret = ec_shared(nid->0, scalar, recipient.mpis->q, c->ECDH_e);
            let m = key_unwrapped(kek(recipient, secret->0), c->ECDH_key);
            let d = decryption(recipient, scalar, c, len);
            &&& recipient.mpis->cv25519 ==> d is Err
            &&& !recipient.mpis->cv25519 && nid is None ==> d == Err::<Seq<u8>, ErrorView>(
                ErrorView::UnsupportedEllipticCurve(recipient.mpis->curve),
            )
            &&& !recipient.mpis->cv25519 && nid is Some ==> {
                &&& secret is None ==> d == Err::<Seq<u8>, ErrorView>(ErrorView::Backend)
                &&& secret is Some && kek_error(recipient.mpis) is Some ==> d == Err::<
                    Seq<u8>,
                    ErrorView,
                >(kek_error(recipient.mpis)->0)
                &&& secret is Some && kek_error(recipient.mpis) is None && m is Some ==> d == unpad(
                    m->0,
                    len,
                )
                &&& secret is Some && kek_error(recipient.mpis) is None && m is None ==> d == Err::<
                    Seq<u8>,
                    ErrorView,
                >(ErrorView::InvalidArgument("Bad key"@))
            }
        }),
{
}

/// The contents of vectors are the contents of all their elements, in their order.
pub proof fn law_contents_of_vectors(
    a: Seq<Vec<u8>>,
    b: Seq<Fingerprint>,
    c: Seq<Ciphertext>,
    d: Seq<(String, String)>,
    e: Seq<Subpacket>,
    f: Seq<Layer>,
    i: int,
)
    ensures
        views(a).len() == a.len(),
        0 <= i < a.len() ==> views(a)[i] == a[i]@,
        fingerprint_views(b).len() == b.len(),
        0 <= i < b.len() ==> fingerprint_views(b)[i] == b[i]@,
        ciphertext_views(c).len() == c.len(),
        0 <= i < c.len() ==> ciphertext_views(c)[i] == c[i]@,
        header_views(d).len() == d.len(),
        0 <= i < d.len() ==> header_views(d)[i].0 == d[i].0@ && header_views(d)[i].1 == d[i].1@,
        subpacket_views(e).len() == e.len(),
        0 <= i < e.len() ==> subpacket_views(e)[i] == e[i]@,
        layer_views(f).len() == f.len(),
        0 <= i < f.len() ==> layer_views(f)[i] == f[i]@,
{
}

/// What is known of several signers and recipients is what is known of each of them, in
/// their order.
pub proof fn law_contents_of_entries<'b>(
    a: Seq<Entry>,
    b: Seq<HashingMode>,
    c: Seq<Recipient<'b>>,
    i: int,
)
    ensures
        entry_views(a).len() == a.len(),
        signers_of(a).len() == a.len(),
        keys_of(a).len() == a.len(),
        0 <= i < a.len() ==> {
            &&& entry_views(a)[i].signer == a[i].signer
            &&& entry_views(a)[i].key == a[i].signer.0.spec_public()
            &&& entry_views(a)[i].algo == a[i].algo
            &&& entry_views(a)[i].salt == a[i].salt@
            &&& signers_of(a)[i] == a[i].signer
            &&& keys_of(a)[i] == a[i].signer.0.spec_public()
        },
        hashing_views(b).len() == b.len(),
        0 <= i < b.len() ==> hashing_views(b)[i] == b[i]@,
        recipient_views(c).len() == c.len(),
        0 <= i < c.len() ==> recipient_views(c)[i] == c[i]@,
{
}

/// Why a session key is not encrypted for a key: with a key of another algorithm always,
/// and for no other reason; with RSA if the numbers are too long, and otherwise only if
/// the library refuses; with X25519 only if the library refuses; and with ECDH if the key
/// is none on its curve, its curve is not known, or no key encryption key is derived.
pub proof fn law_which_keys_are_not_encrypted_for(key: KeyView, e: ErrorView)
    ensures
        key.mpis matches PublicKeyView::Other { algo } ==> (pk_error(key, e) <==> e
            == ErrorView::UnsupportedPublicKeyAlgorithm(algo)),
        key.mpis matches PublicKeyView::RSA { e: x, n } ==> {
            &&& x.len() > 0x10_0000 || n.len() > 0x10_0000 ==> (pk_error(key, e) <==> e
                == ErrorView::TooLarge)
            &&& x.len() <= 0x10_0000 && n.len() <= 0x10_0000 ==> (pk_error(key, e) <==> e
                == ErrorView::Backend)
        },
        key.mpis is X25519 ==> (pk_error(key, e) <==> e == ErrorView::Backend),
        key.mpis is ECDH && pk_error(key, e) && e != ErrorView::Backend ==> {
            ||| key.mpis->cv25519 && !(key.mpis->q.len() == 33 && key.mpis->q[0] == 0x40) && e
                == ErrorView::InvalidArgument("Invalid Curve25519 public key"@)
            ||| !key.mpis->cv25519 && key.mpis->nid is None && e
                == ErrorView::UnsupportedEllipticCurve(key.mpis->curve)
            ||| kek_error(key.mpis) == Some(e)
            ||| e == ErrorView::UnsupportedHashAlgorithm(key.mpis->hash)
        },
{
}

/// A session key of more than forty octets is not wrapped; a shorter one is, unless no key
/// encryption key is derived or the library refuses.
pub proof fn law_which_session_keys_are_not_wrapped(
    key: KeyView,
    sk: Seq<u8>,
    secret: Seq<u8>,
    e: ErrorView,
)
    ensures
        sk.len() > 40 ==> (wrap_fails(key, sk, secret, e) <==> e == ErrorView::InvalidArgument(
            "Plaintext data too large"@,
        )),
        sk.len() <= 40 && wrap_fails(key, sk, secret, e) ==> {
            ||| kek_error(key.mpis) == Some(e)
            ||| e == ErrorView::Backend
            ||| key.mpis is ECDH && e == ErrorView::UnsupportedHashAlgorithm(key.mpis->hash)
        },
{
}

/// A writer of which it is known that it is finalized without fail does not fail, whatever
/// the error.
pub proof fn law_what_ends_well_does_not_fail(ls: Seq<LayerView>, e: ErrorView)
    requires
        finalizes_well(ls),
    ensures
        !finalizing_fails(ls, e),
    decreases ls.len(),
{
    if ls.len() > 1 && ls.last().filter is Compressor {
        let below = peel(ls.drop_last());
        if below.len() < ls.len() {
            law_what_ends_well_does_not_fail(below, e);
        }
    }
}

/// An encryption container asks for the profile that goes with its version: version 1 for
/// that of RFC 4880, version 2 for that of RFC 9580.
pub proof fn law_profiles_of_containers(v: EncryptorView, draws: DrawsView)
    ensures
        v.built(draws).len() > 0,
        v.aead() is Some ==> v.built(draws).last().cookie.private == (Private::Encryptor {
            profile: Profile::RFC9580,
        }),
        v.aead() is None ==> v.built(draws).last().cookie.private == (Private::Encryptor {
            profile: Profile::RFC4880,
        }),
        v.aead() is Some ==> v.built(draws).last().filter is Aead,
        v.aead() is None ==> v.built(draws).last().filter is Encryptor,
        v.built(draws).last().cookie.level == next_level(v.inner),
{
    let level = next_level(v.inner);
    if v.aead() is None {
        let cipher = CfbView { algo: v.sym_algo, key: v.key(draws), data: Seq::empty() };
        let a = seip1_mounted(v.container(draws), level, cipher);
        let b = feed(a, draws.iv);
        let n = a.len() - 1;
        lemma_feed_shape(a, draws.iv);
        lemma_feed_shape(b, draws.iv.skip(draws.iv.len() - 2));
        let c = feed(b, draws.iv.skip(draws.iv.len() - 2));
        assert(b[n].filter.same(a[n].filter) && b[n].cookie == a[n].cookie);
        assert(c[n].filter.same(b[n].filter) && c[n].cookie == b[n].cookie);
    }
}

/// An authenticated cipher takes in this many chunks of 4096 octets, and no more.
pub proof fn law_how_much_is_encrypted(layer: LayerView, a: AeadView, d: Seq<u8>)
    requires
        layer.filter == FilterView::Aead(a),
        d.len() > 0,
    ensures
        exceeds(seq![layer], d) <==> a.data.len() + d.len() >= 0x8_0000_0000_0000 * 4096,
{
    let ls = seq![layer];
    assert(ls.last() == layer);
    assert(ls.drop_last() =~= Seq::<LayerView>::empty());
    assert(!exceeds(ls.drop_last(), layer.filter.push(d).1));
    assert(a.push(d).data.len() == a.data.len() + d.len());
}

} // verus!
