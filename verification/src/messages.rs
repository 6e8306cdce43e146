//! Laws on whole encrypted messages: what whoever gets one reads, and what
//! becomes of one that was changed.

use vstd::prelude::*;

use crate::cipher::{seip2_schedule, AeadView, CfbView};
use crate::encryptor::{DrawsView, EncryptorView};
use crate::esk::payload;
use crate::framing::{joined, law_framing_of_a_changed_octet, unframe, with_last, Tag};
use crate::key::{CiphertextView, KeyView};
use crate::laws::{lemma_feed_all_front, lemma_pieces_joined, packet_pieces};
use crate::opening::{
    aead_pieces, belongs, cfb_pieces, law_password_gets_session_key,
    law_recipient_gets_session_key, law_seip1_message, law_seip2_message,
    password_gets_session_key, recovered, refused_at_the_end, seip1_plain, seip1_writes,
    seip2_writes,
};
use crate::pk::encrypted_for;
use crate::readback::{law_literal_gives_back, lemma_literal_top, packet_passed_on};
use crate::stack::{
    feed_all, finalized, finalizes_to, mdc_packet, Cookie, FilterView, LayerView, MDC_LEN,
};
use crate::stream::LiteralView;
use crate::types::{AEADAlgorithm, SymmetricAlgorithm};

verus! {

/// What a literal writer passes on, piece by piece, while `writes` are written to
/// it and it is finalized.
pub open spec fn literal_pieces(l: LiteralView, writes: Seq<Seq<u8>>) -> Seq<Seq<u8>> {
    seq![seq![Tag::Literal.spec_ctb()]] + packet_pieces(
        Seq::empty(),
        seq![l.headers()] + writes,
    )
}

/// The data of a literal data packet, read out of the whole packet.
pub open spec fn read_literal(s: Seq<u8>) -> Option<Seq<u8>> {
    if s.len() == 0 || s[0] != Tag::Literal.spec_ctb() {
        None
    } else {
        match unframe(s.skip(1)) {
            Some(body) => if body.len() >= 2 && body.len() >= 6 + body[1] {
                Some(body.skip(6 + body[1]))
            } else {
                None
            },
            None => None,
        }
    }
}

/// What is written to a literal writer is read out of what it passes on.
pub proof fn law_literal_reads_back(l: LiteralView, writes: Seq<Seq<u8>>)
    requires
        l.filename.len() <= 255,
    ensures
        read_literal(joined(literal_pieces(l, writes))) == Some(joined(writes)),
{
    let ctb = seq![Tag::Literal.spec_ctb()];
    let body = seq![l.headers()] + writes;
    let pieces = packet_pieces(Seq::empty(), body);
    let all = literal_pieces(l, writes);
    assert(all.skip(1) =~= pieces);
    assert(joined(all) == ctb + joined(pieces));
    assert(joined(all).skip(1) =~= joined(pieces));
    assert(body.skip(1) =~= writes);
    assert(joined(body) == l.headers() + joined(writes));
    lemma_pieces_joined(Seq::empty(), body);
    crate::framing::law_framing_keeps_content(Seq::empty(), body);
    assert(Seq::<u8>::empty() + joined(body) =~= joined(body));
    let n = l.headers().len() as int;
    assert(n == 6 + l.filename.len());
    assert(joined(body)[1] == l.headers()[1]);
    assert(joined(body).skip(n) =~= joined(writes));
}

/// The session key that the holder of a secret key gets out of what is encrypted
/// for it; `told` says whether the algorithm precedes the session key.
pub open spec fn session_key_for(
    key: KeyView,
    told: bool,
    secret: Seq<u8>,
    c: CiphertextView,
) -> Option<Seq<u8>> {
    match recovered(key, secret, c) {
        Some(p) => Some(
            if key.mpis is X25519 {
                p
            } else {
                p.subrange(
                    if told {
                        1
                    } else {
                        0
                    },
                    p.len() - 2,
                )
            },
        ),
        None => None,
    }
}

/// Whether whoever holds the secret key that belongs to the key of the recipient
/// at `i` gets the session key out of what is encrypted for it.
pub open spec fn recipient_gets_session_key(v: EncryptorView, draws: DrawsView, i: int) -> bool {
    let key = v.recipients[i].key;
    let c = draws.ciphertexts[i];
    forall|secret: Seq<u8>| #[trigger]
        belongs(key, secret) ==> session_key_for(key, v.told_algo() is Some, secret, c) == Some(
            v.key(draws),
        )
}

/// Whether the session key is encrypted for every recipient and with every
/// password, as an encryptor does it that is built.
pub open spec fn session_key_is_encrypted(v: EncryptorView, draws: DrawsView) -> bool {
    &&& v.refusal() is None
    &&& v.draws_fit(draws)
    &&& v.passwords_open(draws)
    &&& forall|i: int|
        0 <= i < v.recipients.len() ==> encrypted_for(
            (#[trigger] v.recipients[i]).key,
            v.told_algo(),
            v.key(draws),
            draws.ciphertexts[i],
        )
}

/// Every recipient gets the session key, and so does whoever knows one of the
/// passwords.
pub proof fn law_everyone_gets_session_key(v: EncryptorView, draws: DrawsView)
    requires
        session_key_is_encrypted(v, draws),
    ensures
        forall|i: int|
            0 <= i < v.recipients.len() ==> #[trigger] recipient_gets_session_key(v, draws, i),
        forall|i: int|
            0 <= i < v.passwords.len() ==> #[trigger] password_gets_session_key(v, draws, i),
{
    let sk = v.key(draws);
    assert(sk.len() <= 32);
    assert forall|i: int| 0 <= i < v.recipients.len() implies #[trigger] recipient_gets_session_key(
        v,
        draws,
        i,
    ) by {
        let key = v.recipients[i].key;
        let c = draws.ciphertexts[i];
        let told = v.told_algo();
        assert forall|secret: Seq<u8>| #[trigger] belongs(key, secret) implies session_key_for(
            key,
            told is Some,
            secret,
            c,
        ) == Some(sk) by {
            law_recipient_gets_session_key(key, told, sk, c, secret);
            let p = payload(told, sk);
            let start: int = if told is Some {
                1
            } else {
                0
            };
            assert(p.subrange(start, p.len() - 2) =~= sk);
        }
    }
    assert forall|i: int| 0 <= i < v.passwords.len() implies #[trigger] password_gets_session_key(
        v,
        draws,
        i,
    ) by {
        law_password_gets_session_key(v, draws, i);
    }
}

/// Once a literal writer on an encryptor is finalized, its packet has been
/// written to the encryptor.
proof fn lemma_literal_is_encrypted(
    v: EncryptorView,
    draws: DrawsView,
    l: LiteralView,
    writes: Seq<Seq<u8>>,
    out: Seq<u8>,
)
    requires
        l.inner == v.built(draws),
        v.aead() is None ==> draws.iv.len() >= 2,
        finalizes_to(feed_all(l.built(), writes), out),
    ensures
        finalizes_to(feed_all(v.built(draws), literal_pieces(l, writes)), out),
{
    let built = v.built(draws);
    let none = Seq::<Seq<u8>>::empty();
    if v.aead() is Some {
        assert(built.last().filter is Aead);
    } else {
        crate::laws::law_seip1_content(v, draws, none);
        assert(feed_all(built, none) == built);
    }
    assert(built.len() >= 1);
    assert(l.below() == built && l.stash() is None);
    let ls = feed_all(l.built(), writes);
    lemma_literal_top(l, writes);
    let next = choose|next: Seq<LayerView>|
        next.len() < ls.len() && #[trigger] finalized(ls, next) && finalizes_to(next, out);
    assert(finalized(ls, next));
    law_literal_gives_back(l, writes, next);
    let body = seq![l.headers()] + writes;
    let pieces = literal_pieces(l, writes);
    assert(next == packet_passed_on(built, Tag::Literal, body));
    lemma_feed_all_front(built, pieces);
    assert(pieces.skip(1) =~= packet_pieces(Seq::empty(), body));
}

/// What whoever has the session key reads out of version 2 of the encrypted data
/// packet, given what follows the first octet of the packet.
pub open spec fn read_seip2(
    symm: SymmetricAlgorithm,
    aead: AEADAlgorithm,
    sk: Seq<u8>,
    packet: Seq<u8>,
) -> Option<Seq<u8>> {
    match unframe(packet) {
        Some(s) => if s.len() >= 36 && s[0] == 2 {
            seip2_schedule(symm, aead, s.subrange(4, 36), sk).read(s.skip(36), 0, 0)
        } else {
            None
        },
        None => None,
    }
}

/// The headers of version 2 of the encrypted data packet, and what follows.
proof fn lemma_seip2_parts(v: EncryptorView, draws: DrawsView, c: Seq<u8>)
    requires
        draws.salt.len() == 32,
    ensures
        ({
            let s = v.seip2_headers(draws) + c;
            s.len() >= 36 && s[0] == 2 && s.subrange(4, 36) == draws.salt && s.skip(36) == c
        }),
{
    let s = v.seip2_headers(draws) + c;
    assert(s.subrange(4, 36) =~= draws.salt);
    assert(s.skip(36) =~= c);
}

/// A literal data packet that is encrypted in version 2 of the encrypted data
/// packet and written to a sink: the message consists of the packets for the
/// recipients, those for the passwords, and the encrypted data packet.  Each
/// recipient gets the session key, and so does whoever knows one of the
/// passwords; and whoever has the session key reads what was written.
pub proof fn law_everyone_reads_seip2_message(
    v: EncryptorView,
    draws: DrawsView,
    l: LiteralView,
    cookie: Cookie,
    sink: Seq<u8>,
    writes: Seq<Seq<u8>>,
    out: Seq<u8>,
)
    requires
        v.aead() is Some,
        session_key_is_encrypted(v, draws),
        v.inner == seq![LayerView { cookie, filter: FilterView::Sink(sink) }],
        cookie.private is Nothing,
        l.inner == v.built(draws),
        l.filename.len() <= 255,
        finalizes_to(feed_all(l.built(), writes), out),
    ensures
        forall|i: int|
            0 <= i < v.recipients.len() ==> #[trigger] recipient_gets_session_key(v, draws, i),
        forall|i: int|
            0 <= i < v.passwords.len() ==> #[trigger] password_gets_session_key(v, draws, i),
        ({
            let packet = joined(
                packet_pieces(Seq::empty(), seip2_writes(v, draws, literal_pieces(l, writes))),
            );
            let read = read_seip2(v.sym_algo, v.aead()->0, v.key(draws), packet);
            &&& out == sink + joined(v.pkesks(draws)) + joined(v.skesks(draws)) + seq![
                Tag::SEIP.spec_ctb(),
            ] + packet
            &&& read is Some
            &&& read_literal(read->0) == Some(joined(writes))
        }),
{
    let pieces = literal_pieces(l, writes);
    law_everyone_gets_session_key(v, draws);
    lemma_literal_is_encrypted(v, draws, l, writes, out);
    law_seip2_message(v, draws, cookie, sink, pieces, out);
    lemma_seip2_parts(v, draws, joined(aead_pieces(v.seip2_cipher(draws), pieces)));
    law_literal_reads_back(l, writes);
}

/// What whoever has the session key reads out of version 1 of the encrypted data
/// packet, given what follows the first octet of the packet: the packet that
/// detects modifications has to fit, and so have the two octets that are
/// repeated.
pub open spec fn read_seip1(symm: SymmetricAlgorithm, sk: Seq<u8>, packet: Seq<u8>) -> Option<
    Seq<u8>,
> {
    let block = symm.spec_block_size()->0 as int;
    match unframe(packet) {
        Some(s) => if s.len() >= 1 && s[0] == 1 {
            let p = CfbView { algo: symm, key: sk, data: Seq::empty() }.opened(s.skip(1));
            let all = p.take(p.len() - MDC_LEN);
            if p.len() >= block + 2 + MDC_LEN && p.skip(p.len() - MDC_LEN) == mdc_packet(all)
                && all.subrange(block - 2, block) == all.subrange(block, block + 2) {
                Some(all.skip(block + 2))
            } else {
                None
            }
        } else {
            None
        },
        None => None,
    }
}

/// A literal data packet that is encrypted in version 1 of the encrypted data
/// packet and written to a sink: the message consists of the packets for the
/// recipients, those for the passwords, and the encrypted data packet.  Each
/// recipient gets the session key, and so does whoever knows one of the
/// passwords; and whoever has the session key reads what was written.
pub proof fn law_everyone_reads_seip1_message(
    v: EncryptorView,
    draws: DrawsView,
    l: LiteralView,
    cookie: Cookie,
    sink: Seq<u8>,
    writes: Seq<Seq<u8>>,
    out: Seq<u8>,
)
    requires
        v.aead() is None,
        session_key_is_encrypted(v, draws),
        v.inner == seq![LayerView { cookie, filter: FilterView::Sink(sink) }],
        cookie.private is Nothing,
        l.inner == v.built(draws),
        l.filename.len() <= 255,
        finalizes_to(feed_all(l.built(), writes), out),
    ensures
        forall|i: int|
            0 <= i < v.recipients.len() ==> #[trigger] recipient_gets_session_key(v, draws, i),
        forall|i: int|
            0 <= i < v.passwords.len() ==> #[trigger] password_gets_session_key(v, draws, i),
        ({
            let packet = joined(
                packet_pieces(Seq::empty(), seip1_writes(v, draws, literal_pieces(l, writes))),
            );
            let read = read_seip1(v.sym_algo, v.key(draws), packet);
            &&& out == sink + joined(v.pkesks(draws)) + joined(v.skesks(draws)) + seq![
                Tag::SEIP.spec_ctb(),
            ] + packet
            &&& read is Some
            &&& read_literal(read->0) == Some(joined(writes))
        }),
{
    let pieces = literal_pieces(l, writes);
    law_everyone_gets_session_key(v, draws);
    assert(draws.iv.len() >= 2);
    lemma_literal_is_encrypted(v, draws, l, writes, out);
    law_seip1_message(v, draws, cookie, sink, pieces, out);
    law_literal_reads_back(l, writes);
    let c = joined(cfb_pieces(v.seip1_cipher(draws), seip1_plain(v, draws, pieces)));
    assert((seq![1u8] + c).skip(1) =~= c);
    let iv = draws.iv;
    let block = iv.len() as int;
    let all = v.seip1_prefix(draws) + joined(pieces);
    let p = all + mdc_packet(all);
    assert(p.take(p.len() - MDC_LEN) =~= all);
    assert(p.skip(p.len() - MDC_LEN) =~= mdc_packet(all));
    assert(all.subrange(block - 2, block) =~= iv.skip(block - 2));
    assert(all.subrange(block, block + 2) =~= iv.skip(block - 2));
    assert(all.skip(block + 2) =~= joined(pieces));
}

/// If the last octet of a message that is encrypted in version 2 of the encrypted
/// data packet is changed, then the message is refused: either its framing is no
/// longer intact, or all that was written is handed out and then the last tag is
/// found not to fit.
pub proof fn law_changed_message_is_refused(
    v: EncryptorView,
    draws: DrawsView,
    cookie: Cookie,
    sink: Seq<u8>,
    writes: Seq<Seq<u8>>,
    out: Seq<u8>,
    octet: u8,
)
    requires
        v.aead() is Some,
        draws.salt.len() == 32,
        v.inner == seq![LayerView { cookie, filter: FilterView::Sink(sink) }],
        cookie.private is Nothing,
        finalizes_to(feed_all(v.built(draws), writes), out),
        octet != out.last(),
    ensures
        ({
            let packet = joined(packet_pieces(Seq::empty(), seip2_writes(v, draws, writes)));
            let changed = with_last(packet, octet);
            &&& with_last(out, octet) == sink + joined(v.pkesks(draws)) + joined(v.skesks(draws))
                + seq![Tag::SEIP.spec_ctb()] + changed
            &&& read_seip2(v.sym_algo, v.aead()->0, v.key(draws), changed) is None
            &&& unframe(changed) matches Some(s) ==> v.seip2_cipher(draws).handed_out(
                s.skip(36),
                0,
                0,
            ) == joined(writes)
        }),
{
    let body = seip2_writes(v, draws, writes);
    let packet = joined(packet_pieces(Seq::empty(), body));
    let headers = v.seip2_headers(draws);
    let a = v.seip2_cipher(draws);
    let c = joined(aead_pieces(a, writes));
    law_seip2_message(v, draws, cookie, sink, writes, out);
    lemma_pieces_joined(Seq::empty(), body);
    law_framing_of_a_changed_octet(Seq::empty(), body, octet);
    let start = sink + joined(v.pkesks(draws)) + joined(v.skesks(draws)) + seq![
        Tag::SEIP.spec_ctb(),
    ];
    assert(out == start + packet);
    assert(out.last() == packet.last());
    assert(with_last(out, octet) =~= start + with_last(packet, octet));
    assert(body.skip(1) =~= aead_pieces(a, writes));
    assert(Seq::<u8>::empty() + joined(body) =~= headers + c);
    assert(c.len() >= 16);
    let other = with_last(c, octet);
    assert(with_last(headers + c, octet) =~= headers + other);
    lemma_seip2_parts(v, draws, other);
    if unframe(with_last(packet, octet)) is Some {
        assert(octet != (headers + c).last());
        assert(c.take(c.len() - 16) =~= other.take(c.len() - 16));
        assert(c.last() != other.last());
        assert(AeadView::retagged(c, other));
        assert(refused_at_the_end(a, c, joined(writes)));
    }
}

} // verus!
