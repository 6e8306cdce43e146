//! Laws on what is read out of encrypted messages.

use vstd::prelude::*;

use crate::backend::{
    ec_pair, hkdf, is_pkcs1_padding, key_unwrapped, pkcs1_encoded, rsa_public, sealed, unsealed,
    x25519_public, x25519_shared, MAX_LEN,
};
use crate::cipher::{
    lemma_aead_grows, lemma_handed_out_same, lemma_read_same, seip2_schedule, AeadView, CfbView, AEAD_CHUNK_OCTET,
};
use crate::ecdh;
use crate::encryptor::{DrawsView, EncryptorView};
use crate::error::ErrorView;
use crate::esk::{payload, skesk6_aad, skesk6_body};
use crate::framing::{joined, packet, unframe, Tag};
use crate::hashing::{s2k, s2k_specifier};
use crate::key::{
    lemma_number_bounds, lemma_number_stripped, number, strip_zeros, CiphertextView, KeyView,
    PublicKeyView,
};
use crate::laws::{
    law_seip2_content, law_sink_collects, lemma_feed_all_front, lemma_feed_sink, packet_pieces,
};
use crate::pk::{encrypted_for, is_cv25519, native_point, x25519_kek};
use crate::readback::{
    law_packet_is_passed_on, lemma_feed_all_concat, lemma_joined_concat, lemma_joined_one,
    lemma_profile_of_sink, packet_passed_on,
};
use crate::stack::{
    ended, feed, feed_all, finalized, finalizes_to, lemma_feed_nothing, lemma_feed_shape,
    lemma_feed_step, mdc_packet, peel, unstack, Cookie, FilterView, LayerView, Private, MDC_LEN,
};
use crate::stream::{next_level, packet_started};
use crate::types::{AEADAlgorithm, Profile, SymmetricAlgorithm};

verus! {

/// What an authenticated cipher passes on, piece by piece, while `writes` are
/// written to it and it is finalized.
pub open spec fn aead_pieces(a: AeadView, writes: Seq<Seq<u8>>) -> Seq<Seq<u8>>
    decreases writes.len(),
{
    if writes.len() == 0 {
        seq![a.rest()]
    } else {
        seq![a.push(writes[0]).sent().skip(a.sent().len() as int)] + aead_pieces(
            a.push(writes[0]),
            writes.skip(1),
        )
    }
}

/// However data is cut into writes to an authenticated cipher, the writers
/// below get, taken together, the whole encryption of the data.
#[verifier::rlimit(40)]
pub proof fn law_aead_passes_on(
    base: Seq<LayerView>,
    cookie: Cookie,
    a: AeadView,
    writes: Seq<Seq<u8>>,
)
    ensures
        peel(
            feed_all(base.push(LayerView { cookie, filter: FilterView::Aead(a) }), writes),
        ) == feed_all(base, aead_pieces(a, writes)),
        a.sent() + joined(aead_pieces(a, writes)) == a.push(joined(writes)).sent() + a.push(
            joined(writes),
        ).rest(),
        feed_all(
            base.push(LayerView { cookie, filter: FilterView::Aead(a) }),
            writes,
        ).last() == (LayerView { cookie, filter: FilterView::Aead(a.push(joined(writes))) }),
        feed_all(base.push(LayerView { cookie, filter: FilterView::Aead(a) }), writes).len()
            == base.len() + 1,
    decreases writes.len(),
{
    let top = LayerView { cookie, filter: FilterView::Aead(a) };
    let ls = base.push(top);
    let pieces = aead_pieces(a, writes);
    if writes.len() == 0 {
        assert(ls.drop_last() =~= base);
        assert(pieces.drop_last() =~= Seq::<Seq<u8>>::empty());
        assert(feed_all(base, pieces.drop_last()) == base);
        lemma_joined_one(a.rest());
        assert(a.push(joined(writes)) =~= a);
    } else {
        let w = writes[0];
        let rest = writes.skip(1);
        let b = a.push(w);
        let out = b.sent().skip(a.sent().len() as int);
        lemma_feed_all_front(ls, writes);
        lemma_feed_all_front(base, pieces);
        assert(pieces.skip(1) =~= aead_pieces(b, rest));
        lemma_aead_grows(a, w);
        let tail = joined(aead_pieces(b, rest));
        assert(a.sent() + (out + tail) =~= (a.sent() + out) + tail);
        assert(b.push(joined(rest)) =~= a.push(joined(writes)));
        if w.len() == 0 {
            assert(b =~= a);
            assert(out =~= Seq::<u8>::empty());
            lemma_feed_nothing(ls, w);
            lemma_feed_nothing(base, out);
            law_aead_passes_on(base, cookie, a, rest);
        } else {
            lemma_feed_step(base, top, w);
            lemma_feed_shape(base, out);
            law_aead_passes_on(feed(base, out), cookie, b, rest);
        }
    }
}

impl EncryptorView {
    /// The stack below an encrypted data packet, with the packets for the
    /// recipients and for the passwords.
    pub open spec fn keyed(self, draws: DrawsView) -> Seq<LayerView> {
        feed_all(feed_all(self.profiled(), self.pkesks(draws)), self.skesks(draws))
    }

    /// The headers of version 2 of the encrypted data packet.
    pub open spec fn seip2_headers(self, draws: DrawsView) -> Seq<u8> {
        seq![
            2u8,
            self.sym_algo.spec_octet(),
            self.aead()->0.spec_octet(),
            AEAD_CHUNK_OCTET,
        ] + draws.salt
    }

    /// The cipher of version 2 of the encrypted data packet.
    pub open spec fn seip2_cipher(self, draws: DrawsView) -> AeadView {
        seip2_schedule(self.sym_algo, self.aead()->0, draws.salt, self.key(draws))
    }

    /// The cipher of version 1 of the encrypted data packet.
    pub open spec fn seip1_cipher(self, draws: DrawsView) -> CfbView {
        CfbView { algo: self.sym_algo, key: self.key(draws), data: Seq::empty() }
    }

    /// What precedes the data in version 1 of the encrypted data packet.
    pub open spec fn seip1_prefix(self, draws: DrawsView) -> Seq<u8> {
        draws.iv + draws.iv.skip(draws.iv.len() - 2)
    }
}

/// What is written to the framing of version 2 of the encrypted data packet.
pub open spec fn seip2_writes(
    v: EncryptorView,
    draws: DrawsView,
    writes: Seq<Seq<u8>>,
) -> Seq<Seq<u8>> {
    seq![v.seip2_headers(draws)] + aead_pieces(v.seip2_cipher(draws), writes)
}

/// Whether encrypted data is refused once its last tag is changed, after the
/// data has been handed out.
pub open spec fn refused_at_the_end(a: AeadView, c: Seq<u8>, data: Seq<u8>) -> bool {
    forall|other: Seq<u8>| #[trigger]
        AeadView::retagged(c, other) ==> a.read(other, 0, 0) is None && a.handed_out(other, 0, 0)
            == data
}

/// Finalizing an encryptor that makes version 2 of the encrypted data packet,
/// and then the framing, gives back the stack below, to which the packets that
/// hold the session key and the whole packet have been passed on.  What is read
/// out of its framing are the headers and the encrypted data, and whoever has
/// the session key reads what was written out of that, and is told if the last
/// tag was changed.
#[verifier::rlimit(60)]
pub proof fn law_seip2_reads_back(
    v: EncryptorView,
    draws: DrawsView,
    writes: Seq<Seq<u8>>,
    mid: Seq<LayerView>,
    next: Seq<LayerView>,
)
    requires
        v.aead() is Some,
        v.inner.len() >= 1,
        finalized(feed_all(v.built(draws), writes), mid),
        finalized(mid, next),
    ensures
        ({
            let body = seip2_writes(v, draws, writes);
            let c = joined(aead_pieces(v.seip2_cipher(draws), writes));
            &&& next == packet_passed_on(v.keyed(draws), Tag::SEIP, body)
            &&& unframe(joined(packet_pieces(Seq::empty(), body))) == Some(
                v.seip2_headers(draws) + c,
            )
            &&& v.seip2_cipher(draws).read(c, 0, 0) == Some(joined(writes))
            &&& refused_at_the_end(v.seip2_cipher(draws), c, joined(writes))
        }),
{
    let level = next_level(v.inner);
    let started = packet_started(v.keyed(draws), Tag::SEIP, level);
    let headers = v.seip2_headers(draws);
    let a = v.seip2_cipher(draws);
    let pieces = aead_pieces(a, writes);
    let body = seip2_writes(v, draws, writes);
    let base = feed(started, headers);
    let built = v.built(draws);
    let cookie = built.last().cookie;
    assert(built == base.push(LayerView { cookie, filter: FilterView::Aead(a) }));
    law_aead_passes_on(base, cookie, a, writes);
    let ls = feed_all(built, writes);
    let b = a.push(joined(writes));
    assert(unstack(ls) == peel(ls));
    assert(mid == feed_all(base, pieces));
    assert(body.skip(1) =~= pieces);
    lemma_feed_all_front(started, body);
    assert(mid == feed_all(started, body));
    law_packet_is_passed_on(v.keyed(draws), Tag::SEIP, level, body);
    assert(unstack(mid) == peel(mid));
    assert(joined(body) == headers + joined(pieces));
    // Nothing has come out before any data.
    assert(a.sent() =~= Seq::<u8>::empty());
    assert(a.sent() + joined(pieces) =~= joined(pieces));
    assert(b.data =~= joined(writes));
    assert(b.opens());
    let c = joined(pieces);
    lemma_read_same(a, b, c, 0, 0);
    assert forall|other: Seq<u8>| #[trigger] AeadView::retagged(c, other) implies a.read(
        other,
        0,
        0,
    ) is None && a.handed_out(other, 0, 0) == joined(writes) by {
        lemma_read_same(a, b, other, 0, 0);
        lemma_handed_out_same(a, b, other, 0, 0);
    }
}

/// What a cipher in feedback mode passes on, piece by piece, while `writes` are
/// written to it.
pub open spec fn cfb_pieces(c: CfbView, writes: Seq<Seq<u8>>) -> Seq<Seq<u8>>
    decreases writes.len(),
{
    if writes.len() == 0 {
        Seq::empty()
    } else {
        seq![c.push(writes[0]).sent().skip(c.sent().len() as int)] + cfb_pieces(
            c.push(writes[0]),
            writes.skip(1),
        )
    }
}

/// What comes out for the first octets of data that is encrypted.
proof fn lemma_cfb_start(c: CfbView, all: CfbView)
    requires
        all.opens(),
        all == (CfbView { data: all.data, ..c }),
        c.data.len() <= all.data.len(),
        all.data.take(c.data.len() as int) == c.data,
    ensures
        c.sent() == all.sent().take(c.data.len() as int),
        c.sent().len() == c.data.len(),
{
    assert(all.first(c.data.len() as int) =~= c);
}

/// However data is cut into writes to a cipher in feedback mode, what comes out
/// is, taken together, the encryption of the data.
#[verifier::rlimit(40)]
proof fn lemma_cfb_pieces(c: CfbView, all: CfbView, writes: Seq<Seq<u8>>)
    requires
        all.opens(),
        all == (CfbView { data: c.data + joined(writes), ..c }),
    ensures
        c.sent() + joined(cfb_pieces(c, writes)) == all.sent(),
    decreases writes.len(),
{
    assert(all.data.take(c.data.len() as int) =~= c.data);
    lemma_cfb_start(c, all);
    let pieces = cfb_pieces(c, writes);
    if writes.len() == 0 {
        assert(all.data =~= c.data);
        assert(all.sent().take(c.data.len() as int) =~= all.sent());
        assert(c.sent() + joined(pieces) =~= c.sent());
    } else {
        let w = writes[0];
        let rest = writes.skip(1);
        let b = c.push(w);
        let out = b.sent().skip(c.sent().len() as int);
        assert(b.data + joined(rest) =~= c.data + joined(writes));
        assert(all.data.take(b.data.len() as int) =~= b.data);
        lemma_cfb_start(b, all);
        lemma_cfb_pieces(b, all, rest);
        assert(pieces.skip(1) =~= cfb_pieces(b, rest));
        assert(b.sent().take(c.sent().len() as int) =~= c.sent());
        assert(c.sent() + out =~= b.sent());
        let tail = joined(cfb_pieces(b, rest));
        assert(c.sent() + (out + tail) =~= (c.sent() + out) + tail);
    }
}

/// Writing to an encryptor hashes, and writes the encryption of the data to
/// the writers below.
#[verifier::rlimit(40)]
proof fn lemma_encryptor_passes_on(
    base: Seq<LayerView>,
    cookie: Cookie,
    c: CfbView,
    outer: Cookie,
    h: Seq<u8>,
    writes: Seq<Seq<u8>>,
)
    ensures
        feed_all(
            base.push(LayerView { cookie, filter: FilterView::Cfb(c) }).push(
                LayerView { cookie: outer, filter: FilterView::Encryptor(h) },
            ),
            writes,
        ) == feed_all(base, cfb_pieces(c, writes)).push(
            LayerView { cookie, filter: FilterView::Cfb(c.push(joined(writes))) },
        ).push(LayerView { cookie: outer, filter: FilterView::Encryptor(h + joined(writes)) }),
    decreases writes.len(),
{
    let cfb = LayerView { cookie, filter: FilterView::Cfb(c) };
    let top = LayerView { cookie: outer, filter: FilterView::Encryptor(h) };
    let ls = base.push(cfb).push(top);
    let pieces = cfb_pieces(c, writes);
    if writes.len() == 0 {
        assert(h + joined(writes) =~= h);
        assert(c.push(joined(writes)) =~= c);
    } else {
        let w = writes[0];
        let rest = writes.skip(1);
        let out = c.push(w).sent().skip(c.sent().len() as int);
        lemma_feed_all_front(ls, writes);
        lemma_feed_all_front(base, pieces);
        assert(pieces.skip(1) =~= cfb_pieces(c.push(w), rest));
        assert((h + w) + joined(rest) =~= h + joined(writes));
        assert(c.push(w).push(joined(rest)) =~= c.push(joined(writes)));
        if w.len() == 0 {
            assert(c.push(w) =~= c);
            assert(h + w =~= h);
            assert(out =~= Seq::<u8>::empty());
            lemma_feed_nothing(ls, w);
            lemma_feed_nothing(base, out);
            lemma_encryptor_passes_on(base, cookie, c, outer, h, rest);
        } else {
            lemma_feed_step(base.push(cfb), top, w);
            lemma_feed_step(base, cfb, w);
            lemma_encryptor_passes_on(feed(base, out), cookie, c.push(w), outer, h + w, rest);
        }
    }
}

/// What is put through the cipher of version 1 of the encrypted data packet,
/// piece by piece: what precedes the data, the data, and the packet that
/// detects modifications.
pub open spec fn seip1_plain(
    v: EncryptorView,
    draws: DrawsView,
    writes: Seq<Seq<u8>>,
) -> Seq<Seq<u8>> {
    let prefix = v.seip1_prefix(draws);
    seq![draws.iv, draws.iv.skip(draws.iv.len() - 2)] + writes + seq![
        mdc_packet(prefix + joined(writes)),
    ]
}

/// What is written to the framing of version 1 of the encrypted data packet.
pub open spec fn seip1_writes(
    v: EncryptorView,
    draws: DrawsView,
    writes: Seq<Seq<u8>>,
) -> Seq<Seq<u8>> {
    seq![seq![1u8]] + cfb_pieces(v.seip1_cipher(draws), seip1_plain(v, draws, writes))
}

/// Finalizing an encryptor that makes version 1 of the encrypted data packet
/// gives back the stack below, to which the packets that hold the session key
/// and the whole packet have been passed on.  What is read out of its framing
/// are the version and the encrypted data, and whoever has the session key
/// reads the random block, its last two octets once more, what was written, and
/// the packet that detects modifications out of that.
#[verifier::rlimit(60)]
#[verifier::spinoff_prover]
pub proof fn law_seip1_reads_back(
    v: EncryptorView,
    draws: DrawsView,
    writes: Seq<Seq<u8>>,
    next: Seq<LayerView>,
)
    requires
        v.aead() is None,
        v.inner.len() >= 1,
        draws.iv.len() >= 2,
        finalized(feed_all(v.built(draws), writes), next),
    ensures
        ({
            let body = seip1_writes(v, draws, writes);
            let c = joined(cfb_pieces(v.seip1_cipher(draws), seip1_plain(v, draws, writes)));
            let all = v.seip1_prefix(draws) + joined(writes);
            &&& next == packet_passed_on(v.keyed(draws), Tag::SEIP, body)
            &&& unframe(joined(packet_pieces(Seq::empty(), body))) == Some(seq![1u8] + c)
            &&& v.seip1_cipher(draws).opened(c) == all + mdc_packet(all)
            &&& mdc_packet(all).len() == MDC_LEN
        }),
{
    let level = next_level(v.inner);
    let started = packet_started(v.keyed(draws), Tag::SEIP, level);
    let iv = draws.iv;
    let again = iv.skip(iv.len() - 2);
    let c = v.seip1_cipher(draws);
    let base = feed(started, seq![1u8]);
    let cookie = Cookie { level, private: Private::Nothing };
    let outer = Cookie { level, private: Private::Encryptor { profile: Profile::RFC4880 } };
    let mounted = base.push(LayerView { cookie, filter: FilterView::Cfb(c) }).push(
        LayerView { cookie: outer, filter: FilterView::Encryptor(Seq::empty()) },
    );
    // What is written before the end.
    let pieces = seq![iv, again] + writes;
    lemma_feed_all_front(mounted, pieces);
    assert(pieces.skip(1) =~= seq![again] + writes);
    lemma_feed_all_front(feed(mounted, iv), pieces.skip(1));
    assert(pieces.skip(1).skip(1) =~= writes);
    let ls = feed_all(v.built(draws), writes);
    assert(v.built(draws) == feed(feed(mounted, iv), again));
    assert(feed_all(mounted, pieces) == ls);
    let all = v.seip1_prefix(draws) + joined(writes);
    assert(joined(pieces.skip(1)) == again + joined(writes));
    assert(joined(pieces) == iv + (again + joined(writes)));
    assert(joined(pieces) =~= all);
    lemma_encryptor_passes_on(base, cookie, c, outer, Seq::empty(), pieces);
    assert(Seq::<u8>::empty() + joined(pieces) =~= all);
    // The end.
    let mdc = mdc_packet(all);
    let sent = feed_all(base, cfb_pieces(c, pieces));
    let d = c.push(all);
    let cfb = LayerView { cookie, filter: FilterView::Cfb(d) };
    assert(ls.drop_last() =~= sent.push(cfb));
    assert(ls.last().filter == FilterView::Encryptor(all));
    let e = d.push(mdc);
    let last = e.sent().skip(d.sent().len() as int);
    lemma_feed_step(sent, cfb, mdc);
    let fed = feed(ls.drop_last(), mdc);
    let after = LayerView { cookie, filter: FilterView::Cfb(e) };
    assert(fed == feed(sent, last).push(after));
    assert(fed.drop_last() =~= feed(sent, last));
    lemma_feed_nothing(fed.drop_last(), fed.last().rest());
    assert(peel(fed) == feed(sent, last));
    assert(next == peel(feed(sent, last)));
    // All of the pieces.
    let plain = seip1_plain(v, draws, writes);
    assert(plain == pieces + seq![mdc]);
    lemma_cfb_pieces_push(c, pieces, mdc);
    let out = cfb_pieces(c, plain);
    assert(out == cfb_pieces(c, pieces) + seq![last]);
    lemma_feed_all_concat(base, cfb_pieces(c, pieces), seq![last]);
    assert(seq![last].drop_last() =~= Seq::<Seq<u8>>::empty());
    assert(feed_all(sent, seq![last].drop_last()) == sent);
    assert(feed_all(sent, seq![last]) == feed(sent, last));
    let body = seip1_writes(v, draws, writes);
    assert(body.skip(1) =~= out);
    lemma_feed_all_front(started, body);
    assert(feed(sent, last) == feed_all(started, body));
    law_packet_is_passed_on(v.keyed(draws), Tag::SEIP, level, body);
    assert(joined(body) == seq![1u8] + joined(out));
    // Reading.
    lemma_joined_concat(pieces, seq![mdc]);
    lemma_joined_one(mdc);
    assert(e.data =~= all + mdc);
    assert(e == (CfbView { data: c.data + joined(plain), ..c })) by {
        assert(c.data + joined(plain) =~= all + mdc);
    }
    assert(e.opens());
    lemma_cfb_pieces(c, e, plain);
    assert(e.first(0) =~= c);
    assert(c.sent() =~= e.sent().take(0));
    assert(c.sent() + joined(out) =~= joined(out));
}

/// The pieces that come out for one more piece.
proof fn lemma_cfb_pieces_push(c: CfbView, writes: Seq<Seq<u8>>, w: Seq<u8>)
    ensures
        cfb_pieces(c, writes + seq![w]) == cfb_pieces(c, writes) + seq![
            c.push(joined(writes)).push(w).sent().skip(
                c.push(joined(writes)).sent().len() as int,
            ),
        ],
    decreases writes.len(),
{
    let all = writes + seq![w];
    if writes.len() == 0 {
        assert(all =~= seq![w]);
        assert(all.skip(1) =~= Seq::<Seq<u8>>::empty());
        assert(c.push(joined(writes)) =~= c);
        assert(cfb_pieces(c.push(w), all.skip(1)) =~= Seq::<Seq<u8>>::empty());
        assert(cfb_pieces(c, all) =~= cfb_pieces(c, writes) + seq![
            c.push(w).sent().skip(c.sent().len() as int),
        ]);
    } else {
        let b = c.push(writes[0]);
        let rest = writes.skip(1);
        lemma_cfb_pieces_push(b, rest, w);
        assert(all.skip(1) =~= rest + seq![w]);
        assert(b.push(joined(rest)) =~= c.push(joined(writes)));
        let piece = b.sent().skip(c.sent().len() as int);
        assert(seq![piece] + (cfb_pieces(b, rest) + seq![
            b.push(joined(rest)).push(w).sent().skip(b.push(joined(rest)).sent().len() as int),
        ]) =~= (seq![piece] + cfb_pieces(b, rest)) + seq![
            b.push(joined(rest)).push(w).sent().skip(b.push(joined(rest)).sent().len() as int),
        ]);
    }
}

/// What a packet leaves in a sink.
proof fn lemma_packet_in_sink(
    v: EncryptorView,
    draws: DrawsView,
    cookie: Cookie,
    sink: Seq<u8>,
    body: Seq<Seq<u8>>,
)
    requires
        v.inner == seq![LayerView { cookie, filter: FilterView::Sink(sink) }],
        cookie.private is Nothing,
    ensures
        packet_passed_on(v.keyed(draws), Tag::SEIP, body) == seq![
            LayerView {
                cookie,
                filter: FilterView::Sink(
                    sink + joined(v.pkesks(draws)) + joined(v.skesks(draws)) + seq![
                        Tag::SEIP.spec_ctb(),
                    ] + joined(packet_pieces(Seq::empty(), body)),
                ),
            },
        ],
{
    lemma_profile_of_sink(v.inner, cookie, sink, Profile::RFC9580);
    let a = sink + joined(v.pkesks(draws));
    let b = a + joined(v.skesks(draws));
    let first = seq![Tag::SEIP.spec_ctb()];
    law_sink_collects(sink, cookie, v.pkesks(draws));
    law_sink_collects(a, cookie, v.skesks(draws));
    lemma_feed_sink(b, cookie, first);
    law_sink_collects(b + first, cookie, packet_pieces(Seq::empty(), body));
}

/// A number in network order, to a number of octets.
pub open spec fn octets_of(x: nat, len: nat) -> Seq<u8>
    decreases len,
{
    if len == 0 {
        Seq::empty()
    } else {
        octets_of(x / 256, (len - 1) as nat).push((x % 256) as u8)
    }
}

proof fn lemma_octets_of(s: Seq<u8>)
    ensures
        octets_of(number(s), s.len()) == s,
    decreases s.len(),
{
    if s.len() > 0 {
        lemma_octets_of(s.drop_last());
        assert(s.drop_last().push(s.last()) =~= s);
    }
}

/// What follows the first zero.
pub open spec fn after_zero(s: Seq<u8>) -> Option<Seq<u8>>
    decreases s.len(),
{
    if s.len() == 0 {
        None
    } else if s[0] == 0 {
        Some(s.skip(1))
    } else {
        after_zero(s.skip(1))
    }
}

/// The message that is encoded for RSA by PKCS #1.
pub open spec fn pkcs1_decoded(s: Seq<u8>) -> Option<Seq<u8>> {
    if s.len() >= 2 && s[0] == 0 && s[1] == 2 {
        after_zero(s.skip(2))
    } else {
        None
    }
}

proof fn lemma_after_zero(padding: Seq<u8>, data: Seq<u8>)
    requires
        forall|i: int| 0 <= i < padding.len() ==> padding[i] != 0,
    ensures
        after_zero(padding + seq![0u8] + data) == Some(data),
    decreases padding.len(),
{
    let s = padding + seq![0u8] + data;
    if padding.len() == 0 {
        assert(s.skip(1) =~= data);
    } else {
        lemma_after_zero(padding.skip(1), data);
        assert(s.skip(1) =~= padding.skip(1) + seq![0u8] + data);
    }
}

/// What the holder of a secret key gets out of a session key that is encrypted
/// for it, where this needs no more than the names of what the cryptographic
/// library computes.
pub open spec fn recovered(key: KeyView, secret: Seq<u8>, c: CiphertextView) -> Option<Seq<u8>> {
    match (key.mpis, c) {
        (PublicKeyView::RSA { n, .. }, CiphertextView::RSA { c }) => pkcs1_decoded(
            octets_of(
                rsa_public(number(n), number(secret), number(c)) as nat,
                strip_zeros(n).len(),
            ),
        ),
        (PublicKeyView::X25519 { u }, CiphertextView::X25519 { e, key: wrapped }) => match x25519_shared(
            secret,
            e,
        ) {
            Some(shared) => key_unwrapped(x25519_kek(e, u, shared)->0, wrapped),
            None => None,
        },
        (PublicKeyView::ECDH { .. }, CiphertextView::ECDH { e, key: wrapped }) => if is_cv25519(
            key.mpis,
        ) {
            match x25519_shared(secret, e.skip(1)) {
                Some(shared) => ok_of(ecdh::unwrapped(key, shared, wrapped, None)),
                None => None,
            }
        } else {
            ok_of(ecdh::decryption(key, secret, c, None))
        },
        _ => None,
    }
}

/// The value of a result, if it is one.
pub open spec fn ok_of(r: std::result::Result<Seq<u8>, ErrorView>) -> Option<Seq<u8>> {
    match r {
        Ok(s) => Some(s),
        Err(_) => None,
    }
}

/// Whether a secret exponent belongs to an RSA key: it undoes the public
/// operation.
pub open spec fn is_rsa_secret(n: nat, e: nat, d: nat) -> bool {
    forall|m: nat| m < n ==> rsa_public(n, d, #[trigger] rsa_public(n, e, m) as nat) == m
}

/// Whether a secret key belongs to a public key.
pub open spec fn belongs(key: KeyView, secret: Seq<u8>) -> bool {
    match key.mpis {
        PublicKeyView::RSA { e, n } => is_rsa_secret(number(n), number(e), number(secret)),
        PublicKeyView::X25519 { u } => u == x25519_public(secret) && secret.len() == 32,
        PublicKeyView::ECDH { q, .. } => if is_cv25519(key.mpis) {
            q == native_point(x25519_public(secret)) && secret.len() == 32
        } else {
            ec_pair(ecdh::group(key.mpis)->Ok_0, secret, q) && secret.len() <= MAX_LEN
        },
        _ => false,
    }
}

/// Whoever holds the secret key that belongs to the key of a recipient gets the
/// session key out of what was encrypted for it: with X25519 alone, with other
/// keys with its checksum, and after the algorithm if that is told.
pub proof fn law_recipient_gets_session_key(
    key: KeyView,
    algo: Option<SymmetricAlgorithm>,
    sk: Seq<u8>,
    c: CiphertextView,
    secret: Seq<u8>,
)
    requires
        encrypted_for(key, algo, sk, c),
        belongs(key, secret),
        sk.len() <= 32,
    ensures
        recovered(key, secret, c) == Some(
            if key.mpis is X25519 {
                sk
            } else {
                payload(algo, sk)
            },
        ),
{
    let plain = payload(algo, sk);
    assert(plain.len() < ecdh::PADDED_LEN);
    if key.mpis is RSA {
        lemma_rsa_recipient(key, algo, sk, c, secret);
    }
    if key.mpis is ECDH && !is_cv25519(key.mpis) {
        assert(ecdh::opens(key, plain, c));
        ecdh::law_decrypts_what_was_encrypted(key, plain, c, secret);
    }
}

/// Whoever holds the secret exponent that belongs to the RSA key of a recipient
/// gets the session key out of what was encrypted for it.
proof fn lemma_rsa_recipient(
    key: KeyView,
    algo: Option<SymmetricAlgorithm>,
    sk: Seq<u8>,
    c: CiphertextView,
    secret: Seq<u8>,
)
    requires
        key.mpis is RSA,
        encrypted_for(key, algo, sk, c),
        belongs(key, secret),
    ensures
        recovered(key, secret, c) == Some(payload(algo, sk)),
{
    let n = key.mpis->n;
    let e = key.mpis->e;
    let plain = payload(algo, sk);
    let padding = choose|padding: Seq<u8>|
        {
            let encoded = #[trigger] pkcs1_encoded(padding, plain);
            &&& is_pkcs1_padding(padding)
            &&& encoded.len() == strip_zeros(n).len()
            &&& c->RSA_c.len() == encoded.len()
            &&& number(c->RSA_c) == rsa_public(number(n), number(e), number(encoded))
        };
    let encoded = pkcs1_encoded(padding, plain);
    // The encoded message is smaller than the modulus.
    lemma_number_stripped(n);
    lemma_number_bounds(strip_zeros(n));
    lemma_number_bounds(encoded);
    assert(encoded[0] == 0);
    assert(number(encoded) < number(n));
    assert(rsa_public(number(n), number(e), number(encoded)) as nat == number(c->RSA_c));
    lemma_octets_of(encoded);
    lemma_after_zero(padding, plain);
    assert(encoded.skip(2) =~= padding + seq![0u8] + plain);
}

/// What whoever knows a password gets out of the session key that is encrypted
/// with it, in version 2.
pub open spec fn password_recovers6(
    v: EncryptorView,
    aead: AEADAlgorithm,
    draws: DrawsView,
    i: int,
    esk: Seq<u8>,
) -> Option<Seq<u8>> {
    let k = v.sym_algo.spec_key_size()->0 as int;
    let aad = skesk6_aad(v.sym_algo, aead);
    unsealed(
        aead.spec_nid(v.sym_algo)->0,
        hkdf(s2k(draws.s2k_salts[i], v.passwords[i], k), Seq::empty(), aad, k)->0,
        draws.nonces[i],
        aad,
        esk,
    )
}

/// Whether whoever knows a password gets the session key out of the packet for
/// it: in version 2 of the encrypted data packet the packet holds the salt, the
/// nonce and the encrypted session key, and decrypting that gives the session
/// key; in version 1 it holds the salt and the encrypted session key, and
/// decrypting that gives the algorithm and the session key.
pub open spec fn password_gets_session_key(v: EncryptorView, draws: DrawsView, i: int) -> bool {
    match v.aead() {
        Some(aead) => exists|esk: Seq<u8>|
            {
                &&& v.skesks(draws)[i] == packet(
                    Tag::SKESK,
                    #[trigger] skesk6_body(
                        v.sym_algo,
                        aead,
                        draws.s2k_salts[i],
                        draws.nonces[i],
                        esk,
                    ),
                )
                &&& password_recovers6(v, aead, draws, i, esk) == Some(v.key(draws))
            },
        None => ({
            let c = CfbView {
                algo: v.sym_algo,
                key: s2k(
                    draws.s2k_salts[i],
                    v.passwords[i],
                    v.sym_algo.spec_key_size()->0 as int,
                ),
                data: seq![v.sym_algo.spec_octet()] + v.key(draws),
            };
            &&& v.skesks(draws)[i] == packet(
                Tag::SKESK,
                seq![4u8, v.sym_algo.spec_octet()] + s2k_specifier(draws.s2k_salts[i]) + c.sent(),
            )
            &&& c.opened(c.sent()) == seq![v.sym_algo.spec_octet()] + v.key(draws)
        }),
    }
}

/// Whoever knows a password gets the session key out of the packet for it.
pub proof fn law_password_gets_session_key(v: EncryptorView, draws: DrawsView, i: int)
    requires
        0 <= i < v.passwords.len(),
        v.passwords_open(draws),
    ensures
        password_gets_session_key(v, draws, i),
{
    assert(v.skesk_opens(draws, i));
    assert(v.skesks(draws)[i] == v.skesk(draws, i));
    match v.aead() {
        Some(aead) => {
            let k = v.sym_algo.spec_key_size()->0 as int;
            let aad = skesk6_aad(v.sym_algo, aead);
            let key = hkdf(
                s2k(draws.s2k_salts[i], v.passwords[i], k),
                Seq::empty(),
                aad,
                k,
            )->0;
            let esk = sealed(
                aead.spec_nid(v.sym_algo)->0,
                key,
                draws.nonces[i],
                aad,
                v.key(draws),
            );
            assert(v.skesk(draws, i) == packet(
                Tag::SKESK,
                skesk6_body(v.sym_algo, aead, draws.s2k_salts[i], draws.nonces[i], esk),
            ));
        },
        None => {},
    }
}

/// A message that is encrypted in version 2 of the encrypted data packet and
/// written to a sink consists of the packets for the recipients, those for the
/// passwords, and the encrypted data packet, out of which whoever has the
/// session key reads what was written.
#[verifier::rlimit(40)]
pub proof fn law_seip2_message(
    v: EncryptorView,
    draws: DrawsView,
    cookie: Cookie,
    sink: Seq<u8>,
    writes: Seq<Seq<u8>>,
    out: Seq<u8>,
)
    requires
        v.aead() is Some,
        v.inner == seq![LayerView { cookie, filter: FilterView::Sink(sink) }],
        cookie.private is Nothing,
        finalizes_to(feed_all(v.built(draws), writes), out),
    ensures
        ({
            let packet = joined(packet_pieces(Seq::empty(), seip2_writes(v, draws, writes)));
            let c = joined(aead_pieces(v.seip2_cipher(draws), writes));
            &&& out == sink + joined(v.pkesks(draws)) + joined(v.skesks(draws)) + seq![
                Tag::SEIP.spec_ctb(),
            ] + packet
            &&& unframe(packet) == Some(v.seip2_headers(draws) + c)
            &&& v.seip2_cipher(draws).read(c, 0, 0) == Some(joined(writes))
            &&& refused_at_the_end(v.seip2_cipher(draws), c, joined(writes))
        }),
{
    let ls = feed_all(v.built(draws), writes);
    law_seip2_content(v, draws, writes);
    assert(ls.last().filter is Aead);
    let mid = choose|next: Seq<LayerView>|
        next.len() < ls.len() && #[trigger] finalized(ls, next) && finalizes_to(next, out);
    assert(finalized(ls, mid));
    assert(mid == unstack(ls));
    lemma_seip2_mid(v, draws, writes);
    let next = choose|next: Seq<LayerView>|
        next.len() < mid.len() && #[trigger] finalized(mid, next) && finalizes_to(next, out);
    law_seip2_reads_back(v, draws, writes, mid, next);
    lemma_packet_in_sink(v, draws, cookie, sink, seip2_writes(v, draws, writes));
    assert(next.len() == 1);
    assert(ended(next, out));
}

/// Once the encryption of version 2 has ended, the framing is left.
proof fn lemma_seip2_mid(v: EncryptorView, draws: DrawsView, writes: Seq<Seq<u8>>)
    requires
        v.aead() is Some,
        v.inner.len() >= 1,
    ensures
        unstack(feed_all(v.built(draws), writes)).last().filter is Partial,
        unstack(feed_all(v.built(draws), writes)).len() > 1,
{
    let level = next_level(v.inner);
    let started = packet_started(v.keyed(draws), Tag::SEIP, level);
    let headers = v.seip2_headers(draws);
    let a = v.seip2_cipher(draws);
    let body = seip2_writes(v, draws, writes);
    let base = feed(started, headers);
    let built = v.built(draws);
    assert(built == base.push(built.last()));
    law_aead_passes_on(base, built.last().cookie, a, writes);
    assert(body.skip(1) =~= aead_pieces(a, writes));
    lemma_feed_all_front(started, body);
    law_packet_is_passed_on(v.keyed(draws), Tag::SEIP, level, body);
    crate::laws::lemma_feed_all_len(v.profiled(), v.pkesks(draws));
    crate::laws::lemma_feed_all_len(
        feed_all(v.profiled(), v.pkesks(draws)),
        v.skesks(draws),
    );
    crate::stack::lemma_profile_len(v.inner, Profile::RFC9580);
}

/// A message that is encrypted in version 1 of the encrypted data packet and
/// written to a sink consists of the packets for the recipients, those for the
/// passwords, and the encrypted data packet, out of which whoever has the
/// session key reads the random block, its last two octets once more, what was
/// written, and the packet that detects modifications.
#[verifier::rlimit(40)]
pub proof fn law_seip1_message(
    v: EncryptorView,
    draws: DrawsView,
    cookie: Cookie,
    sink: Seq<u8>,
    writes: Seq<Seq<u8>>,
    out: Seq<u8>,
)
    requires
        v.aead() is None,
        draws.iv.len() >= 2,
        v.inner == seq![LayerView { cookie, filter: FilterView::Sink(sink) }],
        cookie.private is Nothing,
        finalizes_to(feed_all(v.built(draws), writes), out),
    ensures
        ({
            let packet = joined(packet_pieces(Seq::empty(), seip1_writes(v, draws, writes)));
            let c = joined(cfb_pieces(v.seip1_cipher(draws), seip1_plain(v, draws, writes)));
            let all = v.seip1_prefix(draws) + joined(writes);
            &&& out == sink + joined(v.pkesks(draws)) + joined(v.skesks(draws)) + seq![
                Tag::SEIP.spec_ctb(),
            ] + packet
            &&& unframe(packet) == Some(seq![1u8] + c)
            &&& v.seip1_cipher(draws).opened(c) == all + mdc_packet(all)
            &&& mdc_packet(all).len() == MDC_LEN
        }),
{
    let ls = feed_all(v.built(draws), writes);
    crate::laws::law_seip1_content(v, draws, writes);
    let next = choose|next: Seq<LayerView>|
        next.len() < ls.len() && #[trigger] finalized(ls, next) && finalizes_to(next, out);
    assert(finalized(ls, next));
    law_seip1_reads_back(v, draws, writes, next);
    lemma_packet_in_sink(v, draws, cookie, sink, seip1_writes(v, draws, writes));
    assert(next.len() == 1);
    assert(ended(next, out));
}

} // verus!
