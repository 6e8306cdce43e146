//! Laws that relate several parts of this crate to each other.

use vstd::prelude::*;

use crate::armor::{
    armor_foot, armor_head, base64_lines, base64_read, base64_tail, crc24_line,
    law_base64_reads_back, ArmorView,
};
use crate::cipher::{seip2_schedule, AeadView, CfbView};
use crate::compression::{lemma_push_all_grows, CompressionView};
use crate::encryptor::{DrawsView, EncryptorView};
use crate::framing::{
    chunks_out, chunks_rest, framed, full_length, joined, law_framing_keeps_content,
    lemma_chunks_rest_bounded, unframe, Tag, BUFFER_THRESHOLD,
};
use crate::hashing::{hash_of, HashingView};
use crate::signature::one_pass_sig;
use crate::signer::{retained, SignerView};
use crate::signing::{
    lemma_serving, serving, Outcome, SignatureMode, SigningView, POSITIONS,
};
use crate::stack::{
    emitted, ended, feed, feed_all, finalized, finalizes_to, fits, lemma_drop_structured,
    lemma_feed_nothing, lemma_feed_shape, lemma_feed_step, lemma_finalized_structured,
    lemma_peel_structured,
    lemma_unstack_structured, mdc_packet, peel, structured, unstack, with_profile, Cookie,
    FilterView, LayerView, Private,
};
use crate::stream::{next_level, packet_started, LiteralView};
use crate::textfilter::{
    dash_escape, dash_unescape, dashed, law_dash_escape_reads_back, law_normalize_pieces,
    normalize, trim_end, trim_lines, trimmed, undashed, LF, SPACE, TAB,
};
use crate::types::{HashAlgorithm, Profile};

verus! {

/// Writing several pieces starts with writing the first one.
pub proof fn lemma_feed_all_front(ls: Seq<LayerView>, pieces: Seq<Seq<u8>>)
    requires
        pieces.len() > 0,
    ensures
        feed_all(ls, pieces) == feed_all(feed(ls, pieces[0]), pieces.skip(1)),
    decreases pieces.len(),
{
    if pieces.len() == 1 {
        assert(pieces.drop_last() =~= Seq::<Seq<u8>>::empty());
        assert(pieces.skip(1) =~= Seq::<Seq<u8>>::empty());
        assert(feed_all(ls, pieces.drop_last()) == ls);
    } else {
        lemma_feed_all_front(ls, pieces.drop_last());
        assert(pieces.drop_last().skip(1) =~= pieces.skip(1).drop_last());
        assert(pieces.skip(1).last() == pieces.last());
    }
}

/// What a filter that frames a packet body passes on, piece by piece, while
/// `writes` are written to it and it is finalized.
pub open spec fn packet_pieces(held: Seq<u8>, writes: Seq<Seq<u8>>) -> Seq<Seq<u8>>
    decreases writes.len(),
{
    if writes.len() == 0 {
        seq![full_length(held.len() as int) + held]
    } else {
        seq![chunks_out(held + writes[0])] + packet_pieces(
            chunks_rest(held + writes[0]),
            writes.skip(1),
        )
    }
}

pub proof fn lemma_pieces_joined(held: Seq<u8>, writes: Seq<Seq<u8>>)
    ensures
        joined(packet_pieces(held, writes)) == framed(held, writes),
    decreases writes.len(),
{
    let pieces = packet_pieces(held, writes);
    if writes.len() == 0 {
        assert(pieces.skip(1) =~= Seq::<Seq<u8>>::empty());
        assert(pieces[0] + joined(pieces.skip(1)) =~= pieces[0]);
    } else {
        let rest = chunks_rest(held + writes[0]);
        lemma_pieces_joined(rest, writes.skip(1));
        assert(pieces.skip(1) =~= packet_pieces(rest, writes.skip(1)));
    }
}

proof fn lemma_partial_passes_on(
    base: Seq<LayerView>,
    cookie: Cookie,
    held: Seq<u8>,
    writes: Seq<Seq<u8>>,
)
    requires
        held.len() <= BUFFER_THRESHOLD,
    ensures
        peel(
            feed_all(base.push(LayerView { cookie, filter: FilterView::Partial(held) }), writes),
        ) == feed_all(base, packet_pieces(held, writes)),
    decreases writes.len(),
{
    let top = LayerView { cookie, filter: FilterView::Partial(held) };
    let ls = base.push(top);
    let pieces = packet_pieces(held, writes);
    assert(ls.drop_last() =~= base);
    if writes.len() == 0 {
        assert(pieces.drop_last() =~= Seq::<Seq<u8>>::empty());
        assert(feed_all(base, pieces) == feed(feed_all(base, pieces.drop_last()), pieces.last()));
    } else {
        let w = writes[0];
        let rest = chunks_rest(held + w);
        let below = feed(base, chunks_out(held + w));
        lemma_chunks_rest_bounded(held + w);
        lemma_feed_all_front(ls, writes);
        let after = LayerView { cookie, filter: FilterView::Partial(rest) };
        if w.len() == 0 {
            assert(held + w =~= held);
            lemma_feed_nothing(ls, w);
            lemma_feed_nothing(base, chunks_out(held + w));
        } else {
            lemma_feed_step(base, top, w);
        }
        assert(feed(ls, w) == below.push(after));
        lemma_partial_passes_on(below, cookie, rest, writes.skip(1));
        lemma_feed_all_front(base, pieces);
        assert(pieces[0] == chunks_out(held + w));
        assert(pieces.skip(1) =~= packet_pieces(rest, writes.skip(1)));
    }
}

/// However data is cut into writes to a packet, the writers below the packet
/// get pieces that, taken together, are the framing of a body, and what is
/// read out of that framing is the data.
pub proof fn law_packet_content(
    base: Seq<LayerView>,
    cookie: Cookie,
    held: Seq<u8>,
    writes: Seq<Seq<u8>>,
)
    requires
        held.len() <= BUFFER_THRESHOLD,
    ensures
        peel(
            feed_all(base.push(LayerView { cookie, filter: FilterView::Partial(held) }), writes),
        ) == feed_all(base, packet_pieces(held, writes)),
        unframe(joined(packet_pieces(held, writes))) == Some(held + joined(writes)),
{
    lemma_partial_passes_on(base, cookie, held, writes);
    lemma_pieces_joined(held, writes);
    law_framing_keeps_content(held, writes);
}

pub proof fn lemma_feed_sink(sink: Seq<u8>, cookie: Cookie, w: Seq<u8>)
    ensures
        feed(seq![LayerView { cookie, filter: FilterView::Sink(sink) }], w) == seq![
            LayerView { cookie, filter: FilterView::Sink(sink + w) },
        ],
{
    let top = LayerView { cookie, filter: FilterView::Sink(sink) };
    let none = Seq::<LayerView>::empty();
    assert(seq![top] =~= none.push(top));
    if w.len() == 0 {
        assert(sink + w =~= sink);
        lemma_feed_nothing(seq![top], w);
    } else {
        lemma_feed_step(none, top, w);
        lemma_feed_nothing(none, top.filter.push(w).1);
        assert(none.push(LayerView { cookie, filter: FilterView::Sink(sink + w) }) =~= seq![
            LayerView { cookie, filter: FilterView::Sink(sink + w) },
        ]);
    }
}

/// What arrives in a sink is appended to it.
pub proof fn law_sink_collects(sink: Seq<u8>, cookie: Cookie, pieces: Seq<Seq<u8>>)
    ensures
        feed_all(seq![LayerView { cookie, filter: FilterView::Sink(sink) }], pieces) == seq![
            LayerView { cookie, filter: FilterView::Sink(sink + joined(pieces)) },
        ],
    decreases pieces.len(),
{
    let ls = seq![LayerView { cookie, filter: FilterView::Sink(sink) }];
    if pieces.len() == 0 {
        assert(sink + joined(pieces) =~= sink);
    } else {
        let w = pieces[0];
        lemma_feed_all_front(ls, pieces);
        law_sink_collects(sink + w, cookie, pieces.skip(1));
        lemma_feed_sink(sink, cookie, w);
        assert((sink + w) + joined(pieces.skip(1)) =~= sink + joined(pieces));
    }
}

/// Writing to a literal writer without a signer writes to its packet.
proof fn lemma_literal_passes_on(base: Seq<LayerView>, cookie: Cookie, writes: Seq<Seq<u8>>)
    ensures
        feed_all(
            base.push(LayerView { cookie, filter: FilterView::Literal(None) }),
            writes,
        ) == feed_all(base, writes).push(
            LayerView { cookie, filter: FilterView::Literal(None) },
        ),
    decreases writes.len(),
{
    let top = LayerView { cookie, filter: FilterView::Literal(None) };
    if writes.len() > 0 {
        lemma_literal_passes_on(base, cookie, writes.drop_last());
        let below = feed_all(base, writes.drop_last());
        if writes.last().len() == 0 {
            lemma_feed_nothing(below, writes.last());
            lemma_feed_nothing(below.push(top), writes.last());
        } else {
            lemma_feed_step(below, top, writes.last());
        }
    }
}

/// What a literal writer on a sink leaves in the sink is a literal data
/// packet, and what is read out of its body is the packet's headers and what
/// was written.
#[verifier::rlimit(40)]
pub proof fn law_literal_reads_back(
    v: LiteralView,
    cookie: Cookie,
    sink: Seq<u8>,
    writes: Seq<Seq<u8>>,
    out: Seq<u8>,
)
    requires
        v.inner == seq![LayerView { cookie, filter: FilterView::Sink(sink) }],
        v.filename.len() <= 255,
        finalizes_to(feed_all(v.built(), writes), out),
    ensures
        out == sink + seq![Tag::Literal.spec_ctb()] + framed(v.headers(), writes),
        unframe(framed(v.headers(), writes)) == Some(v.headers() + joined(writes)),
{
    let level = next_level(v.inner);
    let plain = Cookie { level, private: Private::Nothing };
    let first = seq![Tag::Literal.spec_ctb()];
    let base = seq![LayerView { cookie, filter: FilterView::Sink(sink + first) }];
    let headers = v.headers();
    // The packet is started.
    lemma_feed_sink(sink, cookie, first);
    let none = LayerView { cookie: plain, filter: FilterView::Partial(Seq::empty()) };
    let started = base.push(none);
    assert(packet_started(v.inner, Tag::Literal, level) =~= started);
    assert(started.drop_last() =~= base);
    assert(Seq::<u8>::empty() + headers =~= headers);
    let partial = LayerView { cookie: plain, filter: FilterView::Partial(headers) };
    lemma_feed_step(base, none, headers);
    lemma_feed_nothing(base, none.filter.push(headers).1);
    assert(feed(started, headers) == base.push(partial));
    let literal = LayerView { cookie: plain, filter: FilterView::Literal(None) };
    assert(v.built() =~= base.push(partial).push(literal));
    // The data is written.
    lemma_literal_passes_on(base.push(partial), plain, writes);
    let written = feed_all(base.push(partial), writes);
    let ls = written.push(literal);
    assert(ls.drop_last() =~= written);
    // The writers are finalized.
    law_packet_content(base, plain, headers, writes);
    law_sink_collects(sink + first, cookie, packet_pieces(headers, writes));
    let body = joined(packet_pieces(headers, writes));
    let done = seq![LayerView { cookie, filter: FilterView::Sink((sink + first) + body) }];
    assert(unstack(ls) == done);
    assert(written.len() == 2) by {
        lemma_feed_all_len(base.push(partial), writes);
    }
    let next = choose|next: Seq<LayerView>|
        next.len() < ls.len() && #[trigger] finalized(ls, next) && finalizes_to(next, out);
    assert(next == done);
    assert(ended(next, out));
    lemma_pieces_joined(headers, writes);
}

pub proof fn lemma_feed_all_len(ls: Seq<LayerView>, pieces: Seq<Seq<u8>>)
    ensures
        feed_all(ls, pieces).len() == ls.len(),
    decreases pieces.len(),
{
    if pieces.len() > 0 {
        lemma_feed_all_len(ls, pieces.drop_last());
        lemma_feed_shape(feed_all(ls, pieces.drop_last()), pieces.last());
    }
}

/// Data is hashed in the same way however it is cut into pieces.
pub proof fn law_hashing_pieces(h: HashingView, a: Seq<u8>, b: Seq<u8>)
    ensures
        h.push(a).push(b) == h.push(a + b),
{
    law_normalize_pieces(h.cr, a, b);
    let n = normalize(h.cr, a);
    assert((h.data + n.1) + normalize(n.0, b).1 =~= h.data + (n.1 + normalize(n.0, b).1));
    assert((h.data + a) + b =~= h.data + (a + b));
}

/// Data is signed in the same way however it is cut into pieces.
pub proof fn law_signing_pieces(s: SigningView, a: Seq<u8>, b: Seq<u8>)
    ensures
        s.push(a).push(b) == s.push(a + b),
{
    assert forall|i: int| 0 <= i < s.hashes.len() implies s.hashes[i].push(a).push(b)
        == s.hashes[i].push(a + b) by {
        law_hashing_pieces(s.hashes[i], a, b);
    }
    assert(s.push(a).push(b).hashes =~= s.push(a + b).hashes);
    assert(s.push(a).push(b).position == s.push(a + b).position) by {
        vstd::arithmetic::div_mod::lemma_add_mod_noop_right(
            b.len() as int,
            s.position + a.len(),
            POSITIONS as int,
        );
    }
}

/// Hashing nothing changes nothing.
pub proof fn lemma_signing_nothing(s: SigningView)
    ensures
        s.push(Seq::empty()) == s,
{
    assert forall|i: int| 0 <= i < s.hashes.len() implies s.hashes[i].push(Seq::empty())
        == s.hashes[i] by {
        let h = s.hashes[i];
        assert(h.data + Seq::<u8>::empty() =~= h.data);
    }
    assert(s.push(Seq::empty()).hashes =~= s.hashes);
}

/// A signature over a literal data packet covers what is written to the
/// literal writer, and neither the headers nor the framing of the packet.
pub proof fn law_only_literal_body_is_signed(v: LiteralView, writes: Seq<Seq<u8>>)
    requires
        v.inner.last().filter is Signer,
    ensures
        feed_all(v.built(), writes).last().filter == FilterView::Literal(
            Some((v.inner.last().cookie, v.inner.last().filter->Signer_0.push(joined(writes)))),
        ),
{
    let level = next_level(v.inner);
    let plain = Cookie { level, private: Private::Nothing };
    let base = feed(packet_started(v.below(), Tag::Literal, level), v.headers());
    lemma_stash_hashes(
        base,
        plain,
        v.inner.last().cookie,
        v.inner.last().filter->Signer_0,
        writes,
    );
}

proof fn lemma_stash_hashes(
    base: Seq<LayerView>,
    cookie: Cookie,
    c: Cookie,
    s: SigningView,
    writes: Seq<Seq<u8>>,
)
    ensures
        feed_all(
            base.push(LayerView { cookie, filter: FilterView::Literal(Some((c, s))) }),
            writes,
        ).last() == (LayerView {
            cookie,
            filter: FilterView::Literal(Some((c, s.push(joined(writes))))),
        }),
    decreases writes.len(),
{
    let ls = base.push(LayerView { cookie, filter: FilterView::Literal(Some((c, s))) });
    if writes.len() == 0 {
        lemma_signing_nothing(s);
    } else {
        let w = writes[0];
        lemma_feed_all_front(ls, writes);
        law_signing_pieces(s, w, joined(writes.skip(1)));
        if w.len() == 0 {
            lemma_feed_nothing(ls, w);
            assert(w =~= Seq::<u8>::empty());
            lemma_signing_nothing(s);
            lemma_stash_hashes(base, cookie, c, s, writes.skip(1));
        } else {
            lemma_feed_step(base, ls.last(), w);
            lemma_stash_hashes(feed(base, w), cookie, c, s.push(w), writes.skip(1));
        }
    }
}

/// What a signer signs is the digest of its salt, if it has one, of all the
/// data, with normalized line endings if the signature is a text signature,
/// and of the part of the signature packet that the signature covers.
pub proof fn law_what_is_signed(
    v: SignerView,
    salts: Seq<Seq<u8>>,
    data: Seq<u8>,
    i: int,
    time: int,
)
    requires
        0 <= i < v.keys.len(),
        v.versions_known(),
    ensures
        ({
            let s = v.signing(salts).push(data);
            let content = if v.text() {
                normalize(false, data).1
            } else {
                data
            };
            s.digest(i, time) == hash_of(
                v.algo(),
                v.salt(i, salts) + content + s.params(i, time).trailer(),
            )
        }),
{
    let s = v.signing(salts).push(data);
    let e = s.signers[i];
    let hs = s.hashes;
    assert(v.keys[i].fingerprint.version == 4 || v.keys[i].fingerprint.version == 6);
    assert(hs[i] == HashingView::start(v.text(), v.salt(i, salts), v.algo()).push(data));
    lemma_serving(hs, e, i);
    let k = serving(hs, e);
    assert(hs[k] == HashingView::start(v.text(), v.salt(k, salts), v.algo()).push(data));
    assert(hs[k].salt =~= v.salt(i, salts));
}

/// The signatures, in the order in which they are written.
pub open spec fn signatures(s: SigningView, outcomes: Seq<Outcome>, j: int) -> Seq<Seq<u8>> {
    Seq::new(
        j as nat,
        |k: int| s.signature(s.signers.len() - 1 - k, outcomes[k].0, outcomes[k].1),
    )
}

/// The signatures are written in the reverse order of the signers, so that
/// one-pass signatures and signatures bracket the message.
pub proof fn law_signatures_reversed(
    base: Seq<LayerView>,
    s: SigningView,
    outcomes: Seq<Outcome>,
    j: int,
)
    requires
        0 <= j <= outcomes.len(),
        outcomes.len() == s.signers.len(),
    ensures
        emitted(base, s, outcomes, j) == feed_all(base, signatures(s, outcomes, j)),
    decreases j,
{
    let pieces = signatures(s, outcomes, j);
    if j > 0 {
        law_signatures_reversed(base, s, outcomes, j - 1);
        assert(pieces.drop_last() =~= signatures(s, outcomes, j - 1));
        assert(pieces.last() == s.signature(
            s.signers.len() - j,
            outcomes[j - 1].0,
            outcomes[j - 1].1,
        ));
    }
}

/// One-pass signature and signature packets bracket the message: the packets
/// of a signer are equally far from the first and from the last one, and
/// only the innermost one-pass signature packet says that it is the last.
pub proof fn law_packets_bracket(
    v: SignerView,
    salts: Seq<Seq<u8>>,
    data: Seq<u8>,
    outcomes: Seq<Outcome>,
    i: int,
)
    requires
        0 <= i < v.keys.len(),
        outcomes.len() == v.keys.len(),
    ensures
        ({
            let n = v.keys.len() as int;
            let s = v.signing(salts).push(data);
            let ops = v.one_pass_sigs(salts);
            let sigs = signatures(s, outcomes, n);
            &&& ops.len() == n && sigs.len() == n
            &&& ops[i] == one_pass_sig(
                v.template.typ,
                s.signers[i].key,
                s.signers[i].algo,
                s.signers[i].salt,
                i == n - 1,
            )
            &&& ops[i].last() == (if i == n - 1 {
                1u8
            } else {
                0u8
            })
            &&& sigs[n - 1 - i] == s.signature(i, outcomes[n - 1 - i].0, outcomes[n - 1 - i].1)
        }),
{
}

proof fn lemma_retained_push(a: Seq<HashAlgorithm>, y: HashAlgorithm, b: Seq<HashAlgorithm>)
    ensures
        retained(a.push(y), b) == if b.contains(y) {
            retained(a, b).push(y)
        } else {
            retained(a, b)
        },
{
    assert(a.push(y).drop_last() =~= a);
}

/// Which algorithms stay acceptable does not depend on the order in which
/// signers are added.
pub proof fn law_signers_commute(
    a: Seq<HashAlgorithm>,
    b: Seq<HashAlgorithm>,
    c: Seq<HashAlgorithm>,
)
    ensures
        retained(retained(a, b), c) == retained(retained(a, c), b),
    decreases a.len(),
{
    if a.len() > 0 {
        let init = a.drop_last();
        law_signers_commute(init, b, c);
        lemma_retained_push(retained(init, b), a.last(), c);
        lemma_retained_push(retained(init, c), a.last(), b);
    }
}

/// The last one of the calls that ask for a detached signature or for a
/// cleartext signed message counts.
pub proof fn law_last_mode_counts(v: SignerView, first: SignatureMode, last: SignatureMode)
    ensures
        (SignerView { mode: last, ..(SignerView { mode: first, ..v }) }) == (SignerView {
            mode: last,
            ..v
        }),
{
}

/// The packet that detects modifications covers all that is encrypted before
/// it, and is encrypted itself.
pub proof fn law_mdc_covers_all(
    base: Seq<LayerView>,
    cookie: Cookie,
    c: CfbView,
    outer: Cookie,
    writes: Seq<Seq<u8>>,
)
    ensures
        ({
            let ls = feed_all(
                base.push(LayerView { cookie, filter: FilterView::Cfb(c) }).push(
                    LayerView { cookie: outer, filter: FilterView::Encryptor(c.data) },
                ),
                writes,
            );
            let all = c.data + joined(writes);
            &&& ls.last().filter == FilterView::Encryptor(all)
            &&& feed(ls.drop_last(), mdc_packet(all)).last().filter == FilterView::Cfb(
                c.push(joined(writes) + mdc_packet(all)),
            )
        }),
{
    lemma_encryptor_hashes(base, cookie, c, outer, c.data, writes);
    let ls = feed_all(
        base.push(LayerView { cookie, filter: FilterView::Cfb(c) }).push(
            LayerView { cookie: outer, filter: FilterView::Encryptor(c.data) },
        ),
        writes,
    );
    let mdc = mdc_packet(c.data + joined(writes));
    let d = c.push(joined(writes));
    let below = ls.drop_last();
    assert(below.last() == ls[ls.len() - 2]);
    assert(below.drop_last().push(below.last()) =~= below);
    lemma_feed_step(below.drop_last(), below.last(), mdc);
    assert((c.data + joined(writes)) + mdc =~= c.data + (joined(writes) + mdc));
    assert(d.push(mdc) =~= c.push(joined(writes) + mdc));
}

#[verifier::rlimit(40)]
proof fn lemma_encryptor_hashes(
    base: Seq<LayerView>,
    cookie: Cookie,
    c: CfbView,
    outer: Cookie,
    h: Seq<u8>,
    writes: Seq<Seq<u8>>,
)
    ensures
        ({
            let ls = feed_all(
                base.push(LayerView { cookie, filter: FilterView::Cfb(c) }).push(
                    LayerView { cookie: outer, filter: FilterView::Encryptor(h) },
                ),
                writes,
            );
            &&& ls.len() == base.len() + 2
            &&& ls.last().filter == FilterView::Encryptor(h + joined(writes))
            &&& ls[ls.len() - 2].filter == FilterView::Cfb(c.push(joined(writes)))
        }),
    decreases writes.len(),
{
    let cfb = LayerView { cookie, filter: FilterView::Cfb(c) };
    let top = LayerView { cookie: outer, filter: FilterView::Encryptor(h) };
    let ls = base.push(cfb).push(top);
    if writes.len() == 0 {
        assert(h + joined(writes) =~= h);
        assert(c.push(joined(writes)) =~= c);
    } else {
        let w = writes[0];
        lemma_feed_all_front(ls, writes);
        let rest = writes.skip(1);
        assert((h + w) + joined(rest) =~= h + joined(writes));
        assert(c.push(w).push(joined(rest)) =~= c.push(joined(writes)));
        if w.len() == 0 {
            assert(joined(writes) =~= joined(rest));
            lemma_feed_nothing(ls, w);
            lemma_encryptor_hashes(base, cookie, c, outer, h, rest);
        } else {
            lemma_feed_step(base.push(cfb), top, w);
            lemma_feed_step(base, cfb, w);
            let below = feed(base, c.push(w).sent().skip(c.sent().len() as int));
            lemma_feed_shape(base, c.push(w).sent().skip(c.sent().len() as int));
            assert(feed(ls, w) == below.push(
                LayerView { cookie, filter: FilterView::Cfb(c.push(w)) },
            ).push(LayerView { cookie: outer, filter: FilterView::Encryptor(h + w) }));
            lemma_encryptor_hashes(below, cookie, c.push(w), outer, h + w, rest);
        }
    }
}

/// Version 2 of the encrypted data packet is made if and only if a mode was
/// selected, or there are recipients and all of them understand it.
pub proof fn law_seipdv2_if_understood(v: EncryptorView)
    ensures
        v.aead() is Some <==> v.aead_algo is Some || v.all_seipdv2(),
        v.aead_algo is Some ==> v.aead() == v.aead_algo,
{
}

/// A line that has been trimmed does not end in a space or a tab, and is its
/// own trimmed form.
pub proof fn law_trimmed_lines_stay(line: Seq<u8>)
    ensures
        trim_end(line).len() > 0 ==> trim_end(line).last() != SPACE && trim_end(line).last() != TAB,
        trim_end(trim_end(line)) == trim_end(line),
    decreases line.len(),
{
    if line.len() > 0 && (line.last() == SPACE || line.last() == TAB) {
        law_trimmed_lines_stay(line.drop_last());
    }
}

/// Lines are trimmed in the same way however the text is cut into pieces.
pub proof fn law_trim_pieces(line: Seq<u8>, a: Seq<u8>, b: Seq<u8>)
    ensures
        trim_lines(line, a + b).0 == trim_lines(trim_lines(line, a).0, b).0,
        trim_lines(line, a + b).1 == trim_lines(line, a).1 + trim_lines(
            trim_lines(line, a).0,
            b,
        ).1,
    decreases b.len(),
{
    if b.len() == 0 {
        assert(a + b =~= a);
        assert(trim_lines(line, a).1 + Seq::<u8>::empty() =~= trim_lines(line, a).1);
    } else {
        assert((a + b).drop_last() =~= a + b.drop_last());
        law_trim_pieces(line, a, b.drop_last());
        let (l, out) = trim_lines(trim_lines(line, a).0, b.drop_last());
        assert((trim_lines(line, a).1 + out) + trimmed(l) =~= trim_lines(line, a).1 + (out
            + trimmed(l)));
    }
}

/// Lines are dash-escaped in the same way however the text is cut into
/// pieces.
pub proof fn law_dash_pieces(line: Seq<u8>, a: Seq<u8>, b: Seq<u8>)
    ensures
        dash_escape(line, a + b).0 == dash_escape(dash_escape(line, a).0, b).0,
        dash_escape(line, a + b).1 == dash_escape(line, a).1 + dash_escape(
            dash_escape(line, a).0,
            b,
        ).1,
    decreases b.len(),
{
    if b.len() == 0 {
        assert(a + b =~= a);
        assert(dash_escape(line, a).1 + Seq::<u8>::empty() =~= dash_escape(line, a).1);
    } else {
        assert((a + b).drop_last() =~= a + b.drop_last());
        law_dash_pieces(line, a, b.drop_last());
        let (l, out) = dash_escape(dash_escape(line, a).0, b.drop_last());
        let more = dashed(l.push(LF));
        assert((dash_escape(line, a).1 + out) + more =~= dash_escape(line, a).1 + (out + more));
    }
}

/// The stack with an empty sink.
pub open spec fn drained(ls: Seq<LayerView>) -> Seq<LayerView> {
    ls.update(0, LayerView { filter: FilterView::Sink(Seq::empty()), ..ls[0] })
}

/// Taking out of the sink what has arrived there changes nothing about what
/// arrives later.
pub proof fn law_draining_loses_nothing(ls: Seq<LayerView>, d: Seq<u8>)
    requires
        structured(ls),
    ensures
        ({
            let whole = feed(ls, d);
            let rest = feed(drained(ls), d);
            &&& whole[0].filter is Sink
            &&& rest[0].filter is Sink
            &&& whole[0].filter->Sink_0 == ls[0].filter->Sink_0 + rest[0].filter->Sink_0
            &&& drained(whole) == drained(rest)
        }),
{
    lemma_draining(ls, d);
}

#[verifier::rlimit(40)]
proof fn lemma_draining(ls: Seq<LayerView>, d: Seq<u8>)
    requires
        ls.len() >= 1,
        ls[0].filter is Sink,
    ensures
        ({
            let whole = feed(ls, d);
            let rest = feed(drained(ls), d);
            &&& whole[0].filter is Sink
            &&& rest[0].filter is Sink
            &&& whole[0].filter->Sink_0 == ls[0].filter->Sink_0 + rest[0].filter->Sink_0
            &&& drained(whole) == drained(rest)
            &&& whole.len() == ls.len()
            &&& rest.len() == ls.len()
        }),
    decreases ls.len(),
{
    let sink = ls[0].filter->Sink_0;
    let e = drained(ls);
    if d.len() == 0 {
        lemma_feed_nothing(ls, d);
        lemma_feed_nothing(e, d);
        assert(sink + Seq::<u8>::empty() =~= sink);
        assert(drained(e) =~= e);
    } else if ls.len() == 1 {
        assert(ls =~= seq![LayerView { cookie: ls[0].cookie, filter: FilterView::Sink(sink) }]);
        assert(e =~= seq![
            LayerView { cookie: ls[0].cookie, filter: FilterView::Sink(Seq::empty()) },
        ]);
        lemma_feed_sink(sink, ls[0].cookie, d);
        lemma_feed_sink(Seq::empty(), ls[0].cookie, d);
        assert(sink + (Seq::<u8>::empty() + d) =~= sink + d);
        assert(drained(feed(ls, d)) =~= drained(feed(e, d)));
    } else {
        let below = ls.drop_last();
        let top = ls.last();
        let out = top.filter.push(d).1;
        let after = LayerView { filter: top.filter.push(d).0, ..top };
        assert(below[0] == ls[0]);
        lemma_draining(below, out);
        assert(ls =~= below.push(top));
        assert(e =~= drained(below).push(top));
        lemma_feed_step(below, top, d);
        lemma_feed_step(drained(below), top, d);
        let whole = feed(below, out);
        let rest = feed(drained(below), out);
        assert(whole.push(after)[0] == whole[0]);
        assert(rest.push(after)[0] == rest[0]);
        assert(drained(whole.push(after)) =~= drained(whole).push(after));
        assert(drained(rest.push(after)) =~= drained(rest).push(after));
    }
}

/// An encryption container speaks for what it holds: whatever a signer in it
/// asks for, the armor around it gets the container's profile.
pub proof fn law_container_speaks(
    ls: Seq<LayerView>,
    inside: LayerView,
    container: Profile,
    asked: Profile,
)
    requires
        inside.cookie.private == (Private::Encryptor { profile: container }),
    ensures
        with_profile(ls.push(inside), asked) == with_profile(ls, container).push(inside),
{
    assert(ls.push(inside).drop_last() =~= ls);
}

/// What a dash-escaping filter passes on, piece by piece, while `writes` are
/// written to it and it is finalized; `line` is the line that has begun.
pub open spec fn dash_pieces(line: Seq<u8>, writes: Seq<Seq<u8>>) -> Seq<Seq<u8>>
    decreases writes.len(),
{
    if writes.len() == 0 {
        seq![dashed(line)]
    } else {
        seq![dash_escape(line, writes[0]).1] + dash_pieces(
            dash_escape(line, writes[0]).0,
            writes.skip(1),
        )
    }
}

pub proof fn lemma_dash_pieces_joined(line: Seq<u8>, writes: Seq<Seq<u8>>)
    ensures
        ({
            let (begun, out) = dash_escape(line, joined(writes));
            joined(dash_pieces(line, writes)) == out + dashed(begun)
        }),
    decreases writes.len(),
{
    let pieces = dash_pieces(line, writes);
    if writes.len() == 0 {
        assert(pieces.skip(1) =~= Seq::<Seq<u8>>::empty());
        assert(pieces[0] + joined(pieces.skip(1)) =~= pieces[0]);
        assert(Seq::<u8>::empty() + dashed(line) =~= dashed(line));
    } else {
        let (l, out) = dash_escape(line, writes[0]);
        let rest = joined(writes.skip(1));
        lemma_dash_pieces_joined(l, writes.skip(1));
        law_dash_pieces(line, writes[0], rest);
        assert(pieces.skip(1) =~= dash_pieces(l, writes.skip(1)));
        let (begun, more) = dash_escape(l, rest);
        assert((out + more) + dashed(begun) =~= out + (more + dashed(begun)));
    }
}

#[verifier::rlimit(40)]
proof fn lemma_cleartext_passes_on(
    base: Seq<LayerView>,
    cookie: Cookie,
    line: Seq<u8>,
    outer: Cookie,
    s: SigningView,
    writes: Seq<Seq<u8>>,
)
    requires
        s.mode is Cleartext,
    ensures
        ({
            let ls = feed_all(
                base.push(LayerView { cookie, filter: FilterView::DashEscape(line) }).push(
                    LayerView { cookie: outer, filter: FilterView::Signer(s) },
                ),
                writes,
            );
            &&& ls.len() == base.len() + 2
            &&& ls.last().filter == FilterView::Signer(s.push(joined(writes)))
            &&& peel(ls.drop_last()) == feed_all(base, dash_pieces(line, writes))
        }),
    decreases writes.len(),
{
    let dash = LayerView { cookie, filter: FilterView::DashEscape(line) };
    let top = LayerView { cookie: outer, filter: FilterView::Signer(s) };
    let ls = base.push(dash).push(top);
    let pieces = dash_pieces(line, writes);
    if writes.len() == 0 {
        lemma_signing_nothing(s);
        assert(ls.drop_last() =~= base.push(dash));
        assert(base.push(dash).drop_last() =~= base);
        assert(pieces.drop_last() =~= Seq::<Seq<u8>>::empty());
        assert(feed_all(base, pieces.drop_last()) == base);
    } else {
        let w = writes[0];
        let rest = writes.skip(1);
        let (l, out) = dash_escape(line, w);
        lemma_feed_all_front(ls, writes);
        lemma_feed_all_front(base, pieces);
        assert(pieces.skip(1) =~= dash_pieces(l, rest));
        law_signing_pieces(s, w, joined(rest));
        if w.len() == 0 {
            assert(w =~= Seq::<u8>::empty());
            lemma_signing_nothing(s);
            lemma_feed_nothing(ls, w);
            lemma_feed_nothing(base, out);
            lemma_cleartext_passes_on(base, cookie, line, outer, s, rest);
        } else {
            lemma_feed_step(base.push(dash), top, w);
            lemma_feed_step(base, dash, w);
            lemma_feed_shape(base, out);
            lemma_cleartext_passes_on(feed(base, out), cookie, l, outer, s.push(w), rest);
        }
    }
}

/// In a cleartext signed message, the text that is read once the
/// dash-escapes are removed is the text that was hashed.
pub proof fn law_cleartext_is_what_is_signed(
    base: Seq<LayerView>,
    cookie: Cookie,
    outer: Cookie,
    s: SigningView,
    writes: Seq<Seq<u8>>,
)
    requires
        s.mode is Cleartext,
    ensures
        ({
            let ls = feed_all(
                base.push(LayerView { cookie, filter: FilterView::DashEscape(Seq::empty()) }).push(
                    LayerView { cookie: outer, filter: FilterView::Signer(s) },
                ),
                writes,
            );
            let pieces = dash_pieces(Seq::empty(), writes);
            let (last, text) = dash_unescape(Seq::empty(), joined(pieces));
            &&& ls.last().filter == FilterView::Signer(s.push(joined(writes)))
            &&& peel(ls.drop_last()) == feed_all(base, pieces)
            &&& text + undashed(last) == joined(writes)
        }),
{
    lemma_cleartext_passes_on(base, cookie, Seq::empty(), outer, s, writes);
    lemma_dash_pieces_joined(Seq::empty(), writes);
    law_dash_escape_reads_back(joined(writes));
}

/// What has come out of an armor writer is continued by more data.
proof fn lemma_base64_grows(data: Seq<u8>, more: Seq<u8>)
    ensures
        base64_lines(data).len() <= base64_lines(data + more).len(),
        base64_lines(data + more).take(base64_lines(data).len() as int) == base64_lines(data),
    decreases more.len(),
{
    if more.len() == 0 {
        assert(data + more =~= data);
        assert(base64_lines(data).take(base64_lines(data).len() as int) =~= base64_lines(data));
    } else {
        let longer = data + more;
        let shorter = data + more.drop_last();
        lemma_base64_grows(data, more.drop_last());
        assert(longer.drop_last() =~= shorter);
        let a = base64_lines(data);
        let b = base64_lines(shorter);
        let c = base64_lines(longer);
        if longer.len() < 3 {
            assert(a =~= Seq::<u8>::empty());
            assert(c.take(0) =~= a);
        } else {
            assert(b.len() <= c.len() && c.take(b.len() as int) =~= b);
            assert(c.take(a.len() as int) =~= b.take(a.len() as int));
        }
    }
}

proof fn lemma_armor_grows(a: ArmorView, more: Seq<u8>)
    ensures
        a.sent() + a.push(more).sent().skip(a.sent().len() as int) == a.push(more).sent(),
{
    let b = a.push(more);
    if a.data.len() == 0 {
        assert(Seq::<u8>::empty() + b.sent().skip(0) =~= b.sent());
    } else {
        lemma_base64_grows(a.data, more);
        let head = armor_head(a.kind, a.headers);
        let x = base64_lines(a.data);
        let y = base64_lines(b.data);
        assert(y =~= x + y.skip(x.len() as int));
        assert(b.sent().skip(a.sent().len() as int) =~= y.skip(x.len() as int));
        assert(a.sent() + y.skip(x.len() as int) =~= head + (x + y.skip(x.len() as int)));
    }
}

/// What an armor writer passes on, piece by piece, while `writes` are written
/// to it and it is finalized.
pub open spec fn armor_pieces(a: ArmorView, checksum: bool, writes: Seq<Seq<u8>>) -> Seq<Seq<u8>>
    decreases writes.len(),
{
    if writes.len() == 0 {
        seq![a.rest(checksum)]
    } else {
        seq![a.push(writes[0]).sent().skip(a.sent().len() as int)] + armor_pieces(
            a.push(writes[0]),
            checksum,
            writes.skip(1),
        )
    }
}

#[verifier::rlimit(40)]
proof fn lemma_armor_passes_on(
    base: Seq<LayerView>,
    cookie: Cookie,
    a: ArmorView,
    checksum: bool,
    writes: Seq<Seq<u8>>,
)
    requires
        checksum == !(cookie.private matches Private::Armorer {
            set_profile: Some(Profile::RFC9580),
        }),
    ensures
        peel(
            feed_all(base.push(LayerView { cookie, filter: FilterView::Armorer(a) }), writes),
        ) == feed_all(base, armor_pieces(a, checksum, writes)),
        a.sent() + joined(armor_pieces(a, checksum, writes)) == a.push(joined(writes)).sent()
            + a.push(joined(writes)).rest(checksum),
    decreases writes.len(),
{
    let top = LayerView { cookie, filter: FilterView::Armorer(a) };
    let ls = base.push(top);
    let pieces = armor_pieces(a, checksum, writes);
    if writes.len() == 0 {
        assert(ls.drop_last() =~= base);
        assert(pieces.drop_last() =~= Seq::<Seq<u8>>::empty());
        assert(feed_all(base, pieces.drop_last()) == base);
        assert(pieces.skip(1) =~= Seq::<Seq<u8>>::empty());
        assert(joined(pieces.skip(1)) == Seq::<u8>::empty());
        assert(pieces[0] + Seq::<u8>::empty() =~= a.rest(checksum));
        assert(a.push(joined(writes)) =~= a);
    } else {
        let w = writes[0];
        let rest = writes.skip(1);
        let b = a.push(w);
        let out = b.sent().skip(a.sent().len() as int);
        lemma_feed_all_front(ls, writes);
        lemma_feed_all_front(base, pieces);
        assert(pieces.skip(1) =~= armor_pieces(b, checksum, rest));
        lemma_armor_grows(a, w);
        let tail = joined(armor_pieces(b, checksum, rest));
        assert(a.sent() + (out + tail) =~= (a.sent() + out) + tail);
        assert(b.push(joined(rest)) =~= a.push(joined(writes)));
        if w.len() == 0 {
            assert(b =~= a);
            assert(out =~= Seq::<u8>::empty());
            lemma_feed_nothing(ls, w);
            lemma_feed_nothing(base, out);
            lemma_armor_passes_on(base, cookie, a, checksum, rest);
        } else {
            lemma_feed_step(base, top, w);
            lemma_armor_passes_on(feed(base, out), cookie, b, checksum, rest);
        }
    }
}

/// However data is cut into writes to an armor writer, what the writers below
/// get is, taken together, the header of the armor, lines of base64 out of
/// which the data is read, the checksum unless the profile does without it,
/// and the footer; and it is nothing if no data is written.
pub proof fn law_armor_reads_back(
    base: Seq<LayerView>,
    cookie: Cookie,
    a: ArmorView,
    checksum: bool,
    writes: Seq<Seq<u8>>,
)
    requires
        a.data.len() == 0,
        checksum == !(cookie.private matches Private::Armorer {
            set_profile: Some(Profile::RFC9580),
        }),
    ensures
        ({
            let data = joined(writes);
            let pieces = armor_pieces(a, checksum, writes);
            let body = base64_lines(data) + base64_tail(data);
            &&& peel(
                feed_all(base.push(LayerView { cookie, filter: FilterView::Armorer(a) }), writes),
            ) == feed_all(base, pieces)
            &&& base64_read(Seq::empty(), body) == Some(data)
            &&& joined(pieces) == if data.len() == 0 {
                Seq::empty()
            } else {
                armor_head(a.kind, a.headers) + body + (if checksum {
                    crc24_line(data)
                } else {
                    Seq::empty()
                }) + armor_foot(a.kind)
            }
        }),
{
    let data = joined(writes);
    let pieces = armor_pieces(a, checksum, writes);
    lemma_armor_passes_on(base, cookie, a, checksum, writes);
    law_base64_reads_back(data);
    let b = a.push(data);
    assert(b.data =~= data);
    assert(a.sent() + joined(pieces) =~= joined(pieces));
    if data.len() > 0 {
        let sum = if checksum {
            crc24_line(data)
        } else {
            Seq::empty()
        };
        let head = armor_head(a.kind, a.headers);
        assert((head + base64_lines(data)) + (base64_tail(data) + sum + armor_foot(a.kind))
            =~= head + (base64_lines(data) + base64_tail(data)) + sum + armor_foot(a.kind));
    } else {
        assert(joined(pieces) =~= Seq::<u8>::empty());
    }
}

/// Whether no signer is on the stack, and none has been taken off it for a
/// while.
pub open spec fn no_signers(ls: Seq<LayerView>) -> bool {
    forall|i: int|
        0 <= i < ls.len() ==> !((#[trigger] ls[i]).filter is Signer) && !(ls[i].filter matches
        FilterView::Literal(Some(_)))
}

proof fn lemma_no_signers_feed(ls: Seq<LayerView>, d: Seq<u8>)
    requires
        no_signers(ls),
    ensures
        no_signers(feed(ls, d)),
        feed(ls, d).len() == ls.len(),
{
    lemma_feed_shape(ls, d);
    assert forall|i: int| 0 <= i < ls.len() implies !((#[trigger] feed(ls, d)[i]).filter is Signer)
        && !(feed(ls, d)[i].filter matches FilterView::Literal(Some(_))) by {
        assert(feed(ls, d)[i].filter.same(ls[i].filter));
        assert(!(ls[i].filter is Signer));
    }
}

proof fn lemma_no_signers_drop(ls: Seq<LayerView>)
    requires
        no_signers(ls),
        ls.len() > 0,
    ensures
        no_signers(ls.drop_last()),
{
    assert forall|i: int| 0 <= i < ls.len() - 1 implies !((#[trigger] ls.drop_last()[i]).filter
        is Signer) && !(ls.drop_last()[i].filter matches FilterView::Literal(Some(_))) by {
        assert(!(ls[i].filter is Signer));
    }
}

proof fn lemma_no_signers_peel(ls: Seq<LayerView>)
    requires
        no_signers(ls),
        ls.len() > 0,
    ensures
        no_signers(peel(ls)),
        peel(ls).len() == ls.len() - 1,
{
    lemma_no_signers_drop(ls);
    lemma_no_signers_feed(ls.drop_last(), ls.last().rest());
}

/// Without signers, the message that finalizing gives is determined by what
/// has been written.
#[verifier::rlimit(40)]
pub proof fn law_finalizing_is_determined(ls: Seq<LayerView>, a: Seq<u8>, b: Seq<u8>)
    requires
        structured(ls),
        no_signers(ls),
        finalizes_to(ls, a),
        finalizes_to(ls, b),
    ensures
        a == b,
    decreases ls.len(),
{
    if ls.len() > 1 && ls.last().filter is Compressor {
        let below = ls.drop_last();
        let m = peel(below);
        assert(fits(ls, ls.len() - 1));
        lemma_no_signers_drop(ls);
        lemma_no_signers_peel(below);
        lemma_drop_structured(ls);
        lemma_peel_structured(below);
        lemma_compressor_finalizes(ls, a);
        lemma_compressor_finalizes(ls, b);
        law_finalizing_is_determined(m, a, b);
    } else if ls.len() > 1 {
        let x = choose|next: Seq<LayerView>|
            next.len() < ls.len() && #[trigger] finalized(ls, next) && finalizes_to(next, a);
        let y = choose|next: Seq<LayerView>|
            next.len() < ls.len() && #[trigger] finalized(ls, next) && finalizes_to(next, b);
        assert(!(ls[ls.len() - 1].filter is Signer));
        assert(fits(ls, ls.len() - 1));
        lemma_unstack_structured(ls);
        assert(x == unstack(ls));
        assert(y == unstack(ls));
        let below = ls.drop_last();
        lemma_no_signers_drop(ls);
        match ls.last().filter {
            FilterView::Arbitrary => lemma_no_signers_peel(below),
            FilterView::Literal(None) => lemma_no_signers_peel(below),
            FilterView::Encryptor(h) => {
                let fed = feed(below, mdc_packet(h));
                lemma_no_signers_feed(below, mdc_packet(h));
                lemma_no_signers_peel(fed);
                lemma_no_signers_peel(peel(fed));
            },
            _ => lemma_no_signers_peel(ls),
        }
        law_finalizing_is_determined(x, a, b);
    } else {
        assert(!finalized(ls, Seq::empty()));
        assert(ended(ls, a));
        assert(ended(ls, b));
    }
}

/// Finalizing a compressor finalizes the writer below the compression.
proof fn lemma_compressor_finalizes(ls: Seq<LayerView>, sink: Seq<u8>)
    requires
        structured(ls),
        ls.len() > 1,
        ls.last().filter is Compressor,
        finalizes_to(ls, sink),
    ensures
        finalizes_to(peel(ls.drop_last()), sink),
{
    let m = peel(ls.drop_last());
    assert(fits(ls, ls.len() - 1));
    lemma_drop_structured(ls);
    lemma_peel_structured(ls.drop_last());
    if ended(ls, sink) {
        assert(ended(m, sink));
    } else {
        let next = choose|next: Seq<LayerView>|
            next.len() < ls.len() && #[trigger] finalized(ls, next) && finalizes_to(next, sink);
        assert(finalized(m, next));
        lemma_finalized_structured(m, next);
    }
}

/// What version 1 of the encrypted data packet encrypts is the initialization
/// vector, its last two octets once more, and all that is written to the
/// encryptor; all of it is hashed.
pub proof fn law_seip1_content(v: EncryptorView, draws: DrawsView, writes: Seq<Seq<u8>>)
    requires
        v.aead() is None,
        draws.iv.len() >= 2,
    ensures
        ({
            let ls = feed_all(v.built(draws), writes);
            let all = draws.iv + draws.iv.skip(draws.iv.len() - 2) + joined(writes);
            &&& ls.len() >= 2
            &&& ls.last().filter == FilterView::Encryptor(all)
            &&& ls[ls.len() - 2].filter == FilterView::Cfb(
                CfbView { algo: v.sym_algo, key: v.key(draws), data: all },
            )
        }),
{
    let level = next_level(v.inner);
    let iv = draws.iv;
    let again = iv.skip(iv.len() - 2);
    let c = CfbView { algo: v.sym_algo, key: v.key(draws), data: Seq::empty() };
    let base = feed(v.container(draws), seq![1u8]);
    let cookie = Cookie { level, private: Private::Nothing };
    let outer = Cookie { level, private: Private::Encryptor { profile: Profile::RFC4880 } };
    let mounted = base.push(LayerView { cookie, filter: FilterView::Cfb(c) }).push(
        LayerView { cookie: outer, filter: FilterView::Encryptor(Seq::empty()) },
    );
    let pieces = seq![iv, again] + writes;
    lemma_encryptor_hashes(base, cookie, c, outer, Seq::empty(), pieces);
    lemma_feed_all_front(mounted, pieces);
    assert(pieces.skip(1) =~= seq![again] + writes);
    lemma_feed_all_front(feed(mounted, iv), pieces.skip(1));
    assert(pieces.skip(1).skip(1) =~= writes);
    assert(feed_all(mounted, pieces) == feed_all(v.built(draws), writes));
    let all = iv + again + joined(writes);
    assert(joined(pieces.skip(1)) == again + joined(writes));
    assert(joined(pieces) == iv + (again + joined(writes)));
    assert(Seq::<u8>::empty() + joined(pieces) =~= all);
    assert(c.push(joined(pieces)) =~= CfbView {
        algo: v.sym_algo,
        key: v.key(draws),
        data: all,
    });
}

/// What version 2 of the encrypted data packet encrypts is all that is
/// written to the encryptor.
pub proof fn law_seip2_content(v: EncryptorView, draws: DrawsView, writes: Seq<Seq<u8>>)
    requires
        v.aead() is Some,
    ensures
        feed_all(v.built(draws), writes).last().filter == FilterView::Aead(
            seip2_schedule(v.sym_algo, v.aead()->0, draws.salt, v.key(draws)).push(joined(writes)),
        ),
{
    let built = v.built(draws);
    assert(built.drop_last().push(built.last()) =~= built);
    lemma_aead_takes_in(
        built.drop_last(),
        built.last().cookie,
        seip2_schedule(v.sym_algo, v.aead()->0, draws.salt, v.key(draws)),
        writes,
    );
}

proof fn lemma_aead_takes_in(
    base: Seq<LayerView>,
    cookie: Cookie,
    a: AeadView,
    writes: Seq<Seq<u8>>,
)
    ensures
        feed_all(
            base.push(LayerView { cookie, filter: FilterView::Aead(a) }),
            writes,
        ).last().filter == FilterView::Aead(a.push(joined(writes))),
    decreases writes.len(),
{
    let top = LayerView { cookie, filter: FilterView::Aead(a) };
    let ls = base.push(top);
    if writes.len() == 0 {
        assert(a.push(joined(writes)) =~= a);
    } else {
        let w = writes[0];
        let rest = writes.skip(1);
        lemma_feed_all_front(ls, writes);
        assert(a.push(w).push(joined(rest)) =~= a.push(joined(writes)));
        if w.len() == 0 {
            lemma_feed_nothing(ls, w);
            assert(a.push(w) =~= a);
            lemma_aead_takes_in(base, cookie, a, rest);
        } else {
            lemma_feed_step(base, top, w);
            lemma_aead_takes_in(feed(base, top.filter.push(w).1), cookie, a.push(w), rest);
        }
    }
}

/// What a compression filter passes on, piece by piece, while `writes` are
/// written to it.
pub open spec fn compression_pieces(c: CompressionView, writes: Seq<Seq<u8>>) -> Seq<Seq<u8>>
    decreases writes.len(),
{
    if writes.len() == 0 {
        Seq::empty()
    } else {
        seq![c.push(writes[0]).1] + compression_pieces(c.push(writes[0]).0, writes.skip(1))
    }
}

/// A compression filter after `writes` were written to it.
pub open spec fn compression_after(c: CompressionView, writes: Seq<Seq<u8>>) -> CompressionView
    decreases writes.len(),
{
    if writes.len() == 0 {
        c
    } else {
        compression_after(c.push(writes[0]).0, writes.skip(1))
    }
}

/// Writing to a compressor passes on what comes out of the compression.  Without
/// compression that is what is written; with compression it continues what has
/// come out, and unless the compression library refuses something, all that is
/// written is put in.
#[verifier::rlimit(40)]
pub proof fn law_compressed_content(
    base: Seq<LayerView>,
    cookie: Cookie,
    c: CompressionView,
    outer: Cookie,
    writes: Seq<Seq<u8>>,
)
    requires
        c.sound(),
    ensures
        ({
            let after = compression_after(c, writes);
            let pieces = compression_pieces(c, writes);
            &&& feed_all(
                base.push(LayerView { cookie, filter: FilterView::Compression(c) }).push(
                    LayerView { cookie: outer, filter: FilterView::Compressor },
                ),
                writes,
            ) == feed_all(base, pieces).push(
                LayerView { cookie, filter: FilterView::Compression(after) },
            ).push(LayerView { cookie: outer, filter: FilterView::Compressor })
            &&& after.sound() && after.algo == c.algo && after.level == c.level
            &&& c.algo is Uncompressed ==> after == c && joined(pieces) == joined(writes)
            &&& !(c.algo is Uncompressed) ==> {
                &&& c.sent() + joined(pieces) == after.sent()
                &&& !after.broken ==> !c.broken && after.content() == c.content() + joined(writes)
            }
        }),
    decreases writes.len(),
{
    let filter = LayerView { cookie, filter: FilterView::Compression(c) };
    let top = LayerView { cookie: outer, filter: FilterView::Compressor };
    let ls = base.push(filter).push(top);
    let pieces = compression_pieces(c, writes);
    if writes.len() == 0 {
        assert(c.content() + joined(writes) =~= c.content());
        assert(c.sent() + joined(pieces) =~= c.sent());
    } else {
        let w = writes[0];
        let rest = writes.skip(1);
        let (d, out) = c.push(w);
        lemma_feed_all_front(ls, writes);
        lemma_feed_all_front(base, pieces);
        assert(pieces.skip(1) =~= compression_pieces(d, rest));
        lemma_push_all_grows(c, w);
        let tail = joined(compression_pieces(d, rest));
        assert(c.sent() + (out + tail) =~= (c.sent() + out) + tail);
        assert((c.content() + w) + joined(rest) =~= c.content() + joined(writes));
        if w.len() == 0 {
            assert(out =~= Seq::<u8>::empty());
            assert(d == c);
            lemma_feed_nothing(ls, w);
            lemma_feed_nothing(base, out);
            law_compressed_content(base, cookie, c, outer, rest);
        } else {
            lemma_feed_step(base.push(filter), top, w);
            lemma_feed_step(base, filter, w);
            law_compressed_content(feed(base, out), cookie, d, outer, rest);
        }
    }
}

} // verus!
