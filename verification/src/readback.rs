//! Laws on what is left of a writer once it is finalized, and on what is read
//! out of that.

use vstd::prelude::*;

use crate::compression::{decompressed, CompressionView};
use crate::framing::{joined, unframe, Tag};
use crate::laws::{
    compression_after, compression_pieces, law_compressed_content, law_packet_content,
    law_signing_pieces, lemma_feed_all_front, lemma_signing_nothing, packet_pieces,
};
use crate::signing::SigningView;
use crate::stack::{
    feed, feed_all, finalized, lemma_feed_nothing, lemma_feed_shape, lemma_feed_step, peel,
    unstack, with_profile, Cookie, FilterView, LayerView, Private,
};
use crate::stream::{arbitrary_started, next_level, packet_started, CompressorView, LiteralView};
use crate::types::Profile;

verus! {

/// Whether the writers of a stack are those of another one, whatever they have
/// taken in.
pub open spec fn same_writers(a: Seq<LayerView>, b: Seq<LayerView>) -> bool {
    &&& a.len() == b.len()
    &&& forall|i: int|
        0 <= i < a.len() ==> (#[trigger] b[i]).filter.same(a[i].filter) && b[i].cookie
            == a[i].cookie
}

/// Writing keeps the writers of a stack.
pub proof fn lemma_feed_all_keeps(ls: Seq<LayerView>, pieces: Seq<Seq<u8>>)
    ensures
        same_writers(ls, feed_all(ls, pieces)),
    decreases pieces.len(),
{
    if pieces.len() == 0 {
        assert forall|i: int| 0 <= i < ls.len() implies (#[trigger] ls[i]).filter.same(
            ls[i].filter,
        ) by {}
    } else {
        let before = feed_all(ls, pieces.drop_last());
        lemma_feed_all_keeps(ls, pieces.drop_last());
        lemma_feed_shape(before, pieces.last());
        let after = feed(before, pieces.last());
        assert forall|i: int| 0 <= i < ls.len() implies (#[trigger] after[i]).filter.same(
            ls[i].filter,
        ) && after[i].cookie == ls[i].cookie by {
            assert(before[i].filter.same(ls[i].filter));
            assert(after[i].filter.same(before[i].filter));
        }
    }
}

/// Writing some pieces and then others is writing them all.
pub proof fn lemma_feed_all_concat(ls: Seq<LayerView>, a: Seq<Seq<u8>>, b: Seq<Seq<u8>>)
    ensures
        feed_all(ls, a + b) == feed_all(feed_all(ls, a), b),
    decreases b.len(),
{
    if b.len() == 0 {
        assert(a + b =~= a);
    } else {
        lemma_feed_all_concat(ls, a, b.drop_last());
        assert((a + b).drop_last() =~= a + b.drop_last());
        assert((a + b).last() == b.last());
    }
}

/// The pieces of two lists, joined.
pub proof fn lemma_joined_concat(a: Seq<Seq<u8>>, b: Seq<Seq<u8>>)
    ensures
        joined(a + b) == joined(a) + joined(b),
    decreases a.len(),
{
    if a.len() == 0 {
        assert(a + b =~= b);
        assert(joined(a) + joined(b) =~= joined(b));
    } else {
        lemma_joined_concat(a.skip(1), b);
        assert((a + b).skip(1) =~= a.skip(1) + b);
        assert(a[0] + (joined(a.skip(1)) + joined(b)) =~= (a[0] + joined(a.skip(1))) + joined(b));
    }
}

/// One piece, joined.
pub proof fn lemma_joined_one(a: Seq<u8>)
    ensures
        joined(seq![a]) == a,
{
    let s = seq![a];
    assert(s.skip(1) =~= Seq::<Seq<u8>>::empty());
    assert(joined(s.skip(1)) == Seq::<u8>::empty());
    assert(a + Seq::<u8>::empty() =~= a);
}

/// What is left of a packet that has been started on a stack once it has
/// ended: its first octet and the framing of what was written to it have been
/// passed on to the stack.
pub open spec fn packet_passed_on(
    inner: Seq<LayerView>,
    tag: Tag,
    writes: Seq<Seq<u8>>,
) -> Seq<LayerView> {
    feed_all(feed(inner, seq![tag.spec_ctb()]), packet_pieces(Seq::empty(), writes))
}

/// A packet that ends passes on all of it, and what is read out of its framing
/// is what was written; the writers below stay what they are.
pub proof fn law_packet_is_passed_on(
    inner: Seq<LayerView>,
    tag: Tag,
    level: usize,
    writes: Seq<Seq<u8>>,
)
    ensures
        peel(feed_all(packet_started(inner, tag, level), writes)) == packet_passed_on(
            inner,
            tag,
            writes,
        ),
        unframe(joined(packet_pieces(Seq::empty(), writes))) == Some(joined(writes)),
        same_writers(inner, packet_passed_on(inner, tag, writes)),
        feed_all(packet_started(inner, tag, level), writes).len() == inner.len() + 1,
        feed_all(packet_started(inner, tag, level), writes).last().filter is Partial,
{
    let first = seq![tag.spec_ctb()];
    let base = feed(inner, first);
    let cookie = Cookie { level, private: Private::Nothing };
    let pieces = packet_pieces(Seq::empty(), writes);
    law_packet_content(base, cookie, Seq::empty(), writes);
    assert(Seq::<u8>::empty() + joined(writes) =~= joined(writes));
    lemma_feed_shape(inner, first);
    lemma_feed_all_keeps(base, pieces);
    let after = feed_all(base, pieces);
    assert forall|i: int| 0 <= i < inner.len() implies (#[trigger] after[i]).filter.same(
        inner[i].filter,
    ) && after[i].cookie == inner[i].cookie by {
        assert(base[i].filter.same(inner[i].filter));
        assert(after[i].filter.same(base[i].filter));
    }
    let started = packet_started(inner, tag, level);
    lemma_feed_all_keeps(started, writes);
    let n = inner.len() as int;
    assert(feed_all(started, writes)[n].filter.same(started[n].filter));
}

/// Writing to a writer that passes everything on writes to the writers below.
proof fn lemma_passes_on(base: Seq<LayerView>, top: LayerView, writes: Seq<Seq<u8>>)
    requires
        top.filter is Arbitrary || top.filter == FilterView::Literal(None),
    ensures
        feed_all(base.push(top), writes) == feed_all(base, writes).push(top),
    decreases writes.len(),
{
    if writes.len() > 0 {
        lemma_passes_on(base, top, writes.drop_last());
        let below = feed_all(base, writes.drop_last());
        if writes.last().len() == 0 {
            lemma_feed_nothing(below, writes.last());
            lemma_feed_nothing(below.push(top), writes.last());
        } else {
            lemma_feed_step(below, top, writes.last());
        }
    }
}

/// Writing to a literal writer hashes for the signer that it has taken off the
/// stack, and writes to the writers below.
pub proof fn lemma_stash_passes_on(
    base: Seq<LayerView>,
    cookie: Cookie,
    c: Cookie,
    s: SigningView,
    writes: Seq<Seq<u8>>,
)
    ensures
        feed_all(
            base.push(LayerView { cookie, filter: FilterView::Literal(Some((c, s))) }),
            writes,
        ) == feed_all(base, writes).push(
            LayerView { cookie, filter: FilterView::Literal(Some((c, s.push(joined(writes))))) },
        ),
    decreases writes.len(),
{
    let top = LayerView { cookie, filter: FilterView::Literal(Some((c, s))) };
    let ls = base.push(top);
    if writes.len() == 0 {
        lemma_signing_nothing(s);
    } else {
        let w = writes[0];
        lemma_feed_all_front(ls, writes);
        lemma_feed_all_front(base, writes);
        law_signing_pieces(s, w, joined(writes.skip(1)));
        if w.len() == 0 {
            lemma_feed_nothing(ls, w);
            lemma_feed_nothing(base, w);
            assert(w =~= Seq::<u8>::empty());
            lemma_signing_nothing(s);
            lemma_stash_passes_on(base, cookie, c, s, writes.skip(1));
        } else {
            lemma_feed_step(base, top, w);
            lemma_stash_passes_on(feed(base, w), cookie, c, s.push(w), writes.skip(1));
        }
    }
}

/// Finalizing an arbitrary packet gives back the stack that it was started on,
/// to which the whole packet has been passed on.
pub proof fn law_arbitrary_gives_back(
    inner: Seq<LayerView>,
    tag: Tag,
    writes: Seq<Seq<u8>>,
    next: Seq<LayerView>,
)
    requires
        inner.len() >= 1,
    ensures
        finalized(feed_all(arbitrary_started(inner, tag), writes), next) <==> next
            == packet_passed_on(inner, tag, writes),
        same_writers(inner, packet_passed_on(inner, tag, writes)),
        unframe(joined(packet_pieces(Seq::empty(), writes))) == Some(joined(writes)),
{
    let level = next_level(inner);
    let started = packet_started(inner, tag, level);
    let top = arbitrary_started(inner, tag).last();
    law_packet_is_passed_on(inner, tag, level, writes);
    lemma_passes_on(started, top, writes);
    let ls = feed_all(arbitrary_started(inner, tag), writes);
    assert(arbitrary_started(inner, tag) == started.push(top));
    assert(ls.drop_last() =~= feed_all(started, writes));
    assert(unstack(ls) == peel(ls.drop_last()));
}

/// Finalizing a literal writer gives back the stack that it was built on, to
/// which the whole packet has been passed on: what is read out of its framing
/// are the headers and what was written.  A signer that was taken off the
/// stack is back, and has hashed what was written.
#[verifier::rlimit(40)]
pub proof fn law_literal_gives_back(
    v: LiteralView,
    writes: Seq<Seq<u8>>,
    next: Seq<LayerView>,
)
    requires
        v.below().len() >= 1,
    ensures
        ({
            let body = seq![v.headers()] + writes;
            let packet = packet_passed_on(v.below(), Tag::Literal, body);
            &&& finalized(feed_all(v.built(), writes), next) <==> next == match v.stash() {
                None => packet,
                Some((c, s)) => packet.push(
                    LayerView { cookie: c, filter: FilterView::Signer(s.push(joined(writes))) },
                ),
            }
            &&& same_writers(v.below(), packet)
            &&& unframe(joined(packet_pieces(Seq::empty(), body))) == Some(
                v.headers() + joined(writes),
            )
        }),
{
    let level = next_level(v.inner);
    let started = packet_started(v.below(), Tag::Literal, level);
    let body = seq![v.headers()] + writes;
    let ready = feed(started, v.headers());
    let top = v.built().last();
    law_packet_is_passed_on(v.below(), Tag::Literal, level, body);
    assert(body.skip(1) =~= writes);
    lemma_feed_all_front(started, body);
    assert(joined(body) == v.headers() + joined(writes));
    let ls = feed_all(v.built(), writes);
    assert(v.built() == ready.push(top));
    match v.stash() {
        None => lemma_passes_on(ready, top, writes),
        Some((c, s)) => lemma_stash_passes_on(ready, top.cookie, c, s, writes),
    }
    assert(ls.drop_last() =~= feed_all(ready, writes));
    assert(feed_all(ready, writes) == feed_all(started, body));
    assert(peel(ls.drop_last()) == packet_passed_on(v.below(), Tag::Literal, body));
}

/// What is written to the framing of a compressed data packet: the algorithm,
/// and what was written to the compressor, compressed.
pub open spec fn compressed_writes(v: CompressorView, writes: Seq<Seq<u8>>) -> Seq<Seq<u8>> {
    let c = CompressionView::start(v.algo, v.level);
    seq![seq![v.algo.spec_octet()]] + (compression_pieces(c, writes) + seq![
        compression_after(c, writes).rest(),
    ])
}

/// Finalizing a compressor gives back the stack that it was built on, to which
/// the whole packet has been passed on: what is read out of its framing are
/// the algorithm and the compressed data, and what is read out of that is what
/// was written.
#[verifier::rlimit(60)]
#[verifier::spinoff_prover]
pub proof fn law_compressor_gives_back(
    v: CompressorView,
    writes: Seq<Seq<u8>>,
    next: Seq<LayerView>,
)
    requires
        v.inner.len() >= 1,
        finalized(feed_all(v.built(), writes), next),
    ensures
        ({
            let body = compressed_writes(v, writes);
            &&& next == packet_passed_on(v.inner, Tag::CompressedData, body)
            &&& same_writers(v.inner, next)
            &&& unframe(joined(packet_pieces(Seq::empty(), body))) == Some(
                seq![v.algo.spec_octet()] + joined(body.skip(1)),
            )
            &&& decompressed(v.algo, joined(body.skip(1))) == Some(joined(writes))
        }),
{
    let level = next_level(v.inner);
    let tag = Tag::CompressedData;
    let started = packet_started(v.inner, tag, level);
    let octet = seq![v.algo.spec_octet()];
    let base = feed(started, octet);
    let cookie = Cookie { level, private: Private::Nothing };
    let c = CompressionView::start(v.algo, v.level);
    let after = compression_after(c, writes);
    let pieces = compression_pieces(c, writes);
    let last = after.rest();
    let body = compressed_writes(v, writes);
    law_packet_is_passed_on(v.inner, tag, level, body);
    assert(body.skip(1) =~= pieces + seq![last]);
    lemma_feed_all_front(started, body);
    law_compressed_content(base, cookie, c, cookie, writes);
    let ls = feed_all(v.built(), writes);
    let below = ls.drop_last();
    let m = peel(below);
    assert(below.drop_last() =~= feed_all(base, pieces));
    assert(m == feed(feed_all(base, pieces), last));
    lemma_feed_all_concat(base, pieces, seq![last]);
    assert(seq![last].drop_last() =~= Seq::<Seq<u8>>::empty());
    assert(feed_all(feed_all(base, pieces), seq![last].drop_last()) == feed_all(base, pieces));
    assert(m == feed_all(started, body));
    assert(finalized(m, next));
    assert(unstack(m) == peel(m));
    // What is read.
    lemma_joined_concat(pieces, seq![last]);
    lemma_joined_one(last);
    assert(ls[ls.len() - 2].opens());
    if v.algo is Uncompressed {
        assert(last =~= Seq::<u8>::empty());
        assert(joined(pieces) + last =~= joined(writes));
    } else {
        assert(c.sent() =~= Seq::<u8>::empty());
        assert(c.sent() + joined(pieces) =~= joined(pieces));
        assert(c.content() + joined(writes) =~= joined(writes));
    }
}

/// The profile of a sink alone is not set.
pub proof fn lemma_profile_of_sink(
    ls: Seq<LayerView>,
    cookie: Cookie,
    sink: Seq<u8>,
    profile: Profile,
)
    requires
        ls == seq![LayerView { cookie, filter: FilterView::Sink(sink) }],
        cookie.private is Nothing,
    ensures
        with_profile(ls, profile) == ls,
{
    let top = ls.last();
    assert(ls.drop_last() =~= Seq::<LayerView>::empty());
    assert(with_profile(ls.drop_last(), profile) == ls.drop_last());
    assert(ls.drop_last().push(top) =~= ls);
}

/// A literal writer stays on top while it is written to.
pub proof fn lemma_literal_top(l: LiteralView, writes: Seq<Seq<u8>>)
    requires
        l.below().len() >= 1,
    ensures
        feed_all(l.built(), writes).len() >= 2,
        feed_all(l.built(), writes).last().filter is Literal,
{
    let built = l.built();
    let first = seq![Tag::Literal.spec_ctb()];
    lemma_feed_shape(l.below(), first);
    lemma_feed_shape(
        packet_started(l.below(), Tag::Literal, next_level(l.inner)),
        l.headers(),
    );
    lemma_feed_all_keeps(built, writes);
    let n = built.len() - 1;
    assert(feed_all(built, writes)[n].filter.same(built[n].filter));
}

} // verus!
