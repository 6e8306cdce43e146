//! The stack of writers that a message is made by.

use vstd::prelude::*;

use crate::armor::{ArmorView, ArmorWriter};
use crate::bytes::{extend, to_vec};
use crate::cipher::{AeadEncryptor, AeadView, CfbEncryptor, CfbView, MAX_CHUNKS};
use crate::compression::{lemma_push_all_algo, CompressionFilter, CompressionView};
use crate::error::{ErrorView, Result};
use crate::framing::{
    chunks_out, chunks_rest, full_length, lemma_chunks_rest_bounded, PartialBodyFilter, Tag,
    BUFFER_THRESHOLD,
};
use crate::hashing::{hash_of, Context};
use crate::crypto::AnySigner;
use crate::signing::{
    lemma_push_keeps_ready, EntryView, Outcome, SignatureMode, Signing, SigningView,
};
use crate::textfilter::{
    dash_escape, dashed, trim_last, trim_lines, DashEscapeFilter, TrailingWSFilter, LF,
};
use crate::types::{HashAlgorithm, Kind, Profile};

verus! {

/// Writer-specific data.
#[derive(Clone, Copy, Debug)]
pub enum Private {
    Nothing,
    Signer,
    Armorer {
        /// The profile that the armor is to adhere to, once that is known.
        set_profile: Option<Profile>,
    },
    Encryptor {
        /// The profile that the encryption container adheres to.
        profile: Profile,
    },
}

/// What the stack knows about a writer.
#[derive(Clone, Copy, Debug)]
pub struct Cookie {
    /// How deeply the writer is nested.
    pub level: usize,
    pub private: Private,
}

impl Cookie {
    /// Creates a cookie without private data.
    pub fn new(level: usize) -> (r: Cookie)
        ensures
            r == (Cookie { level, private: Private::Nothing }),
    {
        Cookie { level, private: Private::Nothing }
    }

    /// Sets the private data part of the cookie.
    pub fn set_private(self, p: Private) -> (r: Cookie)
        ensures
            r == (Cookie { private: p, ..self }),
    {
        Cookie { level: self.level, private: p }
    }
}

impl Default for Cookie {
    fn default() -> (r: Cookie)
        ensures
            r == (Cookie { level: 0, private: Private::Nothing }),
    {
        Cookie::new(0)
    }
}

/// What a writer does to the data, and what it has taken in.
#[verifier::ext_equal]
pub enum FilterView {
    /// Where the message arrives.
    Sink(Seq<u8>),
    /// Frames a packet body.
    Partial(Seq<u8>),
    /// Strips the framing below it when it is finalized.
    Arbitrary,
    /// Hashes for the signer that it has taken off the stack, if any, and
    /// strips the framing below it when it is finalized.
    Literal(Option<(Cookie, SigningView)>),
    /// Strips the compression and the framing below it when it is finalized.
    Compressor,
    Compression(CompressionView),
    Armorer(ArmorView),
    Signer(SigningView),
    DashEscape(Seq<u8>),
    TrailingWS(Seq<u8>),
    /// Hashes what is encrypted.
    Encryptor(Seq<u8>),
    Cfb(CfbView),
    Aead(AeadView),
}

/// A writer on the stack.
#[verifier::ext_equal]
pub struct LayerView {
    pub cookie: Cookie,
    pub filter: FilterView,
}

impl FilterView {
    /// The filter after some more data, and what it passes on.
    pub open spec fn push(self, d: Seq<u8>) -> (FilterView, Seq<u8>) {
        match self {
            FilterView::Sink(b) => (FilterView::Sink(b + d), Seq::empty()),
            FilterView::Partial(b) => (FilterView::Partial(chunks_rest(b + d)), chunks_out(b + d)),
            FilterView::Arbitrary => (self, d),
            FilterView::Literal(None) => (self, d),
            FilterView::Literal(Some((c, s))) => (FilterView::Literal(Some((c, s.push(d)))), d),
            FilterView::Compressor => (self, d),
            FilterView::Compression(c) => (FilterView::Compression(c.push(d).0), c.push(d).1),
            FilterView::Armorer(a) => (
                FilterView::Armorer(a.push(d)),
                a.push(d).sent().skip(a.sent().len() as int),
            ),
            FilterView::Signer(s) => (
                FilterView::Signer(s.push(d)),
                if s.mode is Detached {
                    Seq::empty()
                } else {
                    d
                },
            ),
            FilterView::DashEscape(l) => (
                FilterView::DashEscape(dash_escape(l, d).0),
                dash_escape(l, d).1,
            ),
            FilterView::TrailingWS(l) => (
                FilterView::TrailingWS(trim_lines(l, d).0),
                trim_lines(l, d).1,
            ),
            FilterView::Encryptor(h) => (FilterView::Encryptor(h + d), d),
            FilterView::Cfb(c) => (
                FilterView::Cfb(c.push(d)),
                c.push(d).sent().skip(c.sent().len() as int),
            ),
            FilterView::Aead(a) => (
                FilterView::Aead(a.push(d)),
                a.push(d).sent().skip(a.sent().len() as int),
            ),
        }
    }

    /// Whether the filter hashes what it passes on.
    pub open spec fn hashes(self) -> bool {
        match self {
            FilterView::Literal(Some(_)) => true,
            FilterView::Signer(_) => true,
            FilterView::Encryptor(_) => true,
            _ => false,
        }
    }

    /// Whether the filter takes in data without fail.
    pub open spec fn steady(self) -> bool {
        match self {
            FilterView::Cfb(_) => false,
            FilterView::Aead(_) => false,
            _ => !self.hashes(),
        }
    }

    /// Whether the filter takes in this data without fail: it takes in any data,
    /// or no chunk of an authenticated cipher is completed.
    pub open spec fn accepts(self, d: Seq<u8>) -> bool {
        self.steady() || (self matches FilterView::Aead(a) && a.push(d).whole() == a.whole())
    }

    /// Whether the filter is finished without fail: it needs no library, or the
    /// compression library takes in everything and ends.
    pub open spec fn ends_well(self) -> bool {
        match self {
            FilterView::Compression(c) => c.algo is Uncompressed || c.ended() is Some,
            FilterView::Aead(_) => false,
            _ => true,
        }
    }

    /// Whether the filter takes in any data, and is finished, without fail.
    pub open spec fn plain(self) -> bool {
        self.steady() && (self matches FilterView::Compression(c) ==> c.algo is Uncompressed)
    }

    /// Whether two filters do the same, whatever they have taken in.
    pub open spec fn same(self, other: FilterView) -> bool {
        match (self, other) {
            (FilterView::Sink(_), FilterView::Sink(_)) => true,
            (FilterView::Partial(_), FilterView::Partial(_)) => true,
            (FilterView::Arbitrary, FilterView::Arbitrary) => true,
            (FilterView::Literal(a), FilterView::Literal(b)) => match (a, b) {
                (None, None) => true,
                (Some(x), Some(y)) => x.0 == y.0 && x.1.mode == y.1.mode,
                _ => false,
            },
            (FilterView::Compressor, FilterView::Compressor) => true,
            (FilterView::Compression(a), FilterView::Compression(b)) => a.algo == b.algo,
            (FilterView::Armorer(_), FilterView::Armorer(_)) => true,
            (FilterView::Signer(a), FilterView::Signer(b)) => a.mode == b.mode,
            (FilterView::DashEscape(_), FilterView::DashEscape(_)) => true,
            (FilterView::TrailingWS(_), FilterView::TrailingWS(_)) => true,
            (FilterView::Encryptor(_), FilterView::Encryptor(_)) => true,
            (FilterView::Cfb(_), FilterView::Cfb(_)) => true,
            (FilterView::Aead(_), FilterView::Aead(_)) => true,
            _ => false,
        }
    }
}

impl LayerView {
    /// What the writer sends at its end.
    pub open spec fn rest(self) -> Seq<u8> {
        match self.filter {
            FilterView::Partial(b) => full_length(b.len() as int) + b,
            FilterView::Compression(c) => c.rest(),
            FilterView::Armorer(a) => a.rest(
                !(self.cookie.private matches Private::Armorer {
                    set_profile: Some(Profile::RFC9580),
                }),
            ),
            FilterView::DashEscape(l) => dashed(l),
            FilterView::TrailingWS(l) => trim_last(l),
            FilterView::Aead(a) => a.rest(),
            _ => Seq::empty(),
        }
    }

    /// Whether what was put into the writer can be got out of what comes out
    /// of it by decompressing or decrypting.
    pub open spec fn opens(self) -> bool {
        match self.filter {
            FilterView::Compression(c) => c.opens(),
            FilterView::Cfb(c) => c.opens(),
            FilterView::Aead(a) => a.opens(),
            _ => true,
        }
    }
}

/// Data is written to the topmost writer, and what that passes on to the
/// writer below it, and so on.
#[verifier::opaque]
pub open spec fn feed(ls: Seq<LayerView>, d: Seq<u8>) -> Seq<LayerView>
    decreases ls.len(),
{
    if ls.len() == 0 || d.len() == 0 {
        ls
    } else {
        let (f, out) = ls.last().filter.push(d);
        feed(ls.drop_last(), out).push(LayerView { filter: f, ..ls.last() })
    }
}

/// Whether data is taken in without fail: there is none, or the topmost writer
/// takes it in, and the writers below what that passes on.
pub open spec fn takes(ls: Seq<LayerView>, d: Seq<u8>) -> bool
    decreases ls.len(),
{
    ||| ls.len() == 0
    ||| d.len() == 0
    ||| ls.last().filter.accepts(d) && takes(ls.drop_last(), ls.last().filter.push(d).1)
}

/// Whether data is more than an authenticated cipher on the stack takes in.
pub open spec fn exceeds(ls: Seq<LayerView>, d: Seq<u8>) -> bool
    decreases ls.len(),
{
    ls.len() > 0 && d.len() > 0 && {
        ||| ls.last().filter matches FilterView::Aead(a) && a.push(d).whole() > MAX_CHUNKS
        ||| exceeds(ls.drop_last(), ls.last().filter.push(d).1)
    }
}

/// Whether the topmost writer ends, and leaves the stack, without fail.
pub open spec fn peels_well(ls: Seq<LayerView>) -> bool {
    ls.last().filter.ends_well() && takes(ls.drop_last(), ls.last().rest())
}

/// Several pieces are written one after the other.
pub open spec fn feed_all(ls: Seq<LayerView>, pieces: Seq<Seq<u8>>) -> Seq<LayerView>
    decreases pieces.len(),
{
    if pieces.len() == 0 {
        ls
    } else {
        feed(feed_all(ls, pieces.drop_last()), pieces.last())
    }
}

/// The topmost writer sends what it has held back, and leaves the stack.
pub open spec fn peel(ls: Seq<LayerView>) -> Seq<LayerView> {
    feed(ls.drop_last(), ls.last().rest())
}

/// The length of the packet that detects modifications.
pub const MDC_LEN: usize = 22;

/// The packet that detects modifications, given what was encrypted before
/// it.
pub open spec fn mdc_packet(h: Seq<u8>) -> Seq<u8> {
    let header = seq![Tag::MDC.spec_ctb(), 20u8];
    header + hash_of(HashAlgorithm::SHA1, h + header)
}

/// The topmost writer, which is neither a signer nor a compressor, is
/// finalized.
pub open spec fn unstack(ls: Seq<LayerView>) -> Seq<LayerView> {
    match ls.last().filter {
        FilterView::Arbitrary => peel(ls.drop_last()),
        FilterView::Literal(None) => peel(ls.drop_last()),
        FilterView::Literal(Some((c, s))) => peel(ls.drop_last()).push(
            LayerView { cookie: c, filter: FilterView::Signer(s) },
        ),
        FilterView::Encryptor(h) => peel(peel(feed(ls.drop_last(), mdc_packet(h)))),
        _ => peel(ls),
    }
}

/// Whether what was written to the topmost writer can be got out of what it
/// has made by decompressing or decrypting.  In an encryption container of
/// the first version this includes the packet that detects modifications.
pub open spec fn readable(ls: Seq<LayerView>) -> bool {
    match ls.last().filter {
        FilterView::Compressor => ls[ls.len() - 2].opens(),
        FilterView::Encryptor(h) => ls[ls.len() - 2].filter matches FilterView::Cfb(c)
            && c.push(mdc_packet(h)).opens() && mdc_packet(h).len() == MDC_LEN,
        _ => ls.last().opens(),
    }
}

/// What signatures are written to, given the stack below the signer.
pub open spec fn signature_base(below: Seq<LayerView>, mode: SignatureMode) -> Seq<LayerView> {
    if mode is Cleartext {
        feed(peel(below), seq![LF]).push(
            LayerView {
                cookie: Cookie { level: 0, private: Private::Nothing },
                filter: FilterView::Armorer(
                    ArmorView {
                        kind: Kind::Signature,
                        headers: Seq::empty(),
                        data: Seq::empty(),
                    },
                ),
            },
        )
    } else {
        below
    }
}

/// The first `j` signatures have been written, those of the last signers
/// first.
pub open spec fn emitted(
    base: Seq<LayerView>,
    s: SigningView,
    outcomes: Seq<Outcome>,
    j: int,
) -> Seq<LayerView>
    decreases j,
{
    if j <= 0 {
        base
    } else {
        feed(
            emitted(base, s, outcomes, j - 1),
            s.signature(s.signers.len() - j, outcomes[j - 1].0, outcomes[j - 1].1),
        )
    }
}

/// Whether an error tells that a writer failed.
pub open spec fn write_error(e: ErrorView) -> bool {
    e is Backend || e is TooLarge
}

/// Whether finalizing the topmost writer of one stack may give the other.
/// What was written can be read again.  The signatures of a signer are answers
/// that its signers may give.  A compressor strips the compression, and then
/// the writer below that is finalized.
pub open spec fn finalized(ls: Seq<LayerView>, next: Seq<LayerView>) -> bool
    decreases ls.len(),
{
    &&& ls.len() > 1
    &&& readable(ls)
    &&& match ls.last().filter {
        FilterView::Signer(s) => exists|outcomes: Seq<Outcome>|
            s.may_emit(outcomes) && next == #[trigger] emitted(
                signature_base(ls.drop_last(), s.mode),
                s,
                outcomes,
                s.signers.len() as int,
            ),
        FilterView::Compressor => ({
            let below = peel(ls.drop_last());
            below.len() < ls.len() && finalized(below, next)
        }),
        _ => next == unstack(ls),
    }
}

/// Whether finalizing the topmost writer leaves nothing but these octets.
pub open spec fn ended(ls: Seq<LayerView>, sink: Seq<u8>) -> bool
    decreases ls.len(),
{
    if ls.len() <= 1 {
        ls.len() == 1 && ls[0].filter == FilterView::Sink(sink)
    } else {
        let below = peel(ls.drop_last());
        ls.last().filter is Compressor && readable(ls) && below.len() < ls.len() && ended(
            below,
            sink,
        )
    }
}

/// Whether signatures may not be written, with this error: a writer below
/// failed, or the signature of a signer could not be made.
pub open spec fn emission_fails(below: Seq<LayerView>, s: SigningView, e: ErrorView) -> bool {
    ||| !takes_signatures(below, s.mode) && write_error(e)
    ||| exists|i: int, time: int|
        0 <= i < s.signers.len() && #[trigger] s.may_refuse(i, time, e)
}

/// Whether finalizing the topmost writer may fail with this error.
pub open spec fn finalizing_fails(ls: Seq<LayerView>, e: ErrorView) -> bool
    decreases ls.len(),
{
    &&& ls.len() > 1
    &&& match ls.last().filter {
        FilterView::Signer(s) => emission_fails(ls.drop_last(), s, e),
        FilterView::Compressor => ({
            let below = peel(ls.drop_last());
            ||| !peels_well(ls.drop_last()) && write_error(e)
            ||| below.len() < ls.len() && finalizing_fails(below, e)
        }),
        FilterView::Arbitrary => !peels_well(ls.drop_last()) && write_error(e),
        FilterView::Literal(_) => !peels_well(ls.drop_last()) && write_error(e),
        FilterView::Encryptor(_) => write_error(e),
        _ => !peels_well(ls) && write_error(e),
    }
}

/// Whether the topmost writer is finalized without fail: what it strips ends
/// well, and if it is a signer, it has no signers that may refuse.
pub open spec fn finalizes_well(ls: Seq<LayerView>) -> bool
    decreases ls.len(),
{
    ls.len() <= 1 || match ls.last().filter {
        FilterView::Signer(s) => s.signers.len() == 0 && takes_signatures(ls.drop_last(), s.mode),
        FilterView::Compressor => ({
            let below = peel(ls.drop_last());
            peels_well(ls.drop_last()) && (below.len() < ls.len() ==> finalizes_well(below))
        }),
        FilterView::Arbitrary => peels_well(ls.drop_last()),
        FilterView::Literal(_) => peels_well(ls.drop_last()),
        FilterView::Encryptor(_) => false,
        _ => peels_well(ls),
    }
}

/// The stack that is left once the topmost writer is finalized, if no signer
/// decides about it; nothing if the sink is finalized, too.
pub open spec fn stepped(ls: Seq<LayerView>) -> Seq<LayerView>
    decreases ls.len(),
{
    if ls.len() <= 1 {
        Seq::empty()
    } else {
        match ls.last().filter {
            FilterView::Signer(s) => signature_base(ls.drop_last(), s.mode),
            FilterView::Compressor => ({
                let below = peel(ls.drop_last());
                if below.len() < ls.len() {
                    stepped(below)
                } else {
                    below
                }
            }),
            _ => unstack(ls),
        }
    }
}

/// Whether all writers of a stack are finalized without fail, one after the
/// other.
pub open spec fn finalizes_throughout(ls: Seq<LayerView>) -> bool
    decreases ls.len(),
{
    ls.len() <= 1 || finalizes_well(ls) && (stepped(ls).len() < ls.len() ==> finalizes_throughout(
        stepped(ls),
    ))
}

/// Whether finalizing all writers of a stack may leave these octets in the
/// sink.
pub open spec fn finalizes_to(ls: Seq<LayerView>, sink: Seq<u8>) -> bool
    decreases ls.len(),
{
    ||| ended(ls, sink)
    ||| exists|next: Seq<LayerView>|
        next.len() < ls.len() && #[trigger] finalized(ls, next) && finalizes_to(next, sink)
}

/// Whether finalizing all writers of a stack may fail with this error: the
/// first writer that fails hands on its error.
pub open spec fn finalize_fails(ls: Seq<LayerView>, e: ErrorView) -> bool
    decreases ls.len(),
{
    ||| finalizing_fails(ls, e)
    ||| exists|next: Seq<LayerView>|
        next.len() < ls.len() && #[trigger] finalized(ls, next) && finalize_fails(next, e)
}

/// Whether there is an authenticated cipher on the stack, which takes in a
/// limited amount of data.
pub open spec fn is_limited(ls: Seq<LayerView>) -> bool {
    exists|i: int| 0 <= i < ls.len() && (#[trigger] ls[i]).filter is Aead
}

/// Whether every writer of the stack takes in data without fail.
pub open spec fn all_steady(ls: Seq<LayerView>) -> bool {
    forall|i: int| 0 <= i < ls.len() ==> (#[trigger] ls[i]).filter.steady()
}

/// Whether signatures are written without fail.
pub open spec fn takes_signatures(below: Seq<LayerView>, mode: SignatureMode) -> bool {
    all_steady(below) && (mode is Cleartext ==> below.last().filter.ends_well())
}

/// Whether nothing on the stack can fail.
pub open spec fn all_plain(ls: Seq<LayerView>) -> bool {
    forall|i: int| 0 <= i < ls.len() ==> (#[trigger] ls[i]).filter.plain()
}

/// The profile of the armor below, if there is one, is set; an encryption
/// container in between speaks for what it holds.
pub open spec fn with_profile(ls: Seq<LayerView>, profile: Profile) -> Seq<LayerView>
    decreases ls.len(),
{
    if ls.len() == 0 {
        ls
    } else {
        let top = ls.last();
        match top.cookie.private {
            Private::Armorer { .. } => ls.drop_last().push(
                LayerView {
                    cookie: Cookie {
                        private: Private::Armorer { set_profile: Some(profile) },
                        ..top.cookie
                    },
                    ..top
                },
            ),
            Private::Encryptor { profile: p } => with_profile(ls.drop_last(), p).push(top),
            _ => with_profile(ls.drop_last(), profile).push(top),
        }
    }
}

/// Whether the writer at `i` says so if it is a signer, and stands on the
/// writers that it will strip.
pub open spec fn fits(ls: Seq<LayerView>, i: int) -> bool {
    &&& (ls[i].cookie.private is Signer) == (ls[i].filter is Signer)
    &&& match ls[i].filter {
        FilterView::Sink(_) => i == 0,
        FilterView::Arbitrary => i >= 2 && ls[i - 1].filter is Partial,
        FilterView::Literal(None) => i >= 2 && ls[i - 1].filter is Partial,
        FilterView::Literal(Some((c, s))) => {
            &&& i >= 2 && ls[i - 1].filter is Partial
            &&& c.private is Signer
            &&& s.mode is Cleartext ==> i >= 3 && ls[i - 2].filter is DashEscape
        },
        FilterView::Compressor => i >= 2 && ls[i - 1].filter is Compression,
        FilterView::Encryptor(_) => i >= 3 && ls[i - 1].filter is Cfb && ls[i - 2].filter
            is Partial,
        FilterView::Signer(s) => i >= 1 && (s.mode is Cleartext ==> i >= 2 && ls[i - 1].filter
            is DashEscape),
        _ => i >= 1,
    }
}

/// Whether the stack stands on a sink, and every writer on what it needs.
pub open spec fn structured(ls: Seq<LayerView>) -> bool {
    &&& ls.len() >= 1
    &&& ls[0].filter is Sink
    &&& forall|i: int| 0 <= i < ls.len() ==> #[trigger] fits(ls, i)
}

/// Writing to a stack writes to its topmost writer, and what that passes on
/// to the writers below.
pub proof fn lemma_feed_step(base: Seq<LayerView>, top: LayerView, d: Seq<u8>)
    requires
        d.len() > 0,
    ensures
        feed(base.push(top), d) == feed(base, top.filter.push(d).1).push(
            LayerView { filter: top.filter.push(d).0, ..top },
        ),
{
    reveal(feed);
    assert(base.push(top).drop_last() =~= base);
}

/// Writing nothing, or to no writer, changes nothing.
pub proof fn lemma_feed_nothing(ls: Seq<LayerView>, d: Seq<u8>)
    requires
        ls.len() == 0 || d.len() == 0,
    ensures
        feed(ls, d) == ls,
{
    reveal(feed);
}

/// Writing keeps the shape of the stack.
pub proof fn lemma_feed_shape(ls: Seq<LayerView>, d: Seq<u8>)
    ensures
        feed(ls, d).len() == ls.len(),
        forall|i: int|
            0 <= i < ls.len() ==> (#[trigger] feed(ls, d)[i]).filter.same(ls[i].filter) && feed(
                ls,
                d,
            )[i].cookie == ls[i].cookie,
    decreases ls.len(),
{
    reveal(feed);
    if ls.len() > 0 && d.len() > 0 {
        let (f, out) = ls.last().filter.push(d);
        lemma_feed_shape(ls.drop_last(), out);
        if let FilterView::Compression(c) = ls.last().filter {
            lemma_push_all_algo(c, d);
        }
        assert(f.same(ls.last().filter));
        assert forall|i: int| 0 <= i < ls.len() implies (#[trigger] feed(ls, d)[i]).filter.same(
            ls[i].filter,
        ) && feed(ls, d)[i].cookie == ls[i].cookie by {
            if i < ls.len() - 1 {
                assert(feed(ls, d)[i] == feed(ls.drop_last(), out)[i]);
                assert(ls.drop_last()[i] == ls[i]);
            }
        }
    }
}

/// A stack of the same shape is as well structured.
proof fn lemma_same_shape(a: Seq<LayerView>, b: Seq<LayerView>)
    requires
        structured(a),
        b.len() == a.len(),
        forall|i: int|
            0 <= i < a.len() ==> (#[trigger] b[i]).filter.same(a[i].filter) && (
            b[i].cookie.private is Signer) == (a[i].cookie.private is Signer),
    ensures
        structured(b),
        all_plain(a) ==> all_plain(b),
        all_steady(a) ==> all_steady(b),
{
    assert(b[0].filter.same(a[0].filter));
    assert forall|i: int| 0 <= i < b.len() implies #[trigger] fits(b, i) by {
        assert(fits(a, i));
        assert(b[i].filter.same(a[i].filter));
        if i >= 1 {
            assert(b[i - 1].filter.same(a[i - 1].filter));
        }
        if i >= 2 {
            assert(b[i - 2].filter.same(a[i - 2].filter));
        }
    }
    if all_plain(a) {
        assert forall|i: int| 0 <= i < b.len() implies (#[trigger] b[i]).filter.plain() by {
            assert(a[i].filter.plain());
            assert(b[i].filter.same(a[i].filter));
        }
    }
    if all_steady(a) {
        assert forall|i: int| 0 <= i < b.len() implies (#[trigger] b[i]).filter.steady() by {
            assert(a[i].filter.steady());
            assert(b[i].filter.same(a[i].filter));
        }
    }
}

/// Writing keeps a stack structured.
pub proof fn lemma_feed_structured(ls: Seq<LayerView>, d: Seq<u8>)
    requires
        structured(ls),
    ensures
        structured(feed(ls, d)),
        feed(ls, d).len() == ls.len(),
        all_plain(ls) ==> all_plain(feed(ls, d)),
        all_steady(ls) ==> all_steady(feed(ls, d)),
        forall|i: int|
            0 <= i < ls.len() ==> (#[trigger] feed(ls, d)[i]).filter.same(ls[i].filter) && feed(
                ls,
                d,
            )[i].cookie == ls[i].cookie,
{
    lemma_feed_shape(ls, d);
    lemma_same_shape(ls, feed(ls, d));
}

/// The lower part of a stack is structured.
pub proof fn lemma_drop_structured(ls: Seq<LayerView>)
    requires
        structured(ls),
        ls.len() >= 2,
    ensures
        structured(ls.drop_last()),
        all_plain(ls) ==> all_plain(ls.drop_last()),
        all_steady(ls) ==> all_steady(ls.drop_last()),
{
    let b = ls.drop_last();
    assert(b[0] == ls[0]);
    assert forall|i: int| 0 <= i < b.len() implies #[trigger] fits(b, i) by {
        assert(fits(ls, i));
        if i >= 1 {
            assert(b[i - 1] == ls[i - 1]);
        }
        if i >= 2 {
            assert(b[i - 2] == ls[i - 2]);
        }
    }
    lemma_plain_lower(ls);
}

/// The lower part of a stack fails no more easily than the whole.
proof fn lemma_plain_lower(ls: Seq<LayerView>)
    requires
        ls.len() >= 1,
    ensures
        all_plain(ls) ==> all_plain(ls.drop_last()) && ls.last().filter.plain(),
        all_steady(ls) ==> all_steady(ls.drop_last()) && ls.last().filter.steady(),
{
    let b = ls.drop_last();
    if all_plain(ls) {
        assert forall|i: int| 0 <= i < b.len() implies (#[trigger] b[i]).filter.plain() by {
            assert(ls[i].filter.plain());
        }
        assert(ls[ls.len() - 1].filter.plain());
    }
    if all_steady(ls) {
        assert forall|i: int| 0 <= i < b.len() implies (#[trigger] b[i]).filter.steady() by {
            assert(ls[i].filter.steady());
        }
        assert(ls[ls.len() - 1].filter.steady());
    }
}

/// A stack without an authenticated cipher takes in any amount of data.
pub proof fn lemma_exceeds_limited(ls: Seq<LayerView>, d: Seq<u8>)
    requires
        exceeds(ls, d),
    ensures
        is_limited(ls),
    decreases ls.len(),
{
    let lower = ls.drop_last();
    if ls.last().filter is Aead {
        assert(ls[ls.len() - 1].filter is Aead);
    } else {
        lemma_exceeds_limited(lower, ls.last().filter.push(d).1);
        let i = choose|i: int| 0 <= i < lower.len() && (#[trigger] lower[i]).filter is Aead;
        assert(ls[i].filter is Aead);
    }
}

/// Writers that take in any data take in this data.
pub proof fn lemma_steady_takes(ls: Seq<LayerView>, d: Seq<u8>)
    requires
        all_steady(ls),
    ensures
        takes(ls, d),
    decreases ls.len(),
{
    if ls.len() > 0 {
        lemma_plain_lower(ls);
        lemma_steady_takes(ls.drop_last(), ls.last().filter.push(d).1);
    }
}

/// Writing does not make a stack limited.
pub proof fn lemma_limited_feed(ls: Seq<LayerView>, d: Seq<u8>)
    ensures
        is_limited(feed(ls, d)) ==> is_limited(ls),
{
    lemma_feed_shape(ls, d);
    if is_limited(feed(ls, d)) {
        let i = choose|i: int|
            0 <= i < feed(ls, d).len() && (#[trigger] feed(ls, d)[i]).filter is Aead;
        assert(feed(ls, d)[i].filter.same(ls[i].filter));
        assert(ls[i].filter is Aead);
    }
}

/// A stack on which nothing can fail takes in data without fail.
pub proof fn lemma_plain_is_steady(ls: Seq<LayerView>)
    requires
        all_plain(ls),
    ensures
        all_steady(ls),
{
    assert forall|i: int| 0 <= i < ls.len() implies (#[trigger] ls[i]).filter.steady() by {
        assert(ls[i].filter.plain());
    }
}

/// A writer may be put on a stack that has what it needs.
pub proof fn lemma_push_structured(ls: Seq<LayerView>, l: LayerView)
    requires
        structured(ls),
        fits(ls.push(l), ls.len() as int),
    ensures
        structured(ls.push(l)),
        all_plain(ls) && l.filter.plain() ==> all_plain(ls.push(l)),
        all_steady(ls) && l.filter.steady() ==> all_steady(ls.push(l)),
{
    let b = ls.push(l);
    assert(b[0] == ls[0]);
    assert forall|i: int| 0 <= i < b.len() implies #[trigger] fits(b, i) by {
        if i < ls.len() {
            assert(fits(ls, i));
            assert(b[i] == ls[i]);
            if i >= 1 {
                assert(b[i - 1] == ls[i - 1]);
            }
            if i >= 2 {
                assert(b[i - 2] == ls[i - 2]);
            }
        }
    }
    if all_plain(ls) && l.filter.plain() {
        assert forall|i: int| 0 <= i < b.len() implies (#[trigger] b[i]).filter.plain() by {
            if i < ls.len() {
                assert(ls[i].filter.plain());
            }
        }
    }
    if all_steady(ls) && l.filter.steady() {
        assert forall|i: int| 0 <= i < b.len() implies (#[trigger] b[i]).filter.steady() by {
            if i < ls.len() {
                assert(ls[i].filter.steady());
            }
        }
    }
}

/// Peeling off a writer keeps a stack structured.
pub proof fn lemma_peel_structured(ls: Seq<LayerView>)
    requires
        structured(ls),
        ls.len() >= 2,
    ensures
        structured(peel(ls)),
        peel(ls).len() == ls.len() - 1,
        all_plain(ls) ==> all_plain(peel(ls)),
        all_steady(ls) ==> all_steady(peel(ls)),
        forall|i: int|
            0 <= i < ls.len() - 1 ==> (#[trigger] peel(ls)[i]).filter.same(ls[i].filter) && peel(
                ls,
            )[i].cookie == ls[i].cookie,
{
    lemma_drop_structured(ls);
    lemma_feed_structured(ls.drop_last(), ls.last().rest());
    assert forall|i: int| 0 <= i < ls.len() - 1 implies (#[trigger] peel(ls)[i]).filter.same(
        ls[i].filter,
    ) && peel(ls)[i].cookie == ls[i].cookie by {
        assert(ls.drop_last()[i] == ls[i]);
    }
}

/// What a writer does to the data, and what it has taken in.
pub enum Filter {
    Sink(Vec<u8>),
    Partial(PartialBodyFilter),
    Arbitrary,
    Literal(Option<(Cookie, Signing)>),
    Compressor,
    Compression(CompressionFilter),
    Armorer(ArmorWriter),
    Signer(Signing),
    DashEscape(DashEscapeFilter),
    TrailingWS(TrailingWSFilter),
    Encryptor(Context),
    Cfb(CfbEncryptor),
    Aead(AeadEncryptor),
}

impl View for Filter {
    type V = FilterView;

    open spec fn view(&self) -> FilterView {
        match self {
            Filter::Sink(b) => FilterView::Sink(b@),
            Filter::Partial(p) => FilterView::Partial(p@),
            Filter::Arbitrary => FilterView::Arbitrary,
            Filter::Literal(None) => FilterView::Literal(None),
            Filter::Literal(Some((c, s))) => FilterView::Literal(Some((*c, s@))),
            Filter::Compressor => FilterView::Compressor,
            Filter::Compression(c) => FilterView::Compression(c@),
            Filter::Armorer(a) => FilterView::Armorer(a@),
            Filter::Signer(s) => FilterView::Signer(s@),
            Filter::DashEscape(d) => FilterView::DashEscape(d@),
            Filter::TrailingWS(t) => FilterView::TrailingWS(t@),
            Filter::Encryptor(h) => FilterView::Encryptor(h@.data),
            Filter::Cfb(c) => FilterView::Cfb(c@),
            Filter::Aead(a) => FilterView::Aead(a@),
        }
    }
}

impl Filter {
    pub open spec fn wf(&self) -> bool {
        match self {
            Filter::Partial(p) => p@.len() <= BUFFER_THRESHOLD,
            Filter::Literal(Some((_, s))) => s.wf() && s@.ready(),
            Filter::Compression(c) => c.wf(),
            Filter::Armorer(a) => a.wf(),
            Filter::Signer(s) => s.wf() && s@.ready(),
            Filter::Encryptor(h) => h.wf() && h@.algo == HashAlgorithm::SHA1,
            Filter::Cfb(c) => c.wf() && c@.opens(),
            Filter::Aead(a) => a.wf(),
            _ => true,
        }
    }

    /// Takes in some more data, and returns what is passed on.
    #[verifier::rlimit(40)]
    pub fn push(&mut self, data: &[u8]) -> (r: Result<Vec<u8>>)
        requires
            old(self).wf(),
        ensures
            old(self)@.accepts(data@) ==> r is Ok,
            old(self)@ matches FilterView::Aead(a) ==> a.push(data@).whole() > MAX_CHUNKS
                ==> r is Err,
            match r {
                Ok(out) => final(self).wf() && final(self)@ == old(self)@.push(data@).0 && out@
                    == old(self)@.push(data@).1,
                Err(e) => e@ is Backend || e@ is TooLarge && (old(self)@ matches FilterView::Aead(a)
                    && a.push(data@).whole() > MAX_CHUNKS),
            },
    {
        match self {
            Filter::Sink(b) => {
                extend(b, data);
                let none: Vec<u8> = Vec::new();
                assert(none@ =~= Seq::<u8>::empty());
                Ok(none)
            },
            Filter::Partial(p) => {
                proof {
                    lemma_chunks_rest_bounded(p@ + data@);
                }
                Ok(p.push(data))
            },
            Filter::Arbitrary => Ok(to_vec(data)),
            Filter::Literal(None) => Ok(to_vec(data)),
            Filter::Literal(Some(stash)) => {
                proof {
                    lemma_push_keeps_ready(stash.1@, data@);
                }
                match stash.1.update(data) {
                    Ok(()) => Ok(to_vec(data)),
                    Err(e) => Err(e),
                }
            },
            Filter::Compressor => Ok(to_vec(data)),
            Filter::Compression(c) => Ok(c.push(data)),
            Filter::Armorer(a) => {
                let ghost was = a@;
                let out = a.push(data);
                assert(out@ =~= a@.sent().skip(was.sent().len() as int));
                Ok(out)
            },
            Filter::Signer(s) => {
                proof {
                    lemma_push_keeps_ready(s@, data@);
                }
                let detached: bool = s.mode == SignatureMode::Detached;
                match s.update(data) {
                    Ok(()) => {
                        if detached {
                            let none: Vec<u8> = Vec::new();
                            assert(none@ =~= Seq::<u8>::empty());
                            Ok(none)
                        } else {
                            Ok(to_vec(data))
                        }
                    },
                    Err(e) => Err(e),
                }
            },
            Filter::DashEscape(d) => Ok(d.push(data)),
            Filter::TrailingWS(t) => Ok(t.push(data)),
            Filter::Encryptor(h) => match h.update(data) {
                Ok(()) => Ok(to_vec(data)),
                Err(e) => Err(e),
            },
            Filter::Cfb(c) => {
                let ghost was = c@;
                match c.push(data) {
                    Ok(out) => {
                        assert(out@ =~= c@.sent().skip(was.sent().len() as int));
                        Ok(out)
                    },
                    Err(e) => Err(e),
                }
            },
            Filter::Aead(a) => {
                let ghost was = a@;
                match a.push(data) {
                    Ok(out) => {
                        assert(out@ =~= a@.sent().skip(was.sent().len() as int));
                        Ok(out)
                    },
                    Err(e) => Err(e),
                }
            },
        }
    }
}

/// A writer on the stack.
pub struct Layer {
    pub cookie: Cookie,
    pub filter: Filter,
}

impl View for Layer {
    type V = LayerView;

    open spec fn view(&self) -> LayerView {
        LayerView { cookie: self.cookie, filter: self.filter@ }
    }
}

impl Layer {
    /// Ends the writer, and returns what it has held back.
    pub fn finish(self) -> (r: Result<Vec<u8>>)
        requires
            self.filter.wf(),
        ensures
            self@.filter.ends_well() ==> r is Ok,
            match r {
                Ok(out) => out@ == self@.rest() && self@.opens(),
                Err(e) => e@ == ErrorView::Backend,
            },
    {
        let checksum: bool = match self.cookie.private {
            Private::Armorer { set_profile: Some(Profile::RFC9580) } => false,
            _ => true,
        };
        match self.filter {
            Filter::Partial(p) => Ok(p.finish()),
            Filter::Compression(c) => c.finish(),
            Filter::Armorer(a) => Ok(a.finish(checksum)),
            Filter::DashEscape(d) => Ok(d.finish()),
            Filter::TrailingWS(t) => Ok(t.finish()),
            Filter::Aead(a) => a.finish(),
            _ => {
                let none: Vec<u8> = Vec::new();
                assert(none@ =~= Seq::<u8>::empty());
                Ok(none)
            },
        }
    }
}

/// The writers of a vector.
pub open spec fn layer_views(v: Seq<Layer>) -> Seq<LayerView> {
    v.map_values(|l: Layer| l@)
}

/// Whether every writer of a vector is in order.
pub open spec fn layers_wf(v: Seq<Layer>) -> bool {
    forall|i: int| 0 <= i < v.len() ==> (#[trigger] v[i]).filter.wf()
}

impl Filter {
    /// Whether the filter hashes what it passes on, and whether it passes on
    /// all data.
    fn hashing(&self) -> (r: (bool, bool))
        ensures
            r.0 == self@.hashes(),
            r.0 ==> forall|d: Seq<u8>| #[trigger] self@.push(d).1 == if r.1 {
                d
            } else {
                Seq::empty()
            },
    {
        match self {
            Filter::Literal(Some(_)) => (true, true),
            Filter::Signer(s) => (true, s.mode != SignatureMode::Detached),
            Filter::Encryptor(_) => (true, true),
            _ => (false, true),
        }
    }
}

/// What is left of a stack after a failed write: if the topmost writer hashes
/// what it passes on, its digests have grown only if the data has arrived in
/// the writers below.
pub open spec fn write_failed(before: Seq<LayerView>, after: Seq<LayerView>, d: Seq<u8>) -> bool {
    &&& after.len() == before.len()
    &&& before.len() > 0
    &&& before.last().filter.hashes() ==> {
        ||| after.last() == before.last()
        ||| after.drop_last() == feed(before.drop_last(), before.last().filter.push(d).1)
    }
}

/// One writer has taken in data, and the writers below it what it passed on.
proof fn lemma_fed(ls: Seq<LayerView>, lower: Seq<LayerView>, top: LayerView, n: int, d: Seq<u8>)
    requires
        0 < n <= ls.len(),
        d.len() > 0,
        lower == feed(ls.take(n - 1), ls[n - 1].filter.push(d).1),
        top == (LayerView { filter: ls[n - 1].filter.push(d).0, ..ls[n - 1] }),
    ensures
        lower.push(top) + ls.skip(n) == feed(ls.take(n), d) + ls.skip(n),
        lower.len() == n - 1,
{
    lemma_feed_step(ls.take(n - 1), ls[n - 1], d);
    lemma_feed_shape(ls.take(n - 1), ls[n - 1].filter.push(d).1);
    assert(ls.take(n - 1).push(ls[n - 1]) =~= ls.take(n));
}

/// Writes data to the topmost one of the first `n` writers.
///
/// What is hashed is hashed once it has been written to the writers below.
#[verifier::rlimit(60)]
#[verifier::spinoff_prover]
fn feed_below(layers: &mut Vec<Layer>, n: usize, data: &[u8]) -> (r: Result<()>)
    requires
        layers_wf(old(layers)@),
        n <= old(layers)@.len(),
    ensures
        takes(layer_views(old(layers)@).take(n as int), data@) ==> r is Ok,
        final(layers)@.len() == old(layers)@.len(),
        forall|i: int|
            n <= i < old(layers)@.len() ==> #[trigger] final(layers)@[i] == old(layers)@[i],
        exceeds(layer_views(old(layers)@).take(n as int), data@) ==> r is Err,
        r matches Err(e) ==> e@ is TooLarge ==> exceeds(
            layer_views(old(layers)@).take(n as int),
            data@,
        ),
        match r {
            Ok(_) => layers_wf(final(layers)@) && layer_views(final(layers)@) == feed(
                layer_views(old(layers)@).take(n as int),
                data@,
            ) + layer_views(old(layers)@).skip(n as int),
            Err(e) => write_error(e@) && write_failed(
                layer_views(old(layers)@).take(n as int),
                layer_views(final(layers)@).take(n as int),
                data@,
            ),
        },
    decreases n,
{
    let ghost was = layers@;
    let ghost ls = layer_views(was);
    if n == 0 || data.len() == 0 {
        proof {
            lemma_feed_nothing(ls.take(n as int), data@);
            assert(ls.take(n as int) + ls.skip(n as int) =~= ls);
        }
        return Ok(());
    }
    let k: usize = n - 1;
    let ghost lower = ls.take(k as int);
    let ghost top = ls[k as int];
    let ghost passed = top.filter.push(data@).1;
    proof {
        assert(ls.take(n as int).drop_last() =~= lower);
        assert(ls.take(n as int).last() == top);
        assert(top == was[k as int]@);
    }
    let (hashing, passing): (bool, bool) = layers[k].filter.hashing();
    if hashing {
        let sent = if passing {
            to_vec(data)
        } else {
            Vec::new()
        };
        assert(sent@ =~= passed);
        match feed_below(layers, k, sent.as_slice()) {
            Ok(()) => (),
            Err(e) => {
                proof {
                    let after = layer_views(layers@).take(n as int);
                    assert(layers@[k as int] == was[k as int]);
                    assert(after.last() == top);
                }
                return Err(e);
            },
        }
        let ghost mid = layers@;
        proof {
            assert(mid[k as int] == was[k as int]);
            lemma_feed_shape(lower, passed);
        }
        let r = layers[k].filter.push(data);
        proof {
            assert forall|j: int| 0 <= j < mid.len() && j != k implies #[trigger] layers@[j]
                == mid[j] by {}
            let now = layer_views(layers@);
            let fed = feed(lower, passed);
            assert(layer_views(mid).take(k as int) =~= fed);
            assert(now.take(n as int).drop_last() =~= fed);
            if r is Ok {
                assert forall|j: int| 0 <= j < layers@.len() implies (
                #[trigger] layers@[j]).filter.wf() by {
                    if j != k {
                        assert(layers@[j] == mid[j]);
                    }
                }
                let after = LayerView { filter: top.filter.push(data@).0, ..top };
                assert(layers@[k as int]@ =~= after);
                lemma_fed(ls, fed, after, n as int, data@);
                assert(now =~= fed.push(after) + ls.skip(n as int));
            }
        }
        match r {
            Ok(_) => Ok(()),
            Err(e) => Err(e),
        }
    } else {
        let out = match layers[k].filter.push(data) {
            Ok(out) => out,
            Err(e) => return Err(e),
        };
        let ghost mid = layers@;
        let ghost after = LayerView { filter: top.filter.push(data@).0, ..top };
        proof {
            assert(mid[k as int]@ =~= after);
            assert forall|j: int| 0 <= j < mid.len() && j != k implies #[trigger] mid[j]
                == was[j] by {}
            assert forall|j: int| 0 <= j < mid.len() implies (#[trigger] mid[j]).filter.wf() by {
                if j != k {
                    assert(mid[j] == was[j]);
                }
            }
            assert(layer_views(mid).take(k as int) =~= lower);
        }
        match feed_below(layers, k, out.as_slice()) {
            Ok(()) => {
                proof {
                    let fed = feed(lower, passed);
                    lemma_fed(ls, fed, after, n as int, data@);
                    assert(layer_views(mid).skip(k as int) =~= seq![after] + ls.skip(n as int));
                    assert(layer_views(layers@) =~= fed.push(after) + ls.skip(n as int));
                    assert forall|j: int|
                        n <= j < was.len() implies #[trigger] layers@[j] == was[j] by {
                        assert(layers@[j] == mid[j]);
                    }
                }
                Ok(())
            },
            Err(e) => {
                proof {
                    assert forall|j: int|
                        n <= j < was.len() implies #[trigger] layers@[j] == was[j] by {
                        assert(layers@[j] == mid[j]);
                    }
                }
                Err(e)
            },
        }
    }
}

/// Writes data to the topmost writer.
pub fn feed_layers(layers: &mut Vec<Layer>, data: &[u8]) -> (r: Result<()>)
    requires
        layers_wf(old(layers)@),
    ensures
        takes(layer_views(old(layers)@), data@) ==> r is Ok,
        all_steady(layer_views(old(layers)@)) ==> r is Ok,
        exceeds(layer_views(old(layers)@), data@) ==> r is Err,
        r matches Err(e) ==> e@ is TooLarge ==> exceeds(layer_views(old(layers)@), data@),
        match r {
            Ok(_) => layers_wf(final(layers)@) && layer_views(final(layers)@) == feed(
                layer_views(old(layers)@),
                data@,
            ),
            Err(e) => write_error(e@) && write_failed(
                layer_views(old(layers)@),
                layer_views(final(layers)@),
                data@,
            ),
        },
{
    let ghost ls = layer_views(layers@);
    let n: usize = layers.len();
    proof {
        lemma_feed_shape(ls, data@);
        assert(ls.take(n as int) =~= ls);
        assert(feed(ls, data@) + ls.skip(n as int) =~= feed(ls, data@));
        if all_steady(ls) {
            lemma_steady_takes(ls, data@);
        }
    }
    let r = feed_below(layers, n, data);
    proof {
        let now = layer_views(layers@);
        assert(now.take(n as int) =~= now);
    }
    r
}

/// Ends the topmost writer, and takes it off the stack.
pub fn peel_layers(layers: &mut Vec<Layer>) -> (r: Result<()>)
    requires
        layers_wf(old(layers)@),
        old(layers)@.len() > 0,
    ensures
        peels_well(layer_views(old(layers)@)) ==> r is Ok,
        layer_views(old(layers)@).last().filter.ends_well() && all_steady(
            layer_views(old(layers)@).drop_last(),
        ) ==> r is Ok,
        match r {
            Ok(_) => layers_wf(final(layers)@) && layer_views(final(layers)@) == peel(
                layer_views(old(layers)@),
            ) && layer_views(old(layers)@).last().opens(),
            Err(e) => write_error(e@),
        },
{
    let ghost ls = layers@;
    let ghost views = layer_views(ls);
    match layers.pop() {
        Some(top) => {
            proof {
                assert(top@ == views.last());
                assert(layer_views(layers@) =~= views.drop_last());
                assert(ls[ls.len() - 1].filter.wf());
                assert forall|j: int| 0 <= j < layers@.len() implies (
                #[trigger] layers@[j]).filter.wf() by {
                    assert(layers@[j] == ls[j]);
                }
            }
            match top.finish() {
                Ok(out) => feed_layers(layers, out.as_slice()),
                Err(e) => Err(e),
            }
        },
        None => Ok(()),
    }
}

/// Streams an OpenPGP message.
///
/// The `Message` is a stack of filters that create the desired message
/// structure.  Literal data must be framed using a literal writer.  Once all
/// data has been written, the `Message` must be finalized using
/// [`Message::finalize`].
pub struct Message {
    layers: Vec<Layer>,
}

impl View for Message {
    type V = Seq<LayerView>;

    /// The writers, from the sink upwards.
    closed spec fn view(&self) -> Seq<LayerView> {
        layer_views(self.layers@)
    }
}

/// What is left once a writer has been finalized.
pub enum Finalized {
    /// The underlying writer.
    Inner(Message),
    /// Nothing but the octets that have arrived in the sink.
    Sink(Vec<u8>),
}

/// Finalizing a writer that is neither a signer nor a compressor keeps a stack
/// structured.
#[verifier::rlimit(40)]
pub proof fn lemma_unstack_structured(ls: Seq<LayerView>)
    requires
        structured(ls),
        ls.len() >= 2,
        !(ls.last().filter is Signer),
        !(ls.last().filter is Compressor),
    ensures
        structured(unstack(ls)),
        1 <= unstack(ls).len() < ls.len(),
        all_plain(ls) ==> all_plain(unstack(ls)),
{
    let n = ls.len() as int;
    let below = ls.drop_last();
    assert(fits(ls, n - 1));
    lemma_drop_structured(ls);
    match ls.last().filter {
        FilterView::Arbitrary => lemma_peel_structured(below),
        FilterView::Literal(None) => lemma_peel_structured(below),
        FilterView::Literal(Some((c, s))) => {
            lemma_peel_structured(below);
            let peeled = peel(below);
            if s.mode is Cleartext {
                assert(below[n - 3] == ls[n - 3]);
                assert(peeled[n - 3].filter.same(below[n - 3].filter));
            }
            let l = LayerView { cookie: c, filter: FilterView::Signer(s) };
            let b = peeled.push(l);
            if s.mode is Cleartext {
                assert(b[n - 3] == peeled[n - 3]);
            }
            lemma_push_structured(peeled, l);
            if all_plain(ls) {
                assert(ls[n - 1].filter.plain());
            }
        },
        FilterView::Encryptor(h) => {
            let fed = feed(below, mdc_packet(h));
            lemma_feed_structured(below, mdc_packet(h));
            lemma_peel_structured(fed);
            lemma_peel_structured(peel(fed));
        },
        _ => lemma_peel_structured(ls),
    }
}

/// What signatures are written to is structured.
proof fn lemma_signature_base_structured(ls: Seq<LayerView>)
    requires
        structured(ls),
        ls.len() >= 2,
        ls.last().filter is Signer,
    ensures
        structured(signature_base(ls.drop_last(), ls.last().filter->Signer_0.mode)),
        signature_base(ls.drop_last(), ls.last().filter->Signer_0.mode).len() == ls.len() - 1,
{
    let n = ls.len() as int;
    let below = ls.drop_last();
    let s = ls.last().filter->Signer_0;
    assert(fits(ls, n - 1));
    lemma_drop_structured(ls);
    if s.mode is Cleartext {
        lemma_peel_structured(below);
        let peeled = peel(below);
        lemma_feed_structured(peeled, seq![LF]);
        let fed = feed(peeled, seq![LF]);
        lemma_push_structured(
            fed,
            LayerView {
                cookie: Cookie { level: 0, private: Private::Nothing },
                filter: FilterView::Armorer(
                    ArmorView {
                        kind: Kind::Signature,
                        headers: Seq::empty(),
                        data: Seq::empty(),
                    },
                ),
            },
        );
    }
}

proof fn lemma_emitted_structured(
    base: Seq<LayerView>,
    s: SigningView,
    outcomes: Seq<Outcome>,
    j: int,
)
    requires
        structured(base),
    ensures
        structured(emitted(base, s, outcomes, j)),
        emitted(base, s, outcomes, j).len() == base.len(),
    decreases j,
{
    if j > 0 {
        lemma_emitted_structured(base, s, outcomes, j - 1);
        lemma_feed_structured(
            emitted(base, s, outcomes, j - 1),
            s.signature(s.signers.len() - j, outcomes[j - 1].0, outcomes[j - 1].1),
        );
    }
}

/// Finalizing the topmost writer of a structured stack leaves a structured
/// stack with fewer writers.
pub proof fn lemma_finalized_structured(ls: Seq<LayerView>, next: Seq<LayerView>)
    requires
        structured(ls),
        finalized(ls, next),
    ensures
        structured(next),
        1 <= next.len() < ls.len(),
    decreases ls.len(),
{
    assert(fits(ls, ls.len() - 1));
    match ls.last().filter {
        FilterView::Signer(s) => {
            let outcomes = choose|outcomes: Seq<Outcome>|
                s.may_emit(outcomes) && next == #[trigger] emitted(
                    signature_base(ls.drop_last(), s.mode),
                    s,
                    outcomes,
                    s.signers.len() as int,
                );
            lemma_signature_base_structured(ls);
            lemma_emitted_structured(
                signature_base(ls.drop_last(), s.mode),
                s,
                outcomes,
                s.signers.len() as int,
            );
        },
        FilterView::Compressor => {
            lemma_drop_structured(ls);
            lemma_peel_structured(ls.drop_last());
            lemma_finalized_structured(peel(ls.drop_last()), next);
        },
        _ => lemma_unstack_structured(ls),
    }
}

/// Signers in another state are as ready.
proof fn lemma_alike_ready(s: SigningView, t: SigningView)
    requires
        s.alike(t),
        s.ready(),
    ensures
        t.ready(),
{
    assert forall|i: int| 0 <= i < t.signers.len() implies {
        let e = #[trigger] t.signers[i];
        &&& e.key.fingerprint.version == 4 || e.key.fingerprint.version == 6
        &&& e.salt.len() <= 255
        &&& e.algo.spec_nid() is Some
        &&& crate::signing::serves(t.hashes[i], e)
        &&& t.hashes[i].algo == e.algo
        &&& forall|j: int| 0 <= j < t.hashes.len() ==> (#[trigger] t.hashes[j]).algo == e.algo
    } by {
        let e = s.signers[i];
        assert(t.signers[i].algo == e.algo);
    }
}

/// After a signer has signed, the signers are the same but for its state.
proof fn lemma_alike_renewed(s: SigningView, t: SigningView, i: int, signer: AnySigner)
    requires
        s.alike(t),
        0 <= i < s.signers.len(),
    ensures
        s.alike(t.renewed(i, signer)),
{
    let u = t.renewed(i, signer);
    assert forall|k: int| 0 <= k < s.signers.len() implies #[trigger] u.signers[k] == (EntryView {
        signer: u.signers[k].signer,
        ..s.signers[k]
    }) by {
        assert(t.signers[k] == (EntryView { signer: t.signers[k].signer, ..s.signers[k] }));
    }
}

/// Writing to writers that cannot fail leaves writers that cannot fail.
pub proof fn lemma_feed_plain(ls: Seq<LayerView>, d: Seq<u8>)
    requires
        all_plain(ls),
    ensures
        all_plain(feed(ls, d)),
{
    lemma_feed_shape(ls, d);
    assert forall|i: int| 0 <= i < ls.len() implies (#[trigger] feed(ls, d)[i]).filter.plain() by {
        assert(ls[i].filter.plain());
        assert(feed(ls, d)[i].filter.same(ls[i].filter));
    }
}

proof fn lemma_peel_plain(ls: Seq<LayerView>)
    requires
        all_plain(ls),
        ls.len() > 0,
    ensures
        all_plain(peel(ls)),
{
    lemma_plain_lower(ls);
    lemma_feed_plain(ls.drop_last(), ls.last().rest());
}

/// Writing to writers that take in data without fail leaves such writers.
proof fn lemma_feed_steady(ls: Seq<LayerView>, d: Seq<u8>)
    requires
        all_steady(ls),
    ensures
        all_steady(feed(ls, d)),
{
    lemma_feed_shape(ls, d);
    assert forall|i: int| 0 <= i < ls.len() implies (#[trigger] feed(ls, d)[i]).filter.steady() by {
        assert(ls[i].filter.steady());
        assert(feed(ls, d)[i].filter.same(ls[i].filter));
    }
}

/// If the writers below a signer take signatures without fail, so do those
/// that the signatures are written to.
proof fn lemma_signature_base_steady(below: Seq<LayerView>, mode: SignatureMode)
    requires
        takes_signatures(below, mode),
        below.len() > 0,
    ensures
        all_steady(below.drop_last()),
        all_steady(peel(below)),
        all_steady(signature_base(below, mode)),
{
    lemma_plain_lower(below);
    lemma_feed_steady(below.drop_last(), below.last().rest());
    if mode is Cleartext {
        lemma_feed_steady(peel(below), seq![LF]);
    }
}

/// Later outcomes do not change what has been written.
proof fn lemma_emitted_prefix(
    base: Seq<LayerView>,
    s: SigningView,
    a: Seq<Outcome>,
    b: Seq<Outcome>,
    j: int,
)
    requires
        0 <= j <= a.len(),
        j <= b.len(),
        forall|k: int| 0 <= k < j ==> a[k] == b[k],
    ensures
        emitted(base, s, a, j) == emitted(base, s, b, j),
    decreases j,
{
    if j > 0 {
        lemma_emitted_prefix(base, s, a, b, j - 1);
    }
}

impl Signing {
    /// Writes the signatures to the writers below the signer.
    ///
    /// The signatures come in reverse, so that the one-pass signature and
    /// signature packets "bracket" the message.
    ///
    /// Without signers, and if no writer below can fail, this succeeds.  If
    /// it fails, a writer below has failed, or the error is one that a
    /// signature may fail with.  After an error the writers must not be used
    /// any more.
    #[verifier::rlimit(40)]
    pub fn emit_signatures(&mut self, layers: &mut Vec<Layer>) -> (r: Result<()>)
        requires
            old(self).wf(),
            old(self)@.ready(),
            layers_wf(old(layers)@),
            old(layers)@.len() > 0,
        ensures
            final(self).wf(),
            old(self)@.alike(final(self)@),
            takes_signatures(layer_views(old(layers)@), old(self).mode) && old(self).signers@.len()
                == 0 ==> r is Ok,
            match r {
                Ok(_) => {
                    &&& layers_wf(final(layers)@)
                    &&& exists|outcomes: Seq<Outcome>|
                        old(self)@.may_emit(outcomes) && layer_views(final(layers)@)
                            == #[trigger] emitted(
                            signature_base(layer_views(old(layers)@), old(self).mode),
                            old(self)@,
                            outcomes,
                            old(self).signers@.len() as int,
                        )
                },
                Err(e) => emission_fails(layer_views(old(layers)@), old(self)@, e@),
            },
    {
        let ghost below = layer_views(layers@);
        let ghost was = *self;
        let ghost s = self@;
        let ghost steady = takes_signatures(below, was.mode);
        proof {
            if steady {
                lemma_signature_base_steady(below, was.mode);
            }
        }
        if self.mode == SignatureMode::Cleartext {
            match peel_layers(layers) {
                Ok(()) => (),
                Err(e) => return Err(e),
            }
            let newline: Vec<u8> = vec![LF];
            assert(newline@ =~= seq![LF]);
            match feed_layers(layers, newline.as_slice()) {
                Ok(()) => (),
                Err(e) => return Err(e),
            }
            let ghost fed = layers@;
            let writer = ArmorWriter::new(Kind::Signature, Vec::new());
            layers.push(Layer { cookie: Cookie::new(0), filter: Filter::Armorer(writer) });
            proof {
                assert(crate::armor::header_views(Seq::<(String, String)>::empty())
                    =~= Seq::empty());
                assert(layer_views(layers@) =~= signature_base(below, was.mode));
                assert forall|j: int| 0 <= j < layers@.len() implies (
                #[trigger] layers@[j]).filter.wf() by {
                    if j < fed.len() {
                        assert(layers@[j] == fed[j]);
                    }
                }
            }
        }
        let ghost base = signature_base(below, was.mode);
        let ghost mut outcomes: Seq<Outcome> = Seq::empty();
        let n: usize = self.signers.len();
        let mut j: usize = 0;
        while j < n
            invariant
                j <= n,
                n == self.signers@.len(),
                n == was.signers@.len(),
                was == *old(self),
                self.wf(),
                s.alike(self@),
                s == was@,
                s.ready(),
                s.signers.len() == n,
                layers_wf(layers@),
                below == layer_views(old(layers)@),
                steady == takes_signatures(below, was.mode),
                steady ==> all_steady(layer_views(layers@)),
                outcomes.len() == j,
                layer_views(layers@) == emitted(base, s, outcomes, j as int),
                forall|k: int| 0 <= k < n - j ==> #[trigger] self@.signers[k] == s.signers[k],
                forall|k: int| 0 <= k < j ==> s.may_sign(n - 1 - k, #[trigger] outcomes[k]),
            decreases n - j,
        {
            let i: usize = n - 1 - j;
            let ghost now = self@;
            let ghost views = layer_views(layers@);
            proof {
                lemma_alike_ready(s, now);
                assert(now.signers[i as int] == s.signers[i as int]);
                assert forall|time: int| #[trigger] now.params(i as int, time) == s.params(
                    i as int,
                    time,
                ) by {}
            }
            let r = self.sign(i);
            proof {
                lemma_alike_renewed(s, now, i as int, self.signers@[i as int].signer);
            }
            match r {
                Ok(p) => {
                    let ghost outcome = choose|outcome: Outcome|
                        #![trigger now.may_sign(i as int, outcome)]
                        now.may_sign(i as int, outcome) && p@ == now.signature(
                            i as int,
                            outcome.0,
                            outcome.1,
                        );
                    match feed_layers(layers, p.as_slice()) {
                        Ok(()) => (),
                        Err(e) => return Err(e),
                    }
                    proof {
                        if steady {
                            lemma_feed_steady(views, p@);
                        }
                        assert(s.may_sign(i as int, outcome));
                        let more = outcomes.push(outcome);
                        lemma_emitted_prefix(base, s, outcomes, more, j as int);
                        assert(more[j as int] == outcome);
                        assert(s.signers.len() - (j + 1) == i);
                        assert(layer_views(layers@) == emitted(base, s, more, j + 1));
                        assert forall|k: int| 0 <= k < j + 1 implies s.may_sign(
                            n - 1 - k,
                            #[trigger] more[k],
                        ) by {
                            if k < j {
                                assert(more[k] == outcomes[k]);
                            }
                        }
                        outcomes = more;
                    }
                },
                Err(e) => {
                    proof {
                        let time = choose|time: int|
                            #[trigger] now.may_refuse(i as int, time, e@);
                        assert(s.may_refuse(i as int, time, e@));
                    }
                    return Err(e);
                },
            }
            j = j + 1;
        }
        proof {
            assert(s.may_emit(outcomes));
        }
        Ok(())
    }
}

/// Writes the packet that detects modifications, given its digest, and strips
/// the encryption and its framing.
#[verifier::rlimit(40)]
pub fn write_mdc(digest: &[u8], layers: &mut Vec<Layer>) -> (r: Result<()>)
    requires
        layers_wf(old(layers)@),
        old(layers)@.len() >= 2,
    ensures
        all_plain(layer_views(old(layers)@)) ==> r is Ok,
        match r {
            Ok(_) => ({
                let packet = seq![Tag::MDC.spec_ctb(), 20u8] + digest@;
                &&& layers_wf(final(layers)@)
                &&& layer_views(final(layers)@) == peel(
                    peel(feed(layer_views(old(layers)@), packet)),
                )
                &&& layer_views(old(layers)@).last().filter matches FilterView::Cfb(c) ==> c.push(
                    packet,
                ).opens()
            }),
            Err(e) => !all_plain(layer_views(old(layers)@)) && write_error(e@),
        },
{
    let mut mdc: Vec<u8> = Vec::new();
    mdc.push(Tag::MDC.ctb());
    mdc.push(20);
    extend(&mut mdc, digest);
    let ghost ls = layer_views(layers@);
    let ghost fed = feed(ls, mdc@);
    assert(mdc@ =~= seq![Tag::MDC.spec_ctb(), 20u8] + digest@);
    proof {
        lemma_feed_step(ls.drop_last(), ls.last(), mdc@);
        assert(ls.drop_last().push(ls.last()) =~= ls);
        lemma_feed_shape(ls, mdc@);
        lemma_feed_shape(fed.drop_last(), fed.last().rest());
        if all_plain(ls) {
            lemma_plain_is_steady(ls);
            lemma_feed_plain(ls, mdc@);
            lemma_peel_plain(fed);
            lemma_plain_lower(fed);
            lemma_plain_is_steady(fed.drop_last());
            lemma_plain_lower(peel(fed));
            lemma_plain_is_steady(peel(fed).drop_last());
        }
    }
    match feed_layers(layers, mdc.as_slice()) {
        Ok(()) => (),
        Err(e) => return Err(e),
    }
    match peel_layers(layers) {
        Ok(()) => (),
        Err(e) => return Err(e),
    }
    peel_layers(layers)
}

/// Writes the packet that detects modifications, and strips the encryption
/// and its framing.
///
/// If it fails, the cryptographic library has refused to hash, or a writer
/// below has failed.
#[verifier::rlimit(40)]
pub fn emit_mdc(hash: Context, layers: &mut Vec<Layer>) -> (r: Result<()>)
    requires
        hash.wf(),
        hash@.algo == HashAlgorithm::SHA1,
        layers_wf(old(layers)@),
        old(layers)@.len() >= 2,
    ensures
        match r {
            Ok(_) => {
                &&& layers_wf(final(layers)@)
                &&& layer_views(final(layers)@) == peel(
                    peel(feed(layer_views(old(layers)@), mdc_packet(hash@.data))),
                )
                &&& layer_views(old(layers)@).last().filter matches FilterView::Cfb(c) ==> c.push(
                    mdc_packet(hash@.data),
                ).opens()
                &&& mdc_packet(hash@.data).len() == MDC_LEN
            },
            Err(e) => e@ == ErrorView::Backend || !all_plain(layer_views(old(layers)@))
                && write_error(e@),
        },
{
    // The hash includes the packet's first octet and its length octet.
    let mut header: Vec<u8> = Vec::new();
    header.push(Tag::MDC.ctb());
    header.push(20);
    assert(header@ =~= seq![Tag::MDC.spec_ctb(), 20u8]);
    let mut h = hash;
    match h.update(header.as_slice()) {
        Ok(()) => (),
        Err(e) => return Err(e),
    }
    match h.finish() {
        Ok(digest) => write_mdc(digest.as_slice(), layers),
        Err(e) => Err(e),
    }
}

impl Message {
    /// The stack is in order.
    pub closed spec fn wf(&self) -> bool {
        layers_wf(self.layers@) && structured(self@)
    }

    /// Starts streaming an OpenPGP message.
    ///
    /// What the message consists of is appended to `sink`.
    pub fn new(sink: Vec<u8>) -> (r: Message)
        ensures
            r.wf(),
            r@ == seq![
                LayerView {
                    cookie: Cookie { level: 0, private: Private::Nothing },
                    filter: FilterView::Sink(sink@),
                },
            ],
            all_plain(r@),
    {
        let mut layers: Vec<Layer> = Vec::new();
        layers.push(Layer { cookie: Cookie::new(0), filter: Filter::Sink(sink) });
        let r = Message { layers };
        assert(r@ =~= seq![
            LayerView {
                cookie: Cookie { level: 0, private: Private::Nothing },
                filter: FilterView::Sink(sink@),
            },
        ]);
        assert(fits(r@, 0));
        r
    }

    /// Writes data to the topmost writer.
    ///
    /// After an error the message must not be used any more.
    pub fn write_all(&mut self, data: &[u8]) -> (r: Result<()>)
        requires
            old(self).wf(),
        ensures
            all_steady(old(self)@) ==> r is Ok && all_steady(final(self)@),
            all_plain(old(self)@) ==> r is Ok && all_plain(final(self)@),
            takes(old(self)@, data@) ==> r is Ok,
            data@.len() == 0 ==> r is Ok && final(self)@ == old(self)@,
            exceeds(old(self)@, data@) ==> r is Err,
            r matches Err(e) ==> e@ is TooLarge ==> exceeds(old(self)@, data@),
            match r {
                Ok(_) => final(self).wf() && final(self)@ == feed(old(self)@, data@),
                Err(e) => write_error(e@) && write_failed(old(self)@, final(self)@, data@),
            },
    {
        proof {
            lemma_feed_structured(self@, data@);
            if data@.len() == 0 {
                lemma_feed_nothing(self@, data@);
            }
            if all_plain(self@) {
                lemma_plain_is_steady(self@);
            }
        }
        feed_layers(&mut self.layers, data)
    }

    /// Takes out of the sink what has arrived there.
    pub fn drain(&mut self) -> (r: Vec<u8>)
        requires
            old(self).wf(),
        ensures
            final(self).wf(),
            old(self)@[0].filter == FilterView::Sink(r@),
            final(self)@ == old(self)@.update(
                0,
                LayerView { filter: FilterView::Sink(Seq::empty()), ..old(self)@[0] },
            ),
    {
        let ghost ls = self.layers@;
        let ghost was = self@;
        assert(was[0] == ls[0]@);
        let mut out: Vec<u8> = Vec::new();
        match &mut self.layers[0].filter {
            Filter::Sink(b) => {
                std::mem::swap(b, &mut out);
            },
            _ => (),
        }
        proof {
            let now = self@;
            assert forall|j: int| 0 <= j < self.layers@.len() implies (
            #[trigger] self.layers@[j]).filter.wf() by {
                if j != 0 {
                    assert(self.layers@[j] == ls[j]);
                }
            }
            assert(self.layers@[0]@ =~= LayerView {
                filter: FilterView::Sink(Seq::empty()),
                ..was[0]
            });
            assert(now =~= was.update(
                0,
                LayerView { filter: FilterView::Sink(Seq::empty()), ..was[0] },
            ));
            assert forall|i: int| 0 <= i < was.len() implies (#[trigger] now[i]).filter.same(
                was[i].filter,
            ) && now[i].cookie == was[i].cookie by {
                lemma_same_reflexive(was[i].filter);
            }
            lemma_same_shape(was, now);
        }
        out
    }

    /// Finalizes the topmost writer, returning the underlying writer.
    ///
    /// Finalizes the topmost writer, i.e. flushes any buffered data, and
    /// pops it off the stack.  This allows for fine-grained control of the
    /// resulting message, but must be done with great care.  If done
    /// improperly, the resulting message may be malformed.
    #[verifier::rlimit(40)]
    pub fn finalize_one(self) -> (r: Result<Finalized>)
        requires
            self.wf(),
        ensures
            finalizes_well(self@) ==> r is Ok,
            all_plain(self@) ==> r is Ok,
            all_steady(self@.drop_last()) && (self@.last().filter is Literal || (
            self@.last().filter.steady() && self@.last().filter.ends_well())) && !(
            self@.last().filter is Compressor) ==> r is Ok,
            match r {
                Ok(Finalized::Sink(sink)) => ended(self@, sink@),
                Ok(Finalized::Inner(m)) => {
                    &&& m.wf()
                    &&& m@.len() < self@.len()
                    &&& finalized(self@, m@)
                    &&& all_plain(self@) ==> all_plain(m@)
                },
                Err(e) => finalizing_fails(self@, e@),
            },
        decreases self@.len(),
    {
        let ghost all = self.layers@;
        let ghost ls = self@;
        let ghost n = ls.len() as int;
        proof {
            assert(ls[n - 1] == all[n - 1]@);
            assert(fits(ls, n - 1));
            assert(all[n - 1].filter.wf());
            if n >= 2 {
                lemma_drop_structured(ls);
                if !(ls.last().filter is Signer) && !(ls.last().filter is Compressor) {
                    lemma_unstack_structured(ls);
                }
                if all_plain(ls) {
                    lemma_plain_finalizes(ls);
                }
                if all_steady(ls.drop_last()) && (ls.last().filter is Literal || (
                ls.last().filter.steady() && ls.last().filter.ends_well())) && !(ls.last().filter
                    is Compressor) {
                    lemma_steady_finalizes(ls);
                }
            }
        }
        let mut layers = self.layers;
        let top = match layers.pop() {
            Some(top) => top,
            None => return Ok(Finalized::Sink(Vec::new())),
        };
        let ghost below = ls.drop_last();
        proof {
            assert(layer_views(layers@) =~= below);
            assert forall|j: int| 0 <= j < layers@.len() implies (
            #[trigger] layers@[j]).filter.wf() by {
                assert(layers@[j] == all[j]);
            }
            if all_plain(ls) {
                assert(ls[n - 1].filter.plain());
            }
        }
        let cookie = top.cookie;
        let done = match top.filter {
            Filter::Sink(sink) => return Ok(Finalized::Sink(sink)),
            Filter::Arbitrary => peel_layers(&mut layers),
            Filter::Literal(stash) => {
                let peeled = peel_layers(&mut layers);
                let ghost fed = layers@;
                match (peeled, stash) {
                    (Ok(()), Some((c, s))) => {
                        layers.push(Layer { cookie: c, filter: Filter::Signer(s) });
                        proof {
                            assert(layer_views(layers@) =~= unstack(ls));
                            assert forall|j: int| 0 <= j < layers@.len() implies (
                            #[trigger] layers@[j]).filter.wf() by {
                                if j < fed.len() {
                                    assert(layers@[j] == fed[j]);
                                }
                            }
                        }
                        Ok(())
                    },
                    (peeled, _) => peeled,
                }
            },
            Filter::Compressor => {
                proof {
                    lemma_peel_structured(below);
                }
                match peel_layers(&mut layers) {
                    Ok(()) => return Message { layers }.finalize_one(),
                    Err(e) => Err(e),
                }
            },
            Filter::Encryptor(hash) => emit_mdc(hash, &mut layers),
            Filter::Signer(signing) => {
                let mut signing = signing;
                let ghost s = signing@;
                let r = signing.emit_signatures(&mut layers);
                proof {
                    if r is Ok {
                        let outcomes = choose|outcomes: Seq<Outcome>|
                            s.may_emit(outcomes) && layer_views(layers@) == #[trigger] emitted(
                                signature_base(below, s.mode),
                                s,
                                outcomes,
                                s.signers.len() as int,
                            );
                        lemma_signature_base_structured(ls);
                        lemma_emitted_structured(
                            signature_base(below, s.mode),
                            s,
                            outcomes,
                            s.signers.len() as int,
                        );
                    }
                }
                r
            },
            filter => {
                let layer = Layer { cookie, filter };
                assert(layer@ == ls.last());
                match layer.finish() {
                    Ok(rest) => feed_layers(&mut layers, rest.as_slice()),
                    Err(e) => Err(e),
                }
            },
        };
        match done {
            Ok(()) => Ok(Finalized::Inner(Message { layers })),
            Err(e) => Err(e),
        }
    }

    /// Finalizes the message, returning what has arrived in the sink.
    ///
    /// Finalizes all writers on the stack, flushing any buffered data.
    #[verifier::rlimit(40)]
    pub fn finalize(self) -> (r: Result<Vec<u8>>)
        requires
            self.wf(),
        ensures
            finalizes_throughout(self@) ==> r is Ok,
            all_plain(self@) ==> r is Ok,
            self@.len() == 1 ==> r is Ok,
            match r {
                Ok(sink) => finalizes_to(self@, sink@),
                Err(e) => finalize_fails(self@, e@),
            },
        decreases self@.len(),
    {
        match self.finalize_one() {
            Ok(Finalized::Sink(sink)) => Ok(sink),
            Ok(Finalized::Inner(m)) => {
                proof {
                    if finalizes_well(self@) {
                        lemma_stepped(self@, m@);
                    }
                }
                m.finalize()
            },
            Err(e) => Err(e),
        }
    }
}

/// A writer on writers that take in any data is finalized without fail if it
/// ends well and makes no signatures.
proof fn lemma_steady_finalizes(ls: Seq<LayerView>)
    requires
        structured(ls),
        ls.len() >= 2,
        all_steady(ls.drop_last()),
        ls.last().filter is Literal || ls.last().filter.steady() && ls.last().filter.ends_well(),
        !(ls.last().filter is Compressor),
    ensures
        finalizes_well(ls),
{
    let below = ls.drop_last();
    assert(fits(ls, ls.len() - 1));
    lemma_plain_lower(below);
    lemma_steady_takes(below, ls.last().rest());
    lemma_steady_takes(below.drop_last(), below.last().rest());
}

/// On a stack on which nothing can fail, the topmost writer is finalized
/// without fail.
proof fn lemma_plain_finalizes(ls: Seq<LayerView>)
    requires
        structured(ls),
        all_plain(ls),
    ensures
        finalizes_well(ls),
    decreases ls.len(),
{
    if ls.len() > 1 {
        let below = ls.drop_last();
        assert(fits(ls, ls.len() - 1));
        lemma_plain_lower(ls);
        lemma_plain_is_steady(below);
        if ls.last().filter is Compressor {
            lemma_plain_lower(below);
            lemma_plain_is_steady(below.drop_last());
            lemma_steady_takes(below.drop_last(), below.last().rest());
            lemma_drop_structured(ls);
            lemma_peel_structured(below);
            lemma_plain_finalizes(peel(below));
        } else {
            lemma_steady_finalizes(ls);
        }
    }
}

/// What is left once a writer is finalized that no signer decides about.
proof fn lemma_stepped(ls: Seq<LayerView>, next: Seq<LayerView>)
    requires
        finalizes_well(ls),
        finalized(ls, next),
    ensures
        next == stepped(ls),
    decreases ls.len(),
{
    match ls.last().filter {
        FilterView::Signer(s) => {
            let outcomes = choose|outcomes: Seq<Outcome>|
                s.may_emit(outcomes) && next == #[trigger] emitted(
                    signature_base(ls.drop_last(), s.mode),
                    s,
                    outcomes,
                    s.signers.len() as int,
                );
        },
        FilterView::Compressor => lemma_stepped(peel(ls.drop_last()), next),
        _ => {},
    }
}

proof fn lemma_same_reflexive(f: FilterView)
    ensures
        f.same(f),
{
}

/// Setting the profile keeps the shape of a stack.
proof fn lemma_with_profile_shape(ls: Seq<LayerView>, profile: Profile)
    ensures
        with_profile(ls, profile).len() == ls.len(),
        forall|i: int|
            0 <= i < ls.len() ==> {
                let l = #[trigger] with_profile(ls, profile)[i];
                &&& l.filter == ls[i].filter
                &&& l.cookie.level == ls[i].cookie.level
                &&& (l.cookie.private is Signer) == (ls[i].cookie.private is Signer)
            },
    decreases ls.len(),
{
    if ls.len() > 0 {
        let top = ls.last();
        let lower = ls.drop_last();
        match top.cookie.private {
            Private::Armorer { .. } => {},
            Private::Encryptor { profile: p } => lemma_with_profile_shape(lower, p),
            _ => lemma_with_profile_shape(lower, profile),
        }
    }
}

/// Setting the profile keeps the number of writers.
pub proof fn lemma_profile_len(ls: Seq<LayerView>, profile: Profile)
    ensures
        with_profile(ls, profile).len() == ls.len(),
{
    lemma_with_profile_shape(ls, profile);
}

/// Setting the profile keeps a stack structured.
pub proof fn lemma_with_profile_structured(ls: Seq<LayerView>, profile: Profile)
    requires
        structured(ls),
    ensures
        structured(with_profile(ls, profile)),
        with_profile(ls, profile).len() == ls.len(),
        all_plain(ls) ==> all_plain(with_profile(ls, profile)),
        all_steady(ls) ==> all_steady(with_profile(ls, profile)),
{
    lemma_with_profile_shape(ls, profile);
    assert forall|i: int| 0 <= i < ls.len() implies (#[trigger] with_profile(
        ls,
        profile,
    )[i]).filter.same(ls[i].filter) by {
        lemma_same_reflexive(ls[i].filter);
    }
    lemma_same_shape(ls, with_profile(ls, profile));
}

impl Message {
    /// A stack that is in order is structured.
    pub proof fn lemma_structured(&self)
        requires
            self.wf(),
        ensures
            structured(self@),
            self@.len() >= 1,
    {
    }

    /// Returns the cookie of the topmost writer.
    pub fn cookie(&self) -> (r: Cookie)
        requires
            self.wf(),
        ensures
            r == self@.last().cookie,
            self@.len() >= 1,
            structured(self@),
    {
        proof {
            let n = self@.len() as int;
            assert(fits(self@, n - 1));
        }
        self.layers[self.layers.len() - 1].cookie
    }

    /// Puts a writer on the stack.
    pub(crate) fn mount(&mut self, layer: Layer)
        requires
            old(self).wf(),
            layer.filter.wf(),
            fits(old(self)@.push(layer@), old(self)@.len() as int),
        ensures
            final(self).wf(),
            final(self)@ == old(self)@.push(layer@),
            all_plain(old(self)@) && layer@.filter.plain() ==> all_plain(final(self)@),
            all_steady(old(self)@) && layer@.filter.steady() ==> all_steady(final(self)@),
    {
        let ghost ls = self.layers@;
        let ghost was = self@;
        proof {
            lemma_push_structured(was, layer@);
        }
        self.layers.push(layer);
        proof {
            assert(self@ =~= was.push(layer@));
            assert forall|j: int| 0 <= j < self.layers@.len() implies (
            #[trigger] self.layers@[j]).filter.wf() by {
                if j < ls.len() {
                    assert(self.layers@[j] == ls[j]);
                }
            }
        }
    }

    /// Takes the topmost writer off the stack if it is a signer.
    pub(crate) fn pop_signer(&mut self) -> (r: Option<(Cookie, Signing)>)
        requires
            old(self).wf(),
        ensures
            final(self).wf(),
            match r {
                Some((c, s)) => {
                    &&& s.wf()
                    &&& s@.ready()
                    &&& old(self)@.len() >= 2
                    &&& old(self)@.last() == (LayerView {
                        cookie: c,
                        filter: FilterView::Signer(s@),
                    })
                    &&& final(self)@ == old(self)@.drop_last()
                    &&& c.private is Signer
                    &&& s.mode is Cleartext ==> old(self)@.len() >= 3 && final(
                        self)@.last().filter is DashEscape
                },
                None => !(old(self)@.last().filter is Signer) && final(self)@ == old(self)@,
            },
    {
        let ghost ls = self.layers@;
        let ghost was = self@;
        let ghost n = was.len() as int;
        proof {
            assert(was[n - 1] == ls[n - 1]@);
            assert(fits(was, n - 1));
            assert(ls[n - 1].filter.wf());
        }
        match self.cookie().private {
            Private::Signer => (),
            _ => return None,
        }
        proof {
            lemma_drop_structured(was);
        }
        match self.layers.pop() {
            Some(top) => {
                proof {
                    assert(self@ =~= was.drop_last());
                    assert forall|j: int| 0 <= j < self.layers@.len() implies (
                    #[trigger] self.layers@[j]).filter.wf() by {
                        assert(self.layers@[j] == ls[j]);
                    }
                }
                match top.filter {
                    Filter::Signer(s) => Some((top.cookie, s)),
                    _ => None,
                }
            },
            None => None,
        }
    }

    /// Sets the profile of the armor below, if there is one.
    #[verifier::rlimit(40)]
    pub(crate) fn set_profile(&mut self, profile: Profile)
        requires
            old(self).wf(),
        ensures
            final(self).wf(),
            final(self)@ == with_profile(old(self)@, profile),
            all_steady(old(self)@) ==> all_steady(final(self)@),
    {
        let ghost before = self@;
        let ghost target = with_profile(before, profile);
        let ghost was = self.layers@;
        let mut current: Profile = profile;
        let mut i: usize = self.layers.len();
        proof {
            lemma_with_profile_structured(before, profile);
            assert(before.take(i as int) =~= before);
            assert(target + before.skip(i as int) =~= target);
        }
        while i > 0
            invariant
                i <= self.layers@.len(),
                self.layers@ == was,
                before == layer_views(was),
                layers_wf(was),
                structured(target),
                all_steady(old(self)@) ==> all_steady(target),
                target == with_profile(old(self)@, profile),
                with_profile(before.take(i as int), current) + before.skip(i as int) == target,
            decreases i,
        {
            let k: usize = i - 1;
            proof {
                assert(before.take(i as int).drop_last() =~= before.take(k as int));
                assert(before.take(i as int).last() == before[k as int]);
                assert(before[k as int] == was[k as int]@);
                assert(seq![before[k as int]] + before.skip(i as int) =~= before.skip(k as int));
            }
            let c = self.layers[k].cookie;
            match c.private {
                Private::Armorer { .. } => {
                    self.layers[k].cookie = Cookie {
                        level: c.level,
                        private: Private::Armorer { set_profile: Some(current) },
                    };
                    proof {
                        assert(self.layers@[k as int].filter == was[k as int].filter);
                        assert forall|j: int| 0 <= j < self.layers@.len() implies (
                        #[trigger] self.layers@[j]).filter.wf() by {
                            if j != k {
                                assert(self.layers@[j] == was[j]);
                            }
                        }
                        assert(self@ =~= target);
                    }
                    return ;
                },
                Private::Encryptor { profile: p } => {
                    proof {
                        let rest = with_profile(before.take(k as int), p);
                        assert(rest.push(before[k as int]) + before.skip(i as int) =~= rest
                            + before.skip(k as int));
                    }
                    current = p;
                },
                _ => {
                    proof {
                        let rest = with_profile(before.take(k as int), current);
                        assert(rest.push(before[k as int]) + before.skip(i as int) =~= rest
                            + before.skip(k as int));
                    }
                },
            }
            i = k;
        }
        proof {
            assert(before.take(0) =~= Seq::<LayerView>::empty());
            assert(before.skip(0) =~= before);
            assert(Seq::<LayerView>::empty() + before =~= before);
        }
    }
}

} // verus!
