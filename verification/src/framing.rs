//! Packet headers, and the framing of packet bodies.

use vstd::prelude::*;

use crate::bytes::{
    be32, copy_range, extend, from_be32, lemma_be32, lemma_concat_assoc, push_be32,
};
use crate::error::{Error, ErrorView, Result};

verus! {

/// Packet tags.
#[derive(Clone, Copy, Debug, PartialEq, Eq, Structural)]
pub enum Tag {
    PKESK,
    Signature,
    SKESK,
    OnePassSig,
    SecretKey,
    PublicKey,
    SecretSubkey,
    CompressedData,
    SED,
    Marker,
    Literal,
    Trust,
    UserID,
    PublicSubkey,
    UserAttribute,
    SEIP,
    MDC,
    Padding,
}

impl Tag {
    /// The number of the tag.
    pub open spec fn spec_number(self) -> u8 {
        match self {
            Tag::PKESK => 1,
            Tag::Signature => 2,
            Tag::SKESK => 3,
            Tag::OnePassSig => 4,
            Tag::SecretKey => 5,
            Tag::PublicKey => 6,
            Tag::SecretSubkey => 7,
            Tag::CompressedData => 8,
            Tag::SED => 9,
            Tag::Marker => 10,
            Tag::Literal => 11,
            Tag::Trust => 12,
            Tag::UserID => 13,
            Tag::PublicSubkey => 14,
            Tag::UserAttribute => 17,
            Tag::SEIP => 18,
            Tag::MDC => 19,
            Tag::Padding => 21,
        }
    }

    /// Returns the number of the tag.
    pub fn number(self) -> (r: u8)
        ensures
            r == self.spec_number(),
            r < 64,
    {
        match self {
            Tag::PKESK => 1,
            Tag::Signature => 2,
            Tag::SKESK => 3,
            Tag::OnePassSig => 4,
            Tag::SecretKey => 5,
            Tag::PublicKey => 6,
            Tag::SecretSubkey => 7,
            Tag::CompressedData => 8,
            Tag::SED => 9,
            Tag::Marker => 10,
            Tag::Literal => 11,
            Tag::Trust => 12,
            Tag::UserID => 13,
            Tag::PublicSubkey => 14,
            Tag::UserAttribute => 17,
            Tag::SEIP => 18,
            Tag::MDC => 19,
            Tag::Padding => 21,
        }
    }

    /// The octet that starts a packet with this tag.
    pub open spec fn spec_ctb(self) -> u8 {
        (0xC0 + self.spec_number()) as u8
    }

    /// Returns the octet that starts a packet with this tag.
    pub fn ctb(self) -> (r: u8)
        ensures
            r == self.spec_ctb(),
    {
        0xC0 + self.number()
    }
}

/// The octets that announce a body, or the last part of one, of `n` octets.
pub open spec fn full_length(n: int) -> Seq<u8> {
    if n < 192 {
        seq![n as u8]
    } else if n < 8384 {
        seq![((n - 192) / 256 + 192) as u8, ((n - 192) % 256) as u8]
    } else {
        seq![0xFFu8] + be32(n)
    }
}

/// A packet whose body is announced at once.
pub open spec fn packet(tag: Tag, body: Seq<u8>) -> Seq<u8> {
    seq![tag.spec_ctb()] + full_length(body.len() as int) + body
}

/// Announces a body, or the last part of one, of `n` octets.
pub fn push_full_length(out: &mut Vec<u8>, n: u32)
    ensures
        final(out)@ == old(out)@ + full_length(n as int),
{
    if n < 192 {
        out.push(n as u8);
    } else if n < 8384 {
        out.push(((n - 192) / 256 + 192) as u8);
        out.push(((n - 192) % 256) as u8);
    } else {
        out.push(0xFF);
        push_be32(out, n);
    }
    assert(out@ =~= old(out)@ + full_length(n as int));
}

/// Makes a packet out of its body.
pub fn make_packet(tag: Tag, body: &[u8]) -> (r: Result<Vec<u8>>)
    ensures
        match r {
            Ok(p) => body@.len() <= u32::MAX && p@ == packet(tag, body@),
            Err(e) => body@.len() > u32::MAX && e@ == ErrorView::TooLarge,
        },
{
    if body.len() > 0xFFFF_FFFF {
        return Err(Error::TooLarge);
    }
    let mut out: Vec<u8> = Vec::new();
    out.push(tag.ctb());
    push_full_length(&mut out, body.len() as u32);
    extend(&mut out, body);
    assert(out@ =~= packet(tag, body@));
    Ok(out)
}

/// A body is held back until it is longer than this.
pub const BUFFER_THRESHOLD: usize = 0x40_0000;

/// The exponent of the largest power of two, but not more than 2^30, that
/// is not larger than `n`.
pub open spec fn chunk_log2(n: int) -> int {
    if n >= 0x4000_0000 {
        30
    } else if n >= 0x2000_0000 {
        29
    } else if n >= 0x1000_0000 {
        28
    } else if n >= 0x800_0000 {
        27
    } else if n >= 0x400_0000 {
        26
    } else if n >= 0x200_0000 {
        25
    } else if n >= 0x100_0000 {
        24
    } else if n >= 0x80_0000 {
        23
    } else {
        22
    }
}

/// Two to the power of `k`, for the exponents of [`chunk_log2`].
pub open spec fn chunk_size(k: int) -> int {
    if k == 30 {
        0x4000_0000
    } else if k == 29 {
        0x2000_0000
    } else if k == 28 {
        0x1000_0000
    } else if k == 27 {
        0x800_0000
    } else if k == 26 {
        0x400_0000
    } else if k == 25 {
        0x200_0000
    } else if k == 24 {
        0x100_0000
    } else if k == 23 {
        0x80_0000
    } else {
        0x40_0000
    }
}

/// What is sent of the pending part of a body: partial chunks, as long as
/// more than the threshold is pending.
pub open spec fn chunks_out(pending: Seq<u8>) -> Seq<u8>
    decreases pending.len(),
{
    if pending.len() <= BUFFER_THRESHOLD {
        Seq::empty()
    } else {
        let k = chunk_log2(pending.len() as int);
        seq![(224 + k) as u8] + pending.take(chunk_size(k)) + chunks_out(
            pending.skip(chunk_size(k)),
        )
    }
}

/// What is held back of the pending part of a body.
pub open spec fn chunks_rest(pending: Seq<u8>) -> Seq<u8>
    decreases pending.len(),
{
    if pending.len() <= BUFFER_THRESHOLD {
        pending
    } else {
        chunks_rest(pending.skip(chunk_size(chunk_log2(pending.len() as int))))
    }
}

/// Frames a packet body of which the length is not known in advance.
pub struct PartialBodyFilter {
    buffer: Vec<u8>,
}

impl View for PartialBodyFilter {
    type V = Seq<u8>;

    /// What is held back.
    closed spec fn view(&self) -> Seq<u8> {
        self.buffer@
    }
}

fn log2(n: usize) -> (r: (u8, usize))
    requires
        n > BUFFER_THRESHOLD,
    ensures
        r.0 == chunk_log2(n as int),
        r.1 == chunk_size(r.0 as int),
        r.1 <= n,
        22 <= r.0 <= 30,
{
    if n >= 0x4000_0000 {
        (30, 0x4000_0000)
    } else if n >= 0x2000_0000 {
        (29, 0x2000_0000)
    } else if n >= 0x1000_0000 {
        (28, 0x1000_0000)
    } else if n >= 0x800_0000 {
        (27, 0x800_0000)
    } else if n >= 0x400_0000 {
        (26, 0x400_0000)
    } else if n >= 0x200_0000 {
        (25, 0x200_0000)
    } else if n >= 0x100_0000 {
        (24, 0x100_0000)
    } else if n >= 0x80_0000 {
        (23, 0x80_0000)
    } else {
        (22, 0x40_0000)
    }
}

impl PartialBodyFilter {
    /// Starts a body.
    pub fn new() -> (r: PartialBodyFilter)
        ensures
            r@ == Seq::<u8>::empty(),
    {
        PartialBodyFilter { buffer: Vec::new() }
    }

    /// Continues the body, and returns what is to be sent now.
    #[verifier::rlimit(40)]
    pub fn push(&mut self, data: &[u8]) -> (out: Vec<u8>)
        ensures
            out@ == chunks_out(old(self)@ + data@),
            final(self)@ == chunks_rest(old(self)@ + data@),
    {
        extend(&mut self.buffer, data);
        let mut out: Vec<u8> = Vec::new();
        if self.buffer.len() <= BUFFER_THRESHOLD {
            return out;
        }
        let ghost pending = self.buffer@;
        let mut sent: usize = 0;
        proof {
            assert(pending.skip(0) =~= pending);
            assert(out@ + chunks_out(pending) =~= chunks_out(pending));
        }
        while self.buffer.len() - sent > BUFFER_THRESHOLD
            invariant
                sent <= self.buffer@.len(),
                self.buffer@ == pending,
                out@ + chunks_out(pending.skip(sent as int)) == chunks_out(pending),
                chunks_rest(pending.skip(sent as int)) == chunks_rest(pending),
            decreases self.buffer@.len() - sent,
        {
            let (k, size): (u8, usize) = log2(self.buffer.len() - sent);
            let ghost left = pending.skip(sent as int);
            let ghost before = out@;
            let chunk = copy_range(self.buffer.as_slice(), sent, sent + size);
            out.push(224 + k);
            extend(&mut out, chunk.as_slice());
            proof {
                assert(left.take(size as int) =~= pending.subrange(sent as int, sent + size));
                assert(left.skip(size as int) =~= pending.skip(sent + size));
                assert(out@ + chunks_out(left.skip(size as int)) =~= before + (seq![
                    (224 + k) as u8,
                ] + left.take(size as int) + chunks_out(left.skip(size as int))));
            }
            sent = sent + size;
        }
        let rest = copy_range(self.buffer.as_slice(), sent, self.buffer.len());
        proof {
            assert(rest@ =~= pending.skip(sent as int));
            assert(out@ =~= out@ + chunks_out(pending.skip(sent as int)));
        }
        self.buffer = rest;
        out
    }

    /// Ends the body, and returns what is still to be sent.
    pub fn finish(self) -> (out: Vec<u8>)
        requires
            self@.len() <= BUFFER_THRESHOLD,
        ensures
            out@ == full_length(self@.len() as int) + self@,
    {
        let mut out: Vec<u8> = Vec::new();
        push_full_length(&mut out, self.buffer.len() as u32);
        extend(&mut out, self.buffer.as_slice());
        assert(out@ =~= full_length(self@.len() as int) + self@);
        out
    }
}

/// No more than the threshold is ever held back.
pub proof fn lemma_chunks_rest_bounded(pending: Seq<u8>)
    ensures
        chunks_rest(pending).len() <= BUFFER_THRESHOLD,
    decreases pending.len(),
{
    if pending.len() > BUFFER_THRESHOLD {
        lemma_chunks_rest_bounded(pending.skip(chunk_size(chunk_log2(pending.len() as int))));
    }
}

/// The body of a packet, read out of what follows the first octet of the
/// packet, or `None` if that is not exactly a body.
pub open spec fn unframe(s: Seq<u8>) -> Option<Seq<u8>>
    decreases s.len(),
{
    if s.len() == 0 {
        None
    } else if s[0] < 192 {
        if s.len() == 1 + s[0] {
            Some(s.skip(1))
        } else {
            None
        }
    } else if s[0] < 224 {
        if s.len() >= 2 && s.len() == 2 + (s[0] - 192) * 256 + s[1] + 192 {
            Some(s.skip(2))
        } else {
            None
        }
    } else if s[0] == 255 {
        if s.len() >= 5 && s.len() == 5 + from_be32(s.subrange(1, 5)) {
            Some(s.skip(5))
        } else {
            None
        }
    } else {
        let n = chunk_size(s[0] - 224);
        if 246 <= s[0] && s.len() >= 1 + n {
            match unframe(s.skip(1 + n)) {
                Some(more) => Some(s.subrange(1, 1 + n) + more),
                None => None,
            }
        } else {
            None
        }
    }
}

/// A body that is announced at once is read back as it is.
pub proof fn lemma_unframe_full(body: Seq<u8>)
    requires
        body.len() <= u32::MAX,
    ensures
        unframe(full_length(body.len() as int) + body) == Some(body),
{
    let n = body.len() as int;
    let s = full_length(n) + body;
    if n < 192 {
        assert(s.skip(1) =~= body);
    } else if n < 8384 {
        assert(s.skip(2) =~= body);
    } else {
        lemma_be32(n);
        assert(s.subrange(1, 5) =~= be32(n));
        assert(s.skip(5) =~= body);
    }
}

/// What is read out of the sent chunks is what was pending and is not held
/// back, and what is read out of the rest follows it.
proof fn lemma_unframe_chunks(pending: Seq<u8>, tail: Seq<u8>) -> (sent: Seq<u8>)
    ensures
        pending == sent + chunks_rest(pending),
        unframe(chunks_out(pending) + tail) == match unframe(tail) {
            Some(rest) => Some(sent + rest),
            None => None,
        },
    decreases pending.len(),
{
    if pending.len() <= BUFFER_THRESHOLD {
        let sent = Seq::<u8>::empty();
        assert(chunks_out(pending) + tail =~= tail);
        assert(pending =~= sent + chunks_rest(pending));
        if let Some(rest) = unframe(tail) {
            assert(sent + rest =~= rest);
        }
        sent
    } else {
        let k = chunk_log2(pending.len() as int);
        let n = chunk_size(k);
        let left = pending.skip(n);
        let more = lemma_unframe_chunks(left, tail);
        let sent = pending.take(n) + more;
        let s = chunks_out(pending) + tail;
        assert(s[0] == (224 + k) as u8);
        assert(s.subrange(1, 1 + n) =~= pending.take(n));
        assert(s.skip(1 + n) =~= chunks_out(left) + tail);
        assert(chunks_rest(pending) == chunks_rest(left));
        lemma_concat_assoc(pending.take(n), more, chunks_rest(left));
        assert(pending =~= pending.take(n) + left);
        if let Some(rest) = unframe(tail) {
            assert(pending.take(n) + (more + rest) =~= sent + rest);
        }
        sent
    }
}

/// What a body is framed as: the pieces `writes` are written one after the
/// other while `held` is held back, and then the body ends.
pub open spec fn framed(held: Seq<u8>, writes: Seq<Seq<u8>>) -> Seq<u8>
    decreases writes.len(),
{
    if writes.len() == 0 {
        full_length(held.len() as int) + held
    } else {
        chunks_out(held + writes[0]) + framed(chunks_rest(held + writes[0]), writes.skip(1))
    }
}

/// All of the pieces, one after the other.
pub open spec fn joined(writes: Seq<Seq<u8>>) -> Seq<u8>
    decreases writes.len(),
{
    if writes.len() == 0 {
        Seq::empty()
    } else {
        writes[0] + joined(writes.skip(1))
    }
}

/// However a body is cut into writes, what is read out of its framing is
/// what was written.
pub proof fn law_framing_keeps_content(held: Seq<u8>, writes: Seq<Seq<u8>>)
    requires
        held.len() <= BUFFER_THRESHOLD,
    ensures
        unframe(framed(held, writes)) == Some(held + joined(writes)),
    decreases writes.len(),
{
    if writes.len() == 0 {
        lemma_unframe_full(held);
        assert(held + joined(writes) =~= held);
    } else {
        let pending = held + writes[0];
        let rest = chunks_rest(pending);
        lemma_chunks_rest_bounded(pending);
        law_framing_keeps_content(rest, writes.skip(1));
        let sent = lemma_unframe_chunks(pending, framed(rest, writes.skip(1)));
        lemma_concat_assoc(held, writes[0], joined(writes.skip(1)));
        lemma_concat_assoc(sent, rest, joined(writes.skip(1)));
    }
}

/// The same octets but for the last one.
pub open spec fn with_last(s: Seq<u8>, octet: u8) -> Seq<u8> {
    s.update(s.len() - 1, octet)
}

/// If the last octet of a framed body is changed, then what is read out of the
/// framing is what was written with its last octet changed, or nothing can be
/// read at all.
pub proof fn law_framing_of_a_changed_octet(held: Seq<u8>, writes: Seq<Seq<u8>>, octet: u8)
    requires
        held.len() <= BUFFER_THRESHOLD,
    ensures
        ({
            let s = framed(held, writes);
            let body = held + joined(writes);
            &&& s.len() > 0
            &&& octet != s.last() ==> (unframe(with_last(s, octet)) matches Some(other)
                ==> body.len() > 0 && octet != body.last() && other == with_last(body, octet))
        }),
    decreases writes.len(),
{
    let s = framed(held, writes);
    let body = held + joined(writes);
    if writes.len() == 0 {
        assert(body =~= held);
        if held.len() > 0 {
            let other = with_last(held, octet);
            lemma_unframe_full(other);
            assert(with_last(s, octet) =~= full_length(other.len() as int) + other);
        } else {
            assert(s =~= seq![0u8]);
            assert(with_last(s, octet) =~= seq![octet]);
        }
    } else {
        let pending = held + writes[0];
        let rest = chunks_rest(pending);
        let tail = framed(rest, writes.skip(1));
        let end = rest + joined(writes.skip(1));
        lemma_chunks_rest_bounded(pending);
        law_framing_of_a_changed_octet(rest, writes.skip(1), octet);
        let sent = lemma_unframe_chunks(pending, with_last(tail, octet));
        assert(with_last(s, octet) =~= chunks_out(pending) + with_last(tail, octet));
        lemma_concat_assoc(held, writes[0], joined(writes.skip(1)));
        lemma_concat_assoc(sent, rest, joined(writes.skip(1)));
        assert(body == sent + end);
        if end.len() > 0 {
            assert(with_last(body, octet) =~= sent + with_last(end, octet));
        }
    }
}

} // verus!
