//! Compression.

use vstd::prelude::*;

use crate::backend::{
    answer_view, bzipped, bzipper_call, bzipper_calls, bzipper_new, bzipper_setup, deflated,
    deflater_call, deflater_calls, deflater_new, deflater_setup, handed_in, inflated, put_out,
    unbzipped, Call,
};
use crate::bytes::{copy_range, extend, to_vec};
use crate::error::{Error, ErrorView, Result};
use crate::types::{CompressionAlgorithm, CompressionLevel};

verus! {

/// Data is handed to the compression library in pieces of at most this length.
pub const PIECE_SIZE: usize = 0x1_0000;

/// A compression filter: what it has handed to the compression library, and
/// whether that has refused something.  Nothing more comes out of it then, and
/// it cannot be finished.
#[verifier::ext_equal]
pub struct CompressionView {
    pub algo: CompressionAlgorithm,
    pub level: int,
    pub calls: Seq<Call>,
    pub broken: bool,
}

/// Whether there is a filter for the algorithm.
pub open spec fn is_supported(algo: CompressionAlgorithm) -> bool {
    algo is Uncompressed || algo is Zip || algo is Zlib || algo is BZip2
}

/// The level that the bzip2 algorithm is used with, which has no level that does
/// not compress.
pub open spec fn bzip_level(level: int) -> int {
    if level == 0 {
        1
    } else {
        level
    }
}

/// All that comes out of the compression library, if it takes in everything.
pub open spec fn compressed(
    algo: CompressionAlgorithm,
    level: int,
    calls: Seq<Call>,
) -> Option<Seq<u8>> {
    match algo {
        CompressionAlgorithm::Zip => deflated(false, level, calls),
        CompressionAlgorithm::Zlib => deflated(true, level, calls),
        CompressionAlgorithm::BZip2 => bzipped(bzip_level(level), calls),
        _ => Some(Seq::empty()),
    }
}

/// What decompressing gives.
pub open spec fn decompressed(algo: CompressionAlgorithm, data: Seq<u8>) -> Option<Seq<u8>> {
    match algo {
        CompressionAlgorithm::Zip => inflated(false, data),
        CompressionAlgorithm::Zlib => inflated(true, data),
        CompressionAlgorithm::BZip2 => unbzipped(data),
        _ => Some(data),
    }
}

impl CompressionView {
    /// A new filter.
    pub open spec fn start(algo: CompressionAlgorithm, level: int) -> CompressionView {
        CompressionView { algo, level, calls: Seq::empty(), broken: false }
    }

    /// What has come out so far.
    pub open spec fn sent(self) -> Seq<u8> {
        compressed(self.algo, self.level, self.calls)->0
    }

    /// What was put in.
    pub open spec fn content(self) -> Seq<u8> {
        handed_in(self.calls)
    }

    /// The filter after one more piece.
    pub open spec fn push_piece(self, piece: Seq<u8>) -> CompressionView {
        let calls = self.calls.push((piece, false));
        if self.broken {
            self
        } else if compressed(self.algo, self.level, calls) is Some {
            CompressionView { calls, ..self }
        } else {
            CompressionView { broken: true, ..self }
        }
    }

    /// The filter after some more data, piece by piece.
    pub open spec fn push_all(self, more: Seq<u8>) -> CompressionView
        decreases more.len(),
    {
        if more.len() == 0 {
            self
        } else if more.len() <= PIECE_SIZE {
            self.push_piece(more)
        } else {
            self.push_piece(more.take(PIECE_SIZE as int)).push_all(more.skip(PIECE_SIZE as int))
        }
    }

    /// The filter after some more data, and what it passes on.
    pub open spec fn push(self, more: Seq<u8>) -> (CompressionView, Seq<u8>) {
        if self.algo is Uncompressed {
            (self, more)
        } else {
            (self.push_all(more), self.push_all(more).sent().skip(self.sent().len() as int))
        }
    }

    /// All that has come out at the end, if the compression library takes in
    /// everything and ends.
    pub open spec fn ended(self) -> Option<Seq<u8>> {
        if self.broken {
            None
        } else {
            compressed(self.algo, self.level, self.calls.push((Seq::empty(), true)))
        }
    }

    /// What comes out at the end.
    pub open spec fn rest(self) -> Seq<u8> {
        match self.ended() {
            Some(all) => all.skip(self.sent().len() as int),
            None => Seq::empty(),
        }
    }

    /// Whether decompressing all that comes out gives what was put in.
    pub open spec fn opens(self) -> bool {
        !(self.algo is Uncompressed) ==> {
            &&& !self.broken
            &&& decompressed(self.algo, self.sent() + self.rest()) == Some(self.content())
        }
    }

    /// Whether what has come out so far is known.
    pub open spec fn sound(self) -> bool {
        compressed(self.algo, self.level, self.calls) is Some
    }
}

/// What comes out for more calls continues what has come out.
proof fn lemma_compressed_grows(
    algo: CompressionAlgorithm,
    level: int,
    calls: Seq<Call>,
    call: Call,
)
    ensures
        compressed(algo, level, calls.push(call)) matches Some(all) ==> ({
            &&& compressed(algo, level, calls) is Some
            &&& compressed(algo, level, calls)->0 + all.skip(
                compressed(algo, level, calls)->0.len() as int,
            ) == all
        }),
{
    let more = calls.push(call);
    assert(more.drop_last() =~= calls);
    match compressed(algo, level, more) {
        Some(all) => {
            let before = compressed(algo, level, calls)->0;
            assert(before + all.skip(before.len() as int) =~= all);
        },
        None => {},
    }
}

/// More data does not change the algorithm.
pub proof fn lemma_push_all_algo(v: CompressionView, more: Seq<u8>)
    ensures
        v.push_all(more).algo == v.algo,
    decreases more.len(),
{
    if more.len() > PIECE_SIZE {
        lemma_push_all_algo(
            v.push_piece(more.take(PIECE_SIZE as int)),
            more.skip(PIECE_SIZE as int),
        );
    }
}

/// More data continues what has come out; and if the compression library has
/// taken in everything in the end, it has before, and all of the data was put
/// in.
pub proof fn lemma_push_all_grows(v: CompressionView, more: Seq<u8>)
    requires
        v.sound(),
    ensures
        v.push_all(more).sound(),
        v.sent() + v.push_all(more).sent().skip(v.sent().len() as int) == v.push_all(more).sent(),
        v.push_all(more).algo == v.algo,
        v.push_all(more).level == v.level,
        !v.push_all(more).broken ==> !v.broken && v.push_all(more).content() == v.content() + more,
    decreases more.len(),
{
    if more.len() == 0 {
        assert(v.sent() + v.sent().skip(v.sent().len() as int) =~= v.sent());
        assert(v.content() + more =~= v.content());
    } else {
        let n = if more.len() <= PIECE_SIZE {
            more.len() as int
        } else {
            PIECE_SIZE as int
        };
        let piece = more.take(n);
        let w = v.push_piece(piece);
        assert(more.take(more.len() as int) =~= more);
        lemma_compressed_grows(v.algo, v.level, v.calls, (piece, false));
        assert(v.calls.push((piece, false)).drop_last() =~= v.calls);
        assert(v.sent() + v.sent().skip(v.sent().len() as int) =~= v.sent());
        if more.len() > PIECE_SIZE {
            let rest = more.skip(n);
            lemma_push_all_grows(w, rest);
            let x = w.push_all(rest);
            assert(v.sent() + x.sent().skip(v.sent().len() as int) =~= x.sent()) by {
                assert(x.sent() == w.sent() + x.sent().skip(w.sent().len() as int));
                assert(w.sent() == v.sent() + w.sent().skip(v.sent().len() as int));
            }
            assert((v.content() + piece) + rest =~= v.content() + more);
        }
    }
}

enum Compressor {
    Nothing,
    Deflate(flate2::Compress),
    Bzip(bzip2::Compress),
}

impl Compressor {
    /// The compressor is one for the algorithm, and was handed these calls.
    spec fn fits(self, algo: CompressionAlgorithm, level: int, calls: Seq<Call>) -> bool {
        match (algo, self) {
            (CompressionAlgorithm::Uncompressed, Compressor::Nothing) => true,
            (CompressionAlgorithm::Zip, Compressor::Deflate(c)) => deflater_setup(c) == (
                false,
                level,
            ) && deflater_calls(c) == calls,
            (CompressionAlgorithm::Zlib, Compressor::Deflate(c)) => deflater_setup(c) == (
                true,
                level,
            ) && deflater_calls(c) == calls,
            (CompressionAlgorithm::BZip2, Compressor::Bzip(c)) => bzipper_setup(c) == bzip_level(
                level,
            ) && bzipper_calls(c) == calls,
            _ => false,
        }
    }
}

/// Compresses data.
///
/// What the compression library puts out is passed on as soon as it is there.
/// If the library refuses something, this is reported when the filter is
/// finished.
pub struct CompressionFilter {
    algo: CompressionAlgorithm,
    level: CompressionLevel,
    compressor: Compressor,
    taken: u64,
    sent: u64,
    broken: bool,
    calls: Ghost<Seq<Call>>,
}

impl View for CompressionFilter {
    type V = CompressionView;

    closed spec fn view(&self) -> CompressionView {
        CompressionView {
            algo: self.algo,
            level: self.level.number(),
            calls: self.calls@,
            broken: self.broken,
        }
    }
}

impl CompressionFilter {
    pub closed spec fn wf(&self) -> bool {
        &&& is_supported(self.algo)
        &&& self@.sound()
        &&& !self.broken ==> {
            &&& self.compressor.fits(self.algo, self.level.number(), self.calls@)
            &&& self.taken == self@.content().len()
            &&& self.sent == self@.sent().len()
            &&& forall|i: int| 0 <= i < self.calls@.len() ==> !(#[trigger] self.calls@[i]).1
        }
    }

    /// Creates a filter.
    pub fn new(algo: CompressionAlgorithm, level: CompressionLevel) -> (r: Result<
        CompressionFilter,
    >)
        ensures
            match r {
                Ok(c) => is_supported(algo) && c.wf() && c@ == CompressionView::start(
                    algo,
                    level.number(),
                ),
                Err(e) => !is_supported(algo) && e@ == ErrorView::UnsupportedCompressionAlgorithm(
                    algo,
                ),
            },
    {
        let n: u32 = level.value();
        let compressor = match algo {
            CompressionAlgorithm::Uncompressed => Compressor::Nothing,
            CompressionAlgorithm::Zip => Compressor::Deflate(deflater_new(false, n)),
            CompressionAlgorithm::Zlib => Compressor::Deflate(deflater_new(true, n)),
            CompressionAlgorithm::BZip2 => Compressor::Bzip(
                bzipper_new(
                    if n == 0 {
                        1
                    } else {
                        n
                    },
                ),
            ),
            a => return Err(Error::UnsupportedCompressionAlgorithm(a)),
        };
        Ok(
            CompressionFilter {
                algo,
                level,
                compressor,
                taken: 0,
                sent: 0,
                broken: false,
                calls: Ghost(Seq::empty()),
            },
        )
    }

    /// Hands a piece to the compression library, and returns what comes out of
    /// it, if it takes in all of the piece, and ends if it is told to.
    #[verifier::rlimit(40)]
    fn call(&mut self, piece: &[u8], end: bool) -> (r: Option<Vec<u8>>)
        requires
            old(self).wf(),
            !old(self)@.broken,
            !(old(self)@.algo is Uncompressed),
            piece@.len() <= PIECE_SIZE,
        ensures
            final(self).algo == old(self).algo,
            final(self).level == old(self).level,
            final(self).broken == old(self).broken,
            final(self).calls@ == old(self).calls@.push((piece@, end)),
            match r {
                Some(out) => compressed(
                    old(self)@.algo,
                    old(self)@.level,
                    old(self)@.calls.push((piece@, end)),
                ) == Some(old(self)@.sent() + out@),
                None => compressed(
                    old(self)@.algo,
                    old(self)@.level,
                    old(self)@.calls.push((piece@, end)),
                ) is None,
            },
            r is Some && !end ==> final(self).wf(),
            r is Some && end ==> decompressed(
                old(self)@.algo,
                compressed(
                    old(self)@.algo,
                    old(self)@.level,
                    old(self)@.calls.push((piece@, end)),
                )->0,
            ) == Some(handed_in(old(self)@.calls.push((piece@, end)))),
    {
        let ghost was = self@;
        let ghost calls = was.calls.push((piece@, end));
        proof {
            assert(calls.drop_last() =~= was.calls);
            assert(calls.last() == (piece@, end));
            self.calls@ = calls;
        }
        let answer = match &mut self.compressor {
            Compressor::Nothing => None,
            Compressor::Deflate(c) => deflater_call(c, piece, end),
            Compressor::Bzip(c) => bzipper_call(c, piece, end),
        };
        assert(compressed(was.algo, was.level, calls) == put_out(
            was.sent(),
            calls,
            answer_view(answer),
        ));
        let (taken, sent, ended, buffer): (u64, u64, bool, Vec<u8>) = match answer {
            Some(a) => a,
            None => return None,
        };
        let total: u64 = match self.taken.checked_add(piece.len() as u64) {
            Some(total) => total,
            None => return None,
        };
        if taken != total || ended != end || sent < self.sent || sent - self.sent
            > buffer.len() as u64 {
            return None;
        }
        let n: usize = (sent - self.sent) as usize;
        let out = copy_range(buffer.as_slice(), 0, n);
        proof {
            assert(out@ =~= buffer@.take(n as int));
        }
        self.taken = taken;
        self.sent = sent;
        Some(out)
    }

    /// Continues the data, and returns what is to be sent now.
    #[verifier::rlimit(40)]
    pub fn push(&mut self, data: &[u8]) -> (out: Vec<u8>)
        requires
            old(self).wf(),
        ensures
            final(self).wf(),
            final(self)@ == old(self)@.push(data@).0,
            out@ == old(self)@.push(data@).1,
    {
        match self.algo {
            CompressionAlgorithm::Uncompressed => return to_vec(data),
            _ => (),
        }
        let ghost was = self@;
        let mut out: Vec<u8> = Vec::new();
        let mut done: usize = 0;
        proof {
            assert(data@.skip(0) =~= data@);
            assert(was.sent() + out@ =~= was.sent());
        }
        while done < data.len()
            invariant
                self.wf(),
                done <= data@.len(),
                !(self@.algo is Uncompressed),
                self@.push_all(data@.skip(done as int)) == was.push_all(data@),
                self@.sent() == was.sent() + out@,
            decreases data@.len() - done,
        {
            let n: usize = if data.len() - done > PIECE_SIZE {
                PIECE_SIZE
            } else {
                data.len() - done
            };
            let piece = copy_range(data, done, done + n);
            let ghost now = self@;
            proof {
                let left = data@.skip(done as int);
                assert(piece@ =~= left.take(n as int));
                assert(left.skip(n as int) =~= data@.skip(done + n));
                assert(left.take(left.len() as int) =~= left);
                if left.len() <= PIECE_SIZE {
                    assert(data@.skip(done + n) =~= Seq::<u8>::empty());
                }
                assert(now.push_all(left) == now.push_piece(piece@).push_all(
                    data@.skip(done + n),
                ));
            }
            if !self.broken {
                match self.call(piece.as_slice(), false) {
                    Some(more) => {
                        let ghost so_far = out@;
                        extend(&mut out, more.as_slice());
                        proof {
                            assert((was.sent() + so_far) + more@ =~= was.sent() + (so_far
                                + more@));
                            assert(self@ =~= now.push_piece(piece@));
                        }
                    },
                    None => {
                        self.broken = true;
                        proof {
                            self.calls@ = now.calls;
                            assert(self@ =~= now.push_piece(piece@));
                        }
                    },
                }
            }
            done = done + n;
        }
        proof {
            assert(data@.skip(done as int) =~= Seq::<u8>::empty());
            assert(self@ == was.push_all(data@));
            assert(self@.sent().skip(was.sent().len() as int) =~= out@);
        }
        out
    }

    /// Ends the data, and returns what is still to be sent.
    pub fn finish(self) -> (r: Result<Vec<u8>>)
        requires
            self.wf(),
        ensures
            self@.algo is Uncompressed ==> r is Ok,
            match r {
                Ok(out) => out@ == self@.rest() && self@.opens(),
                Err(e) => self@.ended() is None && e@ == ErrorView::Backend,
            },
    {
        let none: Vec<u8> = Vec::new();
        assert(none@ =~= Seq::<u8>::empty());
        match self.algo {
            CompressionAlgorithm::Uncompressed => {
                proof {
                    assert(self@.rest() =~= Seq::<u8>::empty());
                }
                return Ok(none);
            },
            _ => (),
        }
        if self.broken {
            return Err(Error::Backend);
        }
        let ghost was = self@;
        let mut me = self;
        match me.call(none.as_slice(), true) {
            Some(out) => {
                proof {
                    let calls = was.calls.push((Seq::empty(), true));
                    let all = was.sent() + out@;
                    assert(all.skip(was.sent().len() as int) =~= out@);
                    assert(calls.drop_last() =~= was.calls);
                    assert(handed_in(calls) =~= was.content());
                }
                Ok(out)
            },
            None => Err(Error::Backend),
        }
    }
}

} // verus!
