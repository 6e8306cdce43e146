//! Streaming packet serialization.
//!
//! This interface provides a convenient way to create signed and/or
//! encrypted OpenPGP messages.  It takes great care to make the correct use
//! of the packet sequence easy.
//!
//! Streaming serialization is based on a stack of filters.  The bottom of the
//! stack is a sink that collects the message.  Filters are put on the stack
//! by the types in this module, and data is written to the topmost filter.

use vstd::prelude::*;
use vstd::string::StringExecFns;

use crate::armor::{header_views, ArmorView, ArmorWriter};
use crate::bytes::{be32, decimal, extend, push_be32, to_decimal, to_vec};
use crate::compression::{is_supported, CompressionFilter, CompressionView};
use crate::error::{Error, ErrorView, Result};
use crate::framing::{PartialBodyFilter, Tag};
use crate::signing::SigningView;
use crate::stack::{
    all_plain, feed, fits, lemma_drop_structured, lemma_feed_structured, lemma_push_structured,
    all_steady, structured, write_error, Cookie, Filter, FilterView, Layer, LayerView, Private,
};
use crate::types::{CompressionAlgorithm, CompressionLevel, DataFormat, Kind};

pub use crate::encryptor::{Encryptor, Recipient};
pub use crate::signer::Signer;
pub use crate::stack::{Finalized, Message};

verus! {

/// The level of a writer that is put on a stack.
pub open spec fn next_level(ls: Seq<LayerView>) -> usize {
    if ls.last().cookie.level < usize::MAX {
        (ls.last().cookie.level + 1) as usize
    } else {
        usize::MAX
    }
}

/// A packet is started: its first octet is written, and a filter that frames
/// its body is put on the stack.
pub open spec fn packet_started(ls: Seq<LayerView>, tag: Tag, level: usize) -> Seq<LayerView> {
    feed(ls, seq![tag.spec_ctb()]).push(
        LayerView {
            cookie: Cookie { level, private: Private::Nothing },
            filter: FilterView::Partial(Seq::empty()),
        },
    )
}

/// Starts a packet.
pub(crate) fn start_packet(message: &mut Message, tag: Tag, level: usize) -> (r: Result<()>)
    requires
        old(message).wf(),
    ensures
        all_steady(old(message)@) ==> r is Ok && all_steady(final(message)@),
        all_plain(old(message)@) ==> r is Ok && all_plain(final(message)@),
        match r {
            Ok(_) => final(message).wf() && final(message)@ == packet_started(
                old(message)@,
                tag,
                level,
            ) && final(message)@.len() == old(message)@.len() + 1,
            Err(e) => write_error(e@),
        },
{
    let ghost ls = message@;
    let first: Vec<u8> = vec![tag.ctb()];
    assert(first@ =~= seq![tag.spec_ctb()]);
    proof {
        message.lemma_structured();
    }
    proof {
        lemma_feed_structured(ls, first@);
    }
    match message.write_all(first.as_slice()) {
        Ok(()) => (),
        Err(e) => return Err(e),
    }
    message.mount(
        Layer { cookie: Cookie::new(level), filter: Filter::Partial(PartialBodyFilter::new()) },
    );
    Ok(())
}

/// Applies ASCII Armor to the message.
///
/// ASCII armored data (see [Section 6 of RFC 9580]) is a OpenPGP data stream
/// that has been base64-encoded and decorated with a header, footer, and
/// optional headers representing key-value pairs.  It can be safely
/// transmitted over protocols that can only transmit printable characters,
/// and can be handled by end users.
///
///   [Section 6 of RFC 9580]: https://www.rfc-editor.org/rfc/rfc9580.html#section-6
pub struct Armorer {
    kind: Kind,
    headers: Vec<(String, String)>,
    inner: Message,
}

/// What an [`Armorer`] is set up to do.
#[verifier::ext_equal]
pub struct ArmorerView {
    pub kind: Kind,
    pub headers: Seq<(Seq<char>, Seq<char>)>,
    pub inner: Seq<LayerView>,
}

impl View for Armorer {
    type V = ArmorerView;

    closed spec fn view(&self) -> ArmorerView {
        ArmorerView {
            kind: self.kind,
            headers: header_views(self.headers@),
            inner: self.inner@,
        }
    }
}

impl Armorer {
    pub closed spec fn wf(&self) -> bool {
        self.inner.wf()
    }

    /// Creates a new armoring filter.
    pub fn new(inner: Message) -> (r: Armorer)
        requires
            inner.wf(),
        ensures
            r.wf(),
            r@ == (ArmorerView { kind: Kind::Message, headers: Seq::empty(), inner: inner@ }),
    {
        let r = Armorer { kind: Kind::Message, headers: Vec::new(), inner };
        assert(r@.headers =~= Seq::empty());
        r
    }

    /// Changes the kind of armoring.
    ///
    /// The armor header and footer changes depending on the type of wrapped
    /// data.
    pub fn kind(self, kind: Kind) -> (r: Armorer)
        requires
            self.wf(),
        ensures
            r.wf(),
            r@ == (ArmorerView { kind, ..self@ }),
    {
        Armorer { kind, headers: self.headers, inner: self.inner }
    }

    /// Adds a header to the armor block.
    ///
    /// There are a number of defined armor header keys (see [Section 6.2.2
    /// of RFC 9580]), but in practice, any key may be used, as
    /// implementations should simply ignore unknown keys.
    ///
    ///   [Section 6.2.2 of RFC 9580]: https://www.rfc-editor.org/rfc/rfc9580.html#section-6.2.2
    pub fn add_header(self, key: &str, value: &str) -> (r: Armorer)
        requires
            self.wf(),
        ensures
            r.wf(),
            r@ == (ArmorerView { headers: self@.headers.push((key@, value@)), ..self@ }),
    {
        let mut headers = self.headers;
        headers.push((key.to_string(), value.to_string()));
        let r = Armorer { kind: self.kind, headers, inner: self.inner };
        assert(r@.headers =~= self@.headers.push((key@, value@)));
        r
    }

    /// Builds the armor writer, returning the writer stack.
    #[verifier::rlimit(40)]
    pub fn build(self) -> (r: Result<Message>)
        requires
            self.wf(),
        ensures
            match r {
                Ok(m) => m.wf() && m@ == self@.inner.push(
                    LayerView {
                        cookie: Cookie {
                            level: next_level(self@.inner),
                            private: Private::Armorer { set_profile: None },
                        },
                        filter: FilterView::Armorer(
                            ArmorView {
                                kind: self@.kind,
                                headers: self@.headers,
                                data: Seq::empty(),
                            },
                        ),
                    },
                ) && (all_plain(self@.inner) ==> all_plain(m@)) && (all_steady(self@.inner)
                    ==> all_steady(m@)),
                Err(_) => false,
            },
    {
        let level: usize = self.inner.cookie().level.saturating_add(1);
        let cookie = Cookie::new(level).set_private(Private::Armorer { set_profile: None });
        let mut inner = self.inner;
        inner.mount(
            Layer { cookie, filter: Filter::Armorer(ArmorWriter::new(self.kind, self.headers)) },
        );
        Ok(inner)
    }
}

/// The stack that an arbitrary packet is started on.
pub open spec fn arbitrary_started(ls: Seq<LayerView>, tag: Tag) -> Seq<LayerView> {
    packet_started(ls, tag, next_level(ls)).push(
        LayerView {
            cookie: Cookie { level: next_level(ls), private: Private::Nothing },
            filter: FilterView::Arbitrary,
        },
    )
}

/// Writes an arbitrary packet.
///
/// This writer can be used to construct arbitrary OpenPGP packets.  This is
/// mainly useful for testing.
pub struct ArbitraryWriter;

impl ArbitraryWriter {
    /// Creates a new writer with the given tag.
    pub fn new(inner: Message, tag: Tag) -> (r: Result<Message>)
        requires
            inner.wf(),
        ensures
            match r {
                Ok(m) => m.wf() && m@ == arbitrary_started(inner@, tag) && (all_plain(inner@)
                    ==> all_plain(m@)) && (all_steady(inner@) ==> all_steady(m@)),
                Err(e) => !all_steady(inner@) && write_error(e@),
            },
    {
        let level: usize = inner.cookie().level.saturating_add(1);
        let mut inner = inner;
        match start_packet(&mut inner, tag, level) {
            Ok(()) => (),
            Err(e) => return Err(e),
        }
        inner.mount(Layer { cookie: Cookie::new(level), filter: Filter::Arbitrary });
        Ok(inner)
    }
}

/// Writes a literal data packet.
///
/// Literal data, i.e. the payload or plaintext, must be wrapped in a literal
/// data packet to be transported over OpenPGP (see [Section 5.9 of RFC
/// 9580]).  The body will be written using partial length encoding, or, if
/// the body is short, using full length encoding.
///
/// # Note on metadata
///
/// A literal data packet can communicate some metadata: a hint as to what
/// kind of data is transported, the original file name, and a timestamp.
/// Note that this metadata will not be authenticated by signatures (but will
/// be authenticated by a SEIP/MDC container), and are therefore unreliable
/// and should not be trusted.
///
///   [Section 5.9 of RFC 9580]: https://www.rfc-editor.org/rfc/rfc9580.html#section-5.9
pub struct LiteralWriter {
    format: DataFormat,
    filename: Vec<u8>,
    date: u32,
    inner: Message,
}

/// What a [`LiteralWriter`] is set up to do.
#[verifier::ext_equal]
pub struct LiteralView {
    pub format: DataFormat,
    pub filename: Seq<u8>,
    pub date: int,
    pub inner: Seq<LayerView>,
}

impl LiteralView {
    /// What precedes the data in the packet.
    pub open spec fn headers(self) -> Seq<u8> {
        seq![self.format.spec_octet(), self.filename.len() as u8] + self.filename + be32(self.date)
    }

    /// The stack that the packet is written to: a signer on top is taken
    /// off.
    pub open spec fn below(self) -> Seq<LayerView> {
        if self.inner.last().filter is Signer {
            self.inner.drop_last()
        } else {
            self.inner
        }
    }

    /// The signer that is taken off.
    pub open spec fn stash(self) -> Option<(Cookie, SigningView)> {
        if self.inner.last().filter is Signer {
            Some((self.inner.last().cookie, self.inner.last().filter->Signer_0))
        } else {
            None
        }
    }

    /// The stack that is built.
    pub open spec fn built(self) -> Seq<LayerView> {
        let level = next_level(self.inner);
        feed(packet_started(self.below(), Tag::Literal, level), self.headers()).push(
            LayerView {
                cookie: Cookie { level, private: Private::Nothing },
                filter: FilterView::Literal(self.stash()),
            },
        )
    }
}

impl View for LiteralWriter {
    type V = LiteralView;

    closed spec fn view(&self) -> LiteralView {
        LiteralView {
            format: self.format,
            filename: self.filename@,
            date: self.date as int,
            inner: self.inner@,
        }
    }
}

impl LiteralWriter {
    pub closed spec fn wf(&self) -> bool {
        self.inner.wf() && self.filename@.len() <= 255
    }

    /// Creates a new literal writer.
    pub fn new(inner: Message) -> (r: LiteralWriter)
        requires
            inner.wf(),
        ensures
            r.wf(),
            r@ == (LiteralView {
                format: DataFormat::Binary,
                filename: Seq::empty(),
                date: 0,
                inner: inner@,
            }),
    {
        let r = LiteralWriter { format: DataFormat::default(), filename: Vec::new(), date: 0, inner };
        assert(r@.filename =~= Seq::empty());
        r
    }

    /// Sets the data format.
    pub fn format(self, format: DataFormat) -> (r: LiteralWriter)
        requires
            self.wf(),
        ensures
            r.wf(),
            r@ == (LiteralView { format, ..self@ }),
    {
        LiteralWriter { format, filename: self.filename, date: self.date, inner: self.inner }
    }

    /// Sets the filename.
    ///
    /// The standard does not specify the encoding.  Filenames must not be
    /// longer than 255 bytes.
    pub fn filename(self, filename: &[u8]) -> (r: Result<LiteralWriter>)
        requires
            self.wf(),
        ensures
            match r {
                Ok(l) => filename@.len() <= 255 && l.wf() && l@ == (LiteralView {
                    filename: filename@,
                    ..self@
                }),
                Err(e) => filename@.len() > 255 && e@ == ErrorView::InvalidArgument(
                    "filename too long: "@ + decimal(filename@.len()) + " bytes"@,
                ),
            },
    {
        if filename.len() > 255 {
            let n: String = to_decimal(filename.len() as u64);
            let text: String = String::from_str("filename too long: ").concat(n.as_str()).concat(
                " bytes",
            );
            return Err(Error::InvalidArgument(text));
        }
        Ok(
            LiteralWriter {
                format: self.format,
                filename: to_vec(filename),
                date: self.date,
                inner: self.inner,
            },
        )
    }

    /// Sets the date, in seconds since the epoch.
    pub fn date(self, timestamp: i64) -> (r: Result<LiteralWriter>)
        requires
            self.wf(),
        ensures
            match r {
                Ok(l) => 0 <= timestamp <= u32::MAX && l.wf() && l@ == (LiteralView {
                    date: timestamp as int,
                    ..self@
                }),
                Err(e) => !(0 <= timestamp <= u32::MAX) && e@ == ErrorView::InvalidArgument(
                    "Time exceeds u32 epoch"@,
                ),
            },
    {
        if timestamp < 0 || timestamp > 0xFFFF_FFFF {
            return Err(Error::InvalidArgument("Time exceeds u32 epoch".to_string()));
        }
        Ok(
            LiteralWriter {
                format: self.format,
                filename: self.filename,
                date: timestamp as u32,
                inner: self.inner,
            },
        )
    }

    /// Builds the literal writer, returning the writer stack.
    ///
    /// For historical reasons, signatures over literal data packets only
    /// cover the body without metadata or framing.  Therefore, if the
    /// topmost writer is a signer, it is popped off the stack, and only
    /// hashes the body.
    #[verifier::rlimit(40)]
    pub fn build(self) -> (r: Result<Message>)
        requires
            self.wf(),
        ensures
            all_steady(self@.inner) ==> r is Ok,
            match r {
                Ok(m) => m.wf() && m@ == self@.built() && (all_plain(self@.inner) ==> all_plain(
                    m@,
                )) && (all_steady(self@.inner) ==> all_steady(m@)),
                Err(e) => !all_steady(self@.below()) && write_error(e@),
            },
    {
        let ghost v = self@;
        let level: usize = self.inner.cookie().level.saturating_add(1);
        proof {
            lemma_literal_mounts(v, level);
        }
        let headers = self.headers();
        let mut inner = self.inner;
        let stash = inner.pop_signer();
        // Neither the framing nor the headers are hashed for a signature.
        match start_packet(&mut inner, Tag::Literal, level) {
            Ok(()) => (),
            Err(e) => return Err(e),
        }
        match inner.write_all(headers.as_slice()) {
            Ok(()) => (),
            Err(e) => return Err(e),
        }
        inner.mount(Layer { cookie: Cookie::new(level), filter: Filter::Literal(stash) });
        Ok(inner)
    }

    fn headers(&self) -> (r: Vec<u8>)
        requires
            self.wf(),
        ensures
            r@ == self@.headers(),
    {
        let mut headers: Vec<u8> = Vec::new();
        headers.push(self.format.octet());
        headers.push(self.filename.len() as u8);
        extend(&mut headers, self.filename.as_slice());
        push_be32(&mut headers, self.date);
        assert(headers@ =~= self@.headers());
        headers
    }
}

/// The stack that a literal writer is mounted on has what it needs.
#[verifier::rlimit(40)]
proof fn lemma_literal_mounts(v: LiteralView, level: usize)
    requires
        structured(v.inner),
        level == next_level(v.inner),
    ensures
        ({
            let ready = feed(packet_started(v.below(), Tag::Literal, level), v.headers());
            &&& ready.len() == v.below().len() + 1
            &&& fits(ready.push(v.built().last()), ready.len() as int)
        }),
        v.inner.last().filter is Signer ==> !all_plain(v.inner) && !all_steady(v.inner),
{
    let n = v.inner.len() as int;
    assert(fits(v.inner, n - 1));
    let below = v.below();
    let first = seq![Tag::Literal.spec_ctb()];
    let signer = v.inner.last().filter is Signer;
    if signer {
        lemma_drop_structured(v.inner);
        assert(!v.inner[n - 1].filter.plain());
        assert(!v.inner[n - 1].filter.steady());
    }
    lemma_feed_structured(below, first);
    let fed = feed(below, first);
    let started = packet_started(below, Tag::Literal, level);
    let partial = started.last();
    lemma_push_structured(fed, partial);
    lemma_feed_structured(started, v.headers());
    let ready = feed(started, v.headers());
    let m = below.len() as int;
    assert(ready[m].filter.same(started[m].filter));
    let all = ready.push(v.built().last());
    assert(all[m] == ready[m]);
    if signer && v.inner.last().filter->Signer_0.mode is Cleartext {
        assert(below[m - 1] == v.inner[n - 2]);
        assert(fed[m - 1].filter.same(below[m - 1].filter));
        assert(started[m - 1] == fed[m - 1]);
        assert(ready[m - 1].filter.same(started[m - 1].filter));
        assert(all[m - 1] == ready[m - 1]);
    }
}

/// Compresses a message.
///
/// Writes a compressed data packet containing all packets written to this
/// writer.
pub struct Compressor {
    algo: CompressionAlgorithm,
    level: CompressionLevel,
    inner: Message,
}

/// What a [`Compressor`] is set up to do.
#[verifier::ext_equal]
pub struct CompressorView {
    pub algo: CompressionAlgorithm,
    pub level: int,
    pub inner: Seq<LayerView>,
}

/// The stack that is built on the framing of a compressed data packet.
pub open spec fn compression_started(
    framed: Seq<LayerView>,
    algo: CompressionAlgorithm,
    compression_level: int,
    level: usize,
) -> Seq<LayerView> {
    let cookie = Cookie { level, private: Private::Nothing };
    feed(framed, seq![algo.spec_octet()]).push(
        LayerView {
            cookie,
            filter: FilterView::Compression(CompressionView::start(algo, compression_level)),
        },
    ).push(LayerView { cookie, filter: FilterView::Compressor })
}

impl CompressorView {
    /// The stack that is built.
    pub open spec fn built(self) -> Seq<LayerView> {
        let level = next_level(self.inner);
        compression_started(
            packet_started(self.inner, Tag::CompressedData, level),
            self.algo,
            self.level,
            level,
        )
    }
}

impl View for Compressor {
    type V = CompressorView;

    closed spec fn view(&self) -> CompressorView {
        CompressorView { algo: self.algo, level: self.level.number(), inner: self.inner@ }
    }
}

impl Compressor {
    pub closed spec fn wf(&self) -> bool {
        self.inner.wf()
    }

    /// Creates a new compressor using the default algorithm and compression
    /// level.
    pub fn new(inner: Message) -> (r: Compressor)
        requires
            inner.wf(),
        ensures
            r.wf(),
            r@ == (CompressorView { algo: CompressionAlgorithm::Zip, level: 6, inner: inner@ }),
    {
        Compressor {
            algo: CompressionAlgorithm::default(),
            level: CompressionLevel::default(),
            inner,
        }
    }

    /// Sets the compression algorithm.
    pub fn algo(self, algo: CompressionAlgorithm) -> (r: Compressor)
        requires
            self.wf(),
        ensures
            r.wf(),
            r@ == (CompressorView { algo, ..self@ }),
    {
        Compressor { algo, level: self.level, inner: self.inner }
    }

    /// Sets the compression level.
    pub fn level(self, level: CompressionLevel) -> (r: Compressor)
        requires
            self.wf(),
        ensures
            r.wf(),
            r@ == (CompressorView { level: level.number(), ..self@ }),
    {
        Compressor { algo: self.algo, level, inner: self.inner }
    }

    /// Builds the compressor, returning the writer stack.
    #[verifier::rlimit(40)]
    pub fn build(self) -> (r: Result<Message>)
        requires
            self.wf(),
        ensures
            all_steady(self@.inner) ==> (r is Ok <==> is_supported(self@.algo)),
            match r {
                Ok(m) => is_supported(self@.algo) && m.wf() && m@ == self@.built() && (all_plain(
                    self@.inner,
                ) && self@.algo is Uncompressed ==> all_plain(m@)) && (all_steady(self@.inner)
                    ==> all_steady(m@)),
                Err(e) => {
                    ||| !all_steady(self@.inner) && write_error(e@)
                    ||| !is_supported(self@.algo) && e@
                        == ErrorView::UnsupportedCompressionAlgorithm(self@.algo)
                },
            },
    {
        let level: usize = self.inner.cookie().level.saturating_add(1);
        let mut inner = self.inner;
        match start_packet(&mut inner, Tag::CompressedData, level) {
            Ok(()) => (),
            Err(e) => return Err(e),
        }
        Self::new_naked(inner, self.algo, self.level, level)
    }

    /// Builds the compressor on the framing of a compressed data packet.
    ///
    /// Once the compressor is finalized, so is the writer that it is built on.
    pub fn new_naked(
        inner: Message,
        algo: CompressionAlgorithm,
        compression_level: CompressionLevel,
        level: usize,
    ) -> (r: Result<Message>)
        requires
            inner.wf(),
        ensures
            all_steady(inner@) ==> (r is Ok <==> is_supported(algo)),
            match r {
                Ok(m) => is_supported(algo) && m.wf() && m@ == compression_started(
                    inner@,
                    algo,
                    compression_level.number(),
                    level,
                ) && (all_plain(inner@) && algo is Uncompressed ==> all_plain(m@)) && (all_steady(
                    inner@,
                ) ==> all_steady(m@)),
                Err(e) => {
                    ||| !all_steady(inner@) && write_error(e@)
                    ||| !is_supported(algo) && e@ == ErrorView::UnsupportedCompressionAlgorithm(
                        algo,
                    )
                },
            },
    {
        let ghost ls = inner@;
        let mut inner = inner;
        proof {
            inner.lemma_structured();
        }
        // Compressed data header.
        let header: Vec<u8> = vec![algo.octet()];
        assert(header@ =~= seq![algo.spec_octet()]);
        proof {
            lemma_feed_structured(ls, header@);
            assert(feed(ls, header@)[ls.len() - 1].filter.same(ls[ls.len() - 1].filter));
        }
        match inner.write_all(header.as_slice()) {
            Ok(()) => (),
            Err(e) => return Err(e),
        }
        // Create an appropriate filter.
        let filter = match CompressionFilter::new(algo, compression_level) {
            Ok(filter) => filter,
            Err(e) => return Err(e),
        };
        inner.mount(Layer { cookie: Cookie::new(level), filter: Filter::Compression(filter) });
        inner.mount(Layer { cookie: Cookie::new(level), filter: Filter::Compressor });
        Ok(inner)
    }
}

} // verus!
