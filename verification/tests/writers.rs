//! The writers on their own, with exact octets.

use std::io::Read;

use openpgp_stream::error::Error;
use openpgp_stream::framing::{make_packet, PartialBodyFilter, Tag, BUFFER_THRESHOLD};
use openpgp_stream::stack::{Cookie, Private};
use openpgp_stream::stream::{
    ArbitraryWriter, Armorer, Compressor, Encryptor, Finalized, LiteralWriter, Message,
};
use openpgp_stream::textfilter::{normalize_text, DashEscapeFilter, TrailingWSFilter};
use openpgp_stream::types::{
    CompressionAlgorithm, CompressionLevel, DataFormat, Kind, Profile, SymmetricAlgorithm,
};

fn inner(f: Finalized) -> Message {
    match f {
        Finalized::Inner(m) => m,
        Finalized::Sink(_) => panic!("no writer is left"),
    }
}

#[test]
fn literal_defaults() {
    let m = Message::new(Vec::new());
    let mut m = LiteralWriter::new(m).build().unwrap();
    m.write_all(b"Hello world.").unwrap();
    assert_eq!(m.finalize().unwrap(), b"\xcb\x12b\x00\x00\x00\x00\x00Hello world.");
}

#[test]
fn literal_format() {
    let m = Message::new(Vec::new());
    let mut m = LiteralWriter::new(m).format(DataFormat::Unicode).build().unwrap();
    m.write_all(b"Hello world.").unwrap();
    assert_eq!(m.finalize().unwrap(), b"\xcb\x12u\x00\x00\x00\x00\x00Hello world.");
}

#[test]
fn literal_filename() {
    let m = Message::new(Vec::new());
    let mut m = LiteralWriter::new(m).filename(b"foobar").unwrap().build().unwrap();
    m.write_all(b"Hello world.").unwrap();
    assert_eq!(m.finalize().unwrap(), b"\xcb\x18b\x06foobar\x00\x00\x00\x00Hello world.");
}

#[test]
fn literal_filename_too_long() {
    let m = Message::new(Vec::new());
    assert!(LiteralWriter::new(m).filename(&[0x61; 255]).is_ok());
    let m = Message::new(Vec::new());
    match LiteralWriter::new(m).filename(&[0x61; 256]) {
        Err(Error::InvalidArgument(text)) => {
            assert_eq!(text, "filename too long: 256 bytes");
        }
        _ => panic!("expected an error"),
    }
}

#[test]
fn literal_date() {
    let m = Message::new(Vec::new());
    let mut m = LiteralWriter::new(m).date(1585925313).unwrap().build().unwrap();
    m.write_all(b"Hello world.").unwrap();
    assert_eq!(m.finalize().unwrap(), b"\xcb\x12b\x00\x5e\x87\x4c\xc1Hello world.");
}

#[test]
fn literal_date_out_of_range() {
    for date in [-1i64, 1 << 32] {
        let m = Message::new(Vec::new());
        match LiteralWriter::new(m).date(date) {
            Err(Error::InvalidArgument(text)) => assert_eq!(text, "Time exceeds u32 epoch"),
            _ => panic!("expected an error"),
        }
    }
}

#[test]
fn sink_is_appended_to() {
    let m = Message::new(b"before".to_vec());
    let mut m = LiteralWriter::new(m).build().unwrap();
    m.write_all(b"x").unwrap();
    assert_eq!(m.finalize().unwrap(), b"before\xcb\x07b\x00\x00\x00\x00\x00x");
}

#[test]
fn uncompressed_message() {
    let m = Message::new(Vec::new());
    let m = Compressor::new(m).algo(CompressionAlgorithm::Uncompressed).build().unwrap();
    let mut m = LiteralWriter::new(m).build().unwrap();
    m.write_all(b"Hello world.").unwrap();
    assert_eq!(
        m.finalize().unwrap(),
        b"\xc8\x15\x00\xcb\x12b\x00\x00\x00\x00\x00Hello world."
    );
}

#[test]
fn compressed_messages() {
    let text = vec![0x61u8; 10_000];
    for level in 0..10u8 {
        let build = |algo: CompressionAlgorithm| {
            let m = Message::new(Vec::new());
            let m = Compressor::new(m)
                .algo(algo)
                .level(CompressionLevel::new(level).unwrap())
                .build()
                .unwrap();
            let mut m = LiteralWriter::new(m).build().unwrap();
            m.write_all(&text[..100]).unwrap();
            m.write_all(&text[100..]).unwrap();
            let o = m.finalize().unwrap();
            // A packet with a short body: skip the tag and the length.
            assert_eq!(o[0], 0xC8);
            let skip = match o[1] {
                0..=191 => 2,
                192..=223 => 3,
                _ => 6,
            };
            o[skip..].to_vec()
        };
        let mut expected = b"\xcb\xe6\x56b\x00\x00\x00\x00\x00".to_vec();
        expected[1] = 0xff;
        expected.splice(1..3, [0xff, 0, 0, 0x27, 0x16]);
        expected.extend_from_slice(&text);

        let o = build(CompressionAlgorithm::Zip);
        assert_eq!(o[0], 1);
        let mut plain = Vec::new();
        flate2::read::DeflateDecoder::new(&o[1..]).read_to_end(&mut plain).unwrap();
        assert_eq!(plain, expected);

        let o = build(CompressionAlgorithm::Zlib);
        assert_eq!(o[0], 2);
        let mut plain = Vec::new();
        flate2::read::ZlibDecoder::new(&o[1..]).read_to_end(&mut plain).unwrap();
        assert_eq!(plain, expected);

        let o = build(CompressionAlgorithm::BZip2);
        assert_eq!(o[0], 3);
        let mut plain = Vec::new();
        bzip2::read::BzDecoder::new(&o[1..]).read_to_end(&mut plain).unwrap();
        assert_eq!(plain, expected);
    }
}

#[test]
fn compression_defaults_to_zip() {
    let m = Message::new(Vec::new());
    let mut m = Compressor::new(m).build().unwrap();
    m.write_all(b"x").unwrap();
    let o = m.finalize().unwrap();
    assert_eq!(o[2], 1);
}

#[test]
fn compression_not_supported() {
    let m = Message::new(Vec::new());
    match Compressor::new(m).algo(CompressionAlgorithm::Private(100)).build() {
        Err(Error::UnsupportedCompressionAlgorithm(a)) => {
            assert_eq!(a, CompressionAlgorithm::Private(100));
        }
        _ => panic!("expected an error"),
    }
}

#[test]
fn compression_levels() {
    assert!(CompressionLevel::new(9).is_ok());
    assert!(CompressionLevel::new(10).is_err());
    assert_eq!(CompressionLevel::none().value(), 0);
    assert_eq!(CompressionLevel::fastest().value(), 1);
    assert_eq!(CompressionLevel::default().value(), 6);
    assert_eq!(CompressionLevel::best().value(), 9);
}

#[test]
fn arbitrary_octets() {
    let m = Message::new(Vec::new());
    let mut m = ArbitraryWriter::new(m, Tag::Literal).unwrap();
    m.write_all(b"t").unwrap();
    m.write_all(b"\x00").unwrap();
    m.write_all(b"\x00\x00\x00\x00").unwrap();
    m.write_all(b"Hello world.").unwrap();
    assert_eq!(m.finalize().unwrap(), b"\xcb\x12t\x00\x00\x00\x00\x00Hello world.");
}

#[test]
fn armored_message() {
    let m = Message::new(Vec::new());
    let m = Armorer::new(m).build().unwrap();
    let mut m = LiteralWriter::new(m).build().unwrap();
    m.write_all(b"Hello world.").unwrap();
    assert_eq!(
        String::from_utf8(m.finalize().unwrap()).unwrap(),
        "-----BEGIN PGP MESSAGE-----\n\
         \n\
         yxJiAAAAAABIZWxsbyB3b3JsZC4=\n\
         =6nHv\n\
         -----END PGP MESSAGE-----\n"
    );
}

#[test]
fn armored_with_kind_and_headers() {
    let m = Message::new(Vec::new());
    let m = Armorer::new(m)
        .kind(Kind::File)
        .add_header("Comment", "No comment.")
        .build()
        .unwrap();
    let mut m = LiteralWriter::new(m).build().unwrap();
    m.write_all(b"Hello world.").unwrap();
    assert_eq!(
        String::from_utf8(m.finalize().unwrap()).unwrap(),
        "-----BEGIN PGP ARMORED FILE-----\n\
         Comment: No comment.\n\
         \n\
         yxJiAAAAAABIZWxsbyB3b3JsZC4=\n\
         =6nHv\n\
         -----END PGP ARMORED FILE-----\n"
    );
}

/// Reads base64, up to the checksum or the footer.
fn base64_decode(text: &str) -> Vec<u8> {
    let mut bits = 0u32;
    let mut n = 0;
    let mut out = Vec::new();
    for c in text.bytes() {
        let v = match c {
            b'A'..=b'Z' => c - b'A',
            b'a'..=b'z' => c - b'a' + 26,
            b'0'..=b'9' => c - b'0' + 52,
            b'+' => 62,
            b'/' => 63,
            _ => continue,
        };
        bits = bits << 6 | v as u32;
        n += 6;
        if n >= 8 {
            n -= 8;
            out.push((bits >> n) as u8);
        }
    }
    out
}

#[test]
fn armor_reads_back() {
    for len in 1..200usize {
        let data: Vec<u8> = (0..len).map(|i| (i * 7 + len) as u8).collect();
        let m = Message::new(Vec::new());
        let mut m = Armorer::new(m).build().unwrap();
        for piece in data.chunks(5) {
            m.write_all(piece).unwrap();
        }
        let o = String::from_utf8(m.finalize().unwrap()).unwrap();
        let lines: Vec<&str> = o.lines().collect();
        let body: Vec<&str> = lines[2..lines.len() - 2].to_vec();
        assert!(body[..body.len() - 1].iter().all(|l| l.len() == 64));
        assert!(body[body.len() - 1].len() <= 64);
        assert_eq!(base64_decode(&body.concat()), data);
        assert_eq!(lines[lines.len() - 2].len(), 5);
    }
}

#[test]
fn armor_of_nothing() {
    let m = Message::new(Vec::new());
    let mut m = Armorer::new(m).build().unwrap();
    m.write_all(b"").unwrap();
    assert_eq!(m.finalize().unwrap(), b"");
}

#[test]
fn armor_blurbs() {
    for (kind, blurb) in [
        (Kind::Message, "MESSAGE"),
        (Kind::PublicKey, "PUBLIC KEY BLOCK"),
        (Kind::SecretKey, "PRIVATE KEY BLOCK"),
        (Kind::Signature, "SIGNATURE"),
        (Kind::File, "ARMORED FILE"),
    ] {
        let m = Message::new(Vec::new());
        let mut m = Armorer::new(m).kind(kind).build().unwrap();
        m.write_all(b"\x00").unwrap();
        let o = String::from_utf8(m.finalize().unwrap()).unwrap();
        assert!(o.starts_with(&format!("-----BEGIN PGP {}-----\n", blurb)));
        assert!(o.ends_with(&format!("-----END PGP {}-----\n", blurb)));
    }
}

#[test]
fn armor_profile() {
    // An armor around a container of the newer format has no checksum.
    let key = vec![7; 32];
    for (aead, checksum) in [(false, true), (true, false)] {
        let m = Message::new(Vec::new());
        let m = Armorer::new(m).build().unwrap();
        let e =
            Encryptor::with_session_key(m, SymmetricAlgorithm::AES256, key.clone()).unwrap();
        let e = if aead { e.aead_algo(Default::default()) } else { e };
        let mut m = e.build().unwrap();
        m.write_all(b"x").unwrap();
        let o = String::from_utf8(m.finalize().unwrap()).unwrap();
        let lines: Vec<&str> = o.lines().collect();
        assert_eq!(lines[lines.len() - 2].starts_with('='), checksum);
    }
}

/// Reads the body of a packet, given what follows its first octet.
fn unframe(mut s: &[u8]) -> (Vec<u8>, usize) {
    let mut body = Vec::new();
    let mut parts = 0;
    loop {
        parts += 1;
        let (n, used, last) = match s[0] {
            0..=191 => (s[0] as usize, 1, true),
            192..=223 => (((s[0] as usize - 192) << 8) + s[1] as usize + 192, 2, true),
            255 => (u32::from_be_bytes([s[1], s[2], s[3], s[4]]) as usize, 5, true),
            p => (1usize << (p - 224), 1, false),
        };
        body.extend_from_slice(&s[used..used + n]);
        s = &s[used + n..];
        if last {
            assert!(s.is_empty());
            return (body, parts);
        }
    }
}

#[test]
fn framing_keeps_content() {
    for (lens, parts) in [
        (vec![0usize], 1),
        (vec![191], 1),
        (vec![192], 1),
        (vec![8383, 1], 1),
        (vec![BUFFER_THRESHOLD], 1),
        (vec![BUFFER_THRESHOLD, 1], 2),
        (vec![3 * BUFFER_THRESHOLD + 5], 3),
        (vec![1, 2 * BUFFER_THRESHOLD, BUFFER_THRESHOLD], 3),
        (vec![BUFFER_THRESHOLD; 5], 3),
    ] {
        let mut f = PartialBodyFilter::new();
        let mut out = Vec::new();
        let mut expected: Vec<u8> = Vec::new();
        for n in lens {
            let data: Vec<u8> = (0..n).map(|i| (i % 251) as u8).collect();
            out.extend(f.push(&data));
            expected.extend(data);
        }
        out.extend(f.finish());
        let (body, n) = unframe(&out);
        assert_eq!(body, expected);
        assert_eq!(n, parts);
    }
}

#[test]
fn packets_of_all_lengths() {
    assert_eq!(make_packet(Tag::MDC, b"").unwrap(), [0xD3, 0]);
    let p = make_packet(Tag::Signature, &[0; 191]).unwrap();
    assert_eq!(p[..2], [0xC2, 191]);
    let p = make_packet(Tag::Signature, &[0; 192]).unwrap();
    assert_eq!(p[..3], [0xC2, 192, 0]);
    let p = make_packet(Tag::Signature, &[0; 8383]).unwrap();
    assert_eq!(p[..3], [0xC2, 223, 255]);
    let p = make_packet(Tag::Signature, &[0; 8384]).unwrap();
    assert_eq!(p[..6], [0xC2, 255, 0, 0, 0x20, 0xC0]);
}

#[test]
fn draining_loses_nothing() {
    let m = Message::new(Vec::new());
    let mut m = LiteralWriter::new(m).build().unwrap();
    let mut out = m.drain();
    assert_eq!(out, b"\xcb");
    let data = vec![5u8; BUFFER_THRESHOLD];
    m.write_all(&data).unwrap();
    let piece = m.drain();
    assert!(!piece.is_empty());
    out.extend(piece);
    m.write_all(b"rest").unwrap();
    out.extend(m.drain());
    out.extend(m.finalize().unwrap());
    let (body, _) = unframe(&out[1..]);
    assert_eq!(body.len(), 6 + data.len() + 4);
    assert!(body.ends_with(b"\x05rest"));
}

#[test]
fn finalizing_one_by_one() {
    let m = Message::new(Vec::new());
    let m = Armorer::new(m).build().unwrap();
    let mut m = LiteralWriter::new(m).build().unwrap();
    m.write_all(b"Hello world.").unwrap();
    let m = inner(m.finalize_one().unwrap());
    let m = inner(m.finalize_one().unwrap());
    match m.finalize_one().unwrap() {
        Finalized::Sink(o) => {
            assert!(o.starts_with(b"-----BEGIN PGP MESSAGE-----\n"));
            assert!(o.ends_with(b"-----END PGP MESSAGE-----\n"));
        }
        Finalized::Inner(_) => panic!("a writer is left"),
    }
}

#[test]
fn cookies() {
    let c = Cookie::default();
    assert_eq!(c.level, 0);
    assert!(matches!(c.private, Private::Nothing));
    let c = Cookie::new(3).set_private(Private::Encryptor { profile: Profile::RFC9580 });
    assert_eq!(c.level, 3);
    assert!(matches!(c.private, Private::Encryptor { profile: Profile::RFC9580 }));

    let m = Message::new(Vec::new());
    let m = Armorer::new(m).build().unwrap();
    assert_eq!(m.cookie().level, 1);
    assert!(matches!(m.cookie().private, Private::Armorer { set_profile: None }));
    let m = LiteralWriter::new(m).build().unwrap();
    assert_eq!(m.cookie().level, 2);
}

#[test]
fn normalized_text() {
    for data in [
        &b"one\r\ntwo\r\nthree\r\n"[..],
        b"one\ntwo\nthree\n",
        b"one\rtwo\rthree\r",
        b"one\ntwo\r\nthree\r",
    ] {
        // However the text is cut, the result is the same.
        for cut in 0..data.len() {
            let (cr, mut a) = normalize_text(false, &data[..cut]);
            let (_, b) = normalize_text(cr, &data[cut..]);
            a.extend(b);
            assert_eq!(a, b"one\r\ntwo\r\nthree\r\n");
            assert_eq!(normalize_text(false, &a).1, a);
        }
    }
    assert_eq!(normalize_text(false, b"\n\n\r\r").1, b"\r\n\r\n\r\n\r\n");
}

#[test]
fn dash_escaped_text() {
    let data = b"- dash\n-\nFrom me\nFrom\nplain\n-last";
    for cut in 0..data.len() {
        let mut f = DashEscapeFilter::new();
        let mut out = f.push(&data[..cut]);
        out.extend(f.push(&data[cut..]));
        out.extend(f.finish());
        assert_eq!(out, b"- - dash\n- -\n- From me\nFrom\nplain\n- -last");
        // And back.
        let text = String::from_utf8(out).unwrap();
        let lines: Vec<&str> =
            text.split('\n').map(|l| l.strip_prefix("- ").unwrap_or(l)).collect();
        assert_eq!(lines.join("\n").as_bytes(), data);
    }
}

#[test]
fn trimmed_text() {
    let data = b"one \ntwo\t \r\n \nthree\t";
    for cut in 0..data.len() {
        let mut f = TrailingWSFilter::new();
        let mut out = f.push(&data[..cut]);
        out.extend(f.push(&data[cut..]));
        out.extend(f.finish());
        assert_eq!(out, b"one\ntwo\r\n\nthree\n");
    }
    let mut f = TrailingWSFilter::new();
    assert_eq!(f.push(b"ends\n"), b"ends\n");
    assert_eq!(f.finish(), b"");
}

#[test]
fn naked_compressor_on_a_sink() {
    // Once the compressor is finalized, so is the sink below it.
    let m = Message::new(b"<".to_vec());
    let level = CompressionLevel::default();
    let mut m =
        Compressor::new_naked(m, CompressionAlgorithm::Uncompressed, level, 7).unwrap();
    assert_eq!(m.cookie().level, 7);
    m.write_all(b"data").unwrap();
    match m.finalize_one().unwrap() {
        Finalized::Sink(o) => assert_eq!(o, b"<\x00data"),
        Finalized::Inner(_) => panic!("the sink is finalized, too"),
    }

    let m = Message::new(Vec::new());
    let mut m = Compressor::new_naked(m, CompressionAlgorithm::Zip, level, 0).unwrap();
    m.write_all(b"data data data data").unwrap();
    let o = m.finalize().unwrap();
    assert_eq!(o[0], 1);
    let mut plain = Vec::new();
    flate2::read::DeflateDecoder::new(&o[1..]).read_to_end(&mut plain).unwrap();
    assert_eq!(plain, b"data data data data");
}

#[test]
fn naked_compressor_on_other_writers() {
    // The writer below the compression is finalized with the compressor.
    let m = Message::new(Vec::new());
    let m = ArbitraryWriter::new(m, Tag::Literal).unwrap();
    let level = CompressionLevel::default();
    let mut m =
        Compressor::new_naked(m, CompressionAlgorithm::Uncompressed, level, 0).unwrap();
    m.write_all(b"abc").unwrap();
    let m = inner(m.finalize_one().unwrap());
    assert_eq!(m.finalize().unwrap(), b"\xcb\x04\x00abc");
}

#[test]
fn naked_compressor_of_an_unsupported_algorithm() {
    let m = Message::new(Vec::new());
    let algo = CompressionAlgorithm::Private(100);
    match Compressor::new_naked(m, algo, CompressionLevel::default(), 0) {
        Err(Error::UnsupportedCompressionAlgorithm(a)) => assert_eq!(a, algo),
        _ => panic!("expected an error"),
    }
}

#[test]
fn finalizing_gives_back_the_stack() {
    // The writers below are there again, with the whole packet.
    let m = Message::new(Vec::new());
    let m = ArbitraryWriter::new(m, Tag::SEIP).unwrap();
    let level = m.cookie().level;
    let mut m = LiteralWriter::new(m).build().unwrap();
    m.write_all(b"1").unwrap();
    let m = inner(m.finalize_one().unwrap());
    assert_eq!(m.cookie().level, level);
    let mut m = ArbitraryWriter::new(m, Tag::Literal).unwrap();
    m.write_all(b"2").unwrap();
    let m = inner(m.finalize_one().unwrap());
    assert_eq!(m.cookie().level, level);
    let mut m = Compressor::new(m)
        .algo(CompressionAlgorithm::Uncompressed)
        .build()
        .unwrap();
    m.write_all(b"3").unwrap();
    let m = inner(m.finalize_one().unwrap());
    assert_eq!(m.cookie().level, level);
    assert_eq!(
        m.finalize().unwrap(),
        b"\xd2\x10\xcb\x07b\x00\x00\x00\x00\x001\xcb\x012\xc8\x02\x003"
    );
    match Message::new(b"nothing".to_vec()).finalize_one().unwrap() {
        Finalized::Sink(o) => assert_eq!(o, b"nothing"),
        Finalized::Inner(_) => panic!("there is no other writer"),
    }
}

#[test]
fn trailing_blanks_leave_no_trace() {
    let trim = |text: &[u8]| {
        let mut f = TrailingWSFilter::new();
        let mut o = f.push(text);
        o.extend(f.finish());
        o
    };
    assert_eq!(trim(b"a\n b\r\nc"), b"a\n b\r\nc\n");
    assert_eq!(trim(b"a \t\n b\t\r\nc  "), b"a\n b\r\nc\n");
    // A last line that is not ended.
    assert_eq!(trim(b"a\nb \t"), trim(b"a\nb"));
    assert_eq!(trim(b"a\nb \t"), b"a\nb\n");
    // One that has nothing but blanks leaves an empty line.
    assert_eq!(trim(b"a\n "), b"a\n\n");
    assert_eq!(trim(b"a\n"), b"a\n");
}

/// Octets that cannot be compressed.
fn noise(n: usize) -> Vec<u8> {
    let mut state: u64 = 0x9E37_79B9_7F4A_7C15;
    (0..n)
        .map(|_| {
            state = state.wrapping_mul(6364136223846793005).wrapping_add(1442695040888963407);
            (state >> 56) as u8
        })
        .collect()
}

fn unzipped(algo: CompressionAlgorithm, data: &[u8]) -> Vec<u8> {
    let mut plain = Vec::new();
    match algo {
        CompressionAlgorithm::Zip => {
            flate2::read::DeflateDecoder::new(data).read_to_end(&mut plain).unwrap();
        }
        CompressionAlgorithm::Zlib => {
            flate2::read::ZlibDecoder::new(data).read_to_end(&mut plain).unwrap();
        }
        CompressionAlgorithm::BZip2 => {
            bzip2::read::BzDecoder::new(data).read_to_end(&mut plain).unwrap();
        }
        _ => plain.extend(data),
    }
    plain
}

#[test]
fn compressed_data_is_passed_on_early() {
    let data = noise(3_000_000);
    for algo in [
        CompressionAlgorithm::Uncompressed,
        CompressionAlgorithm::Zip,
        CompressionAlgorithm::Zlib,
        CompressionAlgorithm::BZip2,
    ] {
        let level = CompressionLevel::default();
        let m = Message::new(Vec::new());
        let mut m = Compressor::new_naked(m, algo, level, 0).unwrap();
        // In one large and many small pieces.
        m.write_all(&data[..2_000_000]).unwrap();
        let mut o = m.drain();
        assert!(o.len() > 900_000);
        for piece in data[2_000_000..].chunks(10_007) {
            m.write_all(piece).unwrap();
        }
        o.extend(m.finalize().unwrap());
        assert_eq!(o[0], algo.octet());
        assert!(unzipped(algo, &o[1..]) == data);
    }
}

#[test]
fn compression_levels_read_back() {
    let text = b"There is nothing new under the sun. ".repeat(5000);
    for algo in [
        CompressionAlgorithm::Zip,
        CompressionAlgorithm::Zlib,
        CompressionAlgorithm::BZip2,
    ] {
        for level in 0..=9 {
            let level = CompressionLevel::new(level).unwrap();
            let m = Message::new(Vec::new());
            let mut m = Compressor::new_naked(m, algo, level, 0).unwrap();
            m.write_all(&text).unwrap();
            let o = m.finalize().unwrap();
            assert!(unzipped(algo, &o[1..]) == text);
        }
        // Nothing is compressed to something.
        let m = Message::new(Vec::new());
        let m = Compressor::new_naked(m, algo, CompressionLevel::default(), 0).unwrap();
        assert!(unzipped(algo, &m.finalize().unwrap()[1..]).is_empty());
    }
}
