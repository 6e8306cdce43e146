//! ASCII armor.

use vstd::prelude::*;
use vstd::string::StringSliceAdditionalSpecFns;
use vstd::utf8::encode_utf8;

use crate::bytes::{extend, text};
use crate::textfilter::LF;
use crate::types::Kind;

verus! {

/// The character of the sextet `n` in base64.
pub open spec fn base64_char(n: int) -> u8 {
    if n < 26 {
        (0x41 + n) as u8
    } else if n < 52 {
        (0x61 + n - 26) as u8
    } else if n < 62 {
        (0x30 + n - 52) as u8
    } else if n == 62 {
        0x2B
    } else {
        0x2F
    }
}

/// The sextet that a character of base64 stands for, if it stands for one.
pub open spec fn base64_sextet(c: u8) -> Option<int> {
    if 0x41 <= c < 0x5B {
        Some(c - 0x41)
    } else if 0x61 <= c < 0x7B {
        Some(c - 0x61 + 26)
    } else if 0x30 <= c < 0x3A {
        Some(c - 0x30 + 52)
    } else if c == 0x2B {
        Some(62)
    } else if c == 0x2F {
        Some(63)
    } else {
        None
    }
}

/// Three octets in base64.
pub open spec fn base64_three(a: u8, b: u8, c: u8) -> Seq<u8> {
    seq![
        base64_char(a as int / 4),
        base64_char(a % 4 * 16 + b / 16),
        base64_char(b % 16 * 4 + c / 64),
        base64_char(c as int % 64),
    ]
}

/// The whole groups of three octets of `data` in base64, in lines of 64
/// characters.
pub open spec fn base64_lines(data: Seq<u8>) -> Seq<u8>
    decreases data.len(),
{
    let n = data.len() as int;
    if n < 3 {
        Seq::empty()
    } else if n % 3 != 0 {
        base64_lines(data.drop_last())
    } else {
        base64_lines(data.drop_last()) + base64_three(data[n - 3], data[n - 2], data[n - 1]) + (
        if n % 48 == 0 {
            seq![LF]
        } else {
            Seq::empty()
        })
    }
}

/// What follows the whole groups: the padded last group, and the end of the
/// line.
pub open spec fn base64_tail(data: Seq<u8>) -> Seq<u8> {
    let n = data.len() as int;
    (if n % 3 == 1 {
        seq![base64_char(data[n - 1] as int / 4), base64_char(data[n - 1] % 4 * 16), 0x3D, 0x3D]
    } else if n % 3 == 2 {
        seq![
            base64_char(data[n - 2] as int / 4),
            base64_char(data[n - 2] % 4 * 16 + data[n - 1] / 16),
            base64_char(data[n - 1] % 16 * 4),
            0x3D,
        ]
    } else {
        Seq::empty()
    }) + (if n % 48 != 0 {
        seq![LF]
    } else {
        Seq::empty()
    })
}

pub const CRC24_INIT: u32 = 0xB7_04CE;

/// One bit of the checksum.
pub open spec fn crc24_shift(c: u32) -> u32 {
    let d = c << 1;
    if d & 0x100_0000 != 0 {
        d ^ 0x186_4CFB
    } else {
        d
    }
}

/// One octet of the checksum.
pub open spec fn crc24_step(c: u32, b: u8) -> u32 {
    crc24_shift(
        crc24_shift(
            crc24_shift(
                crc24_shift(
                    crc24_shift(
                        crc24_shift(crc24_shift(crc24_shift(c ^ ((b as u32) << 16)))),
                    ),
                ),
            ),
        ),
    )
}

/// The checksum of `data`.
pub open spec fn crc24(data: Seq<u8>) -> u32
    decreases data.len(),
{
    if data.len() == 0 {
        CRC24_INIT
    } else {
        crc24_step(crc24(data.drop_last()), data.last())
    }
}

/// The line that holds the checksum.
pub open spec fn crc24_line(data: Seq<u8>) -> Seq<u8> {
    let c = crc24(data) as int;
    seq![0x3Du8] + base64_three(
        (c / 0x1_0000 % 0x100) as u8,
        (c / 0x100 % 0x100) as u8,
        (c % 0x100) as u8,
    ) + seq![LF]
}

/// The armor headers.
pub open spec fn header_lines(headers: Seq<(Seq<char>, Seq<char>)>) -> Seq<u8>
    decreases headers.len(),
{
    if headers.len() == 0 {
        Seq::empty()
    } else {
        header_lines(headers.drop_last()) + encode_utf8(headers.last().0) + text(": ")
            + encode_utf8(headers.last().1) + seq![LF]
    }
}

/// What precedes the data.
pub open spec fn armor_head(kind: Kind, headers: Seq<(Seq<char>, Seq<char>)>) -> Seq<u8> {
    text("-----BEGIN PGP ") + kind.spec_blurb() + text("-----") + seq![LF] + header_lines(headers)
        + seq![LF]
}

/// What ends the armor.
pub open spec fn armor_foot(kind: Kind) -> Seq<u8> {
    text("-----END PGP ") + kind.spec_blurb() + text("-----") + seq![LF]
}

/// An armor writer that has been given `data`.
#[verifier::ext_equal]
pub struct ArmorView {
    pub kind: Kind,
    pub headers: Seq<(Seq<char>, Seq<char>)>,
    pub data: Seq<u8>,
}

impl ArmorView {
    /// What has come out so far: nothing before the first octet.
    pub open spec fn sent(self) -> Seq<u8> {
        if self.data.len() == 0 {
            Seq::empty()
        } else {
            armor_head(self.kind, self.headers) + base64_lines(self.data)
        }
    }

    /// What comes out at the end.
    pub open spec fn rest(self, checksum: bool) -> Seq<u8> {
        if self.data.len() == 0 {
            Seq::empty()
        } else {
            base64_tail(self.data) + (if checksum {
                crc24_line(self.data)
            } else {
                Seq::empty()
            }) + armor_foot(self.kind)
        }
    }

    /// The same writer after some more data.
    pub open spec fn push(self, more: Seq<u8>) -> ArmorView {
        ArmorView { data: self.data + more, ..self }
    }
}

/// Writes an ASCII armor.
pub struct ArmorWriter {
    kind: Kind,
    headers: Vec<(String, String)>,
    /// Up to two octets that wait for the rest of their group.
    stash: Vec<u8>,
    /// How many octets of the current line have been taken.
    column: usize,
    started: bool,
    crc: u32,
    data: Ghost<Seq<u8>>,
}

/// The texts of armor headers.
pub open spec fn header_views(headers: Seq<(String, String)>) -> Seq<(Seq<char>, Seq<char>)> {
    headers.map_values(|h: (String, String)| (h.0@, h.1@))
}

impl View for ArmorWriter {
    type V = ArmorView;

    closed spec fn view(&self) -> ArmorView {
        ArmorView { kind: self.kind, headers: header_views(self.headers@), data: self.data@ }
    }
}

fn sextet_char(n: u8) -> (r: u8)
    requires
        n < 64,
    ensures
        r == base64_char(n as int),
{
    if n < 26 {
        0x41 + n
    } else if n < 52 {
        0x61 + (n - 26)
    } else if n < 62 {
        0x30 + (n - 52)
    } else if n == 62 {
        0x2B
    } else {
        0x2F
    }
}

fn push_three(out: &mut Vec<u8>, a: u8, b: u8, c: u8)
    ensures
        final(out)@ == old(out)@ + base64_three(a, b, c),
{
    out.push(sextet_char(a / 4));
    out.push(sextet_char(a % 4 * 16 + b / 16));
    out.push(sextet_char(b % 16 * 4 + c / 64));
    out.push(sextet_char(c % 64));
    assert(out@ =~= old(out)@ + base64_three(a, b, c));
}

fn shift_crc(c: u32) -> (r: u32)
    ensures
        r == crc24_shift(c),
{
    let d: u32 = c << 1;
    if d & 0x100_0000 != 0 {
        d ^ 0x186_4CFB
    } else {
        d
    }
}

fn step_crc(c: u32, b: u8) -> (r: u32)
    ensures
        r == crc24_step(c, b),
{
    let c1 = shift_crc(shift_crc(shift_crc(shift_crc(c ^ ((b as u32) << 16)))));
    shift_crc(shift_crc(shift_crc(shift_crc(c1))))
}

impl ArmorWriter {
    /// What the private fields hold of the data.
    pub closed spec fn wf(&self) -> bool {
        let n = self.data@.len() as int;
        &&& self.stash@ == self.data@.skip(n - n % 3)
        &&& self.column == n % 48
        &&& self.started == (n > 0)
        &&& self.crc == crc24(self.data@)
    }

    /// Starts an armor.
    pub fn new(kind: Kind, headers: Vec<(String, String)>) -> (r: ArmorWriter)
        ensures
            r.wf(),
            r@ == (ArmorView { kind, headers: header_views(headers@), data: Seq::empty() }),
    {
        let r = ArmorWriter {
            kind,
            headers,
            stash: Vec::new(),
            column: 0,
            started: false,
            crc: CRC24_INIT,
            data: Ghost(Seq::empty()),
        };
        assert(r.stash@ =~= r.data@.skip(0));
        r
    }

    fn push_head(&self, out: &mut Vec<u8>)
        ensures
            final(out)@ == old(out)@ + armor_head(self@.kind, self@.headers),
    {
        let ghost before = out@;
        extend(out, "-----BEGIN PGP ".as_bytes());
        extend(out, self.kind.blurb());
        extend(out, "-----".as_bytes());
        out.push(LF);
        let ghost first = out@;
        proof {
            assert(first =~= before + (text("-----BEGIN PGP ") + self.kind.spec_blurb() + text(
                "-----",
            ) + seq![LF]));
            assert(header_views(self.headers@.take(0)) =~= Seq::empty());
            assert(first + header_lines(header_views(self.headers@.take(0))) =~= first);
        }
        let mut i: usize = 0;
        while i < self.headers.len()
            invariant
                i <= self.headers@.len(),
                out@ == first + header_lines(header_views(self.headers@.take(i as int))),
            decreases self.headers@.len() - i,
        {
            let ghost so_far = out@;
            let h = &self.headers[i];
            extend(out, h.0.as_str().as_bytes());
            extend(out, ": ".as_bytes());
            extend(out, h.1.as_str().as_bytes());
            out.push(LF);
            proof {
                let now = header_views(self.headers@.take(i + 1));
                let was = header_views(self.headers@.take(i as int));
                assert(now.drop_last() =~= was);
                assert(now.last() == (h.0@, h.1@));
                assert(out@ =~= first + header_lines(now));
            }
            i = i + 1;
        }
        out.push(LF);
        proof {
            assert(self.headers@.take(self.headers@.len() as int) =~= self.headers@);
            assert(out@ =~= before + armor_head(self@.kind, self@.headers));
        }
    }

    #[verifier::spinoff_prover]
    #[verifier::rlimit(60)]
    fn push_octet(&mut self, out: &mut Vec<u8>, b: u8)
        requires
            old(self).wf(),
        ensures
            final(self).wf(),
            final(self)@ == old(self)@.push(seq![b]),
            exists|more: Seq<u8>|
                final(out)@ == old(out)@ + more && final(self)@.sent() == old(self)@.sent() + more,
    {
        let ghost data = self.data@;
        let ghost n = data.len() as int;
        let ghost was = self@;
        let ghost before = out@;
        if !self.started {
            self.push_head(out);
            self.started = true;
        }
        let ghost headed = out@;
        self.crc = step_crc(self.crc, b);
        self.stash.push(b);
        self.column = self.column + 1;
        if self.stash.len() == 3 {
            push_three(out, self.stash[0], self.stash[1], self.stash[2]);
            self.stash = Vec::new();
            if self.column == 48 {
                out.push(LF);
                self.column = 0;
            }
        }
        proof {
            self.data@ = data + seq![b];
            let now = self.data@;
            assert(now.drop_last() =~= data);
            assert(self.stash@ =~= now.skip((n + 1) - (n + 1) % 3));
            assert(self@ =~= was.push(seq![b]));
            let head = if n == 0 {
                armor_head(was.kind, was.headers)
            } else {
                Seq::empty()
            };
            assert(headed =~= before + head);
            let group = if (n + 1) % 3 == 0 {
                base64_three(now[n - 2], now[n - 1], now[n]) + (if (n + 1) % 48 == 0 {
                    seq![LF]
                } else {
                    Seq::empty()
                })
            } else {
                Seq::empty()
            };
            assert(out@ =~= before + (head + group));
            assert(base64_lines(now) =~= base64_lines(data) + group);
            assert(self@.sent() =~= was.sent() + (head + group));
        }
    }

    /// Continues the data, and returns what is to be sent now.
    #[verifier::rlimit(40)]
    pub fn push(&mut self, data: &[u8]) -> (out: Vec<u8>)
        requires
            old(self).wf(),
        ensures
            final(self).wf(),
            final(self)@ == old(self)@.push(data@),
            final(self)@.sent() == old(self)@.sent() + out@,
    {
        let mut out: Vec<u8> = Vec::new();
        let mut i: usize = 0;
        let ghost was = self@;
        proof {
            assert(was.push(data@.take(0)) =~= was);
            assert(was.sent() + out@ =~= was.sent());
        }
        while i < data.len()
            invariant
                i <= data@.len(),
                self.wf(),
                self@ == was.push(data@.take(i as int)),
                self@.sent() == was.sent() + out@,
            decreases data@.len() - i,
        {
            let ghost so_far = out@;
            let ghost current = self@;
            self.push_octet(&mut out, data[i]);
            proof {
                let more = choose|more: Seq<u8>|
                    out@ == so_far + more && self@.sent() == current.sent() + more;
                assert((was.sent() + so_far) + more =~= was.sent() + (so_far + more));
                assert(data@.take(i as int) + seq![data@[i as int]] =~= data@.take(i + 1));
                assert((was.data + data@.take(i as int)) + seq![data@[i as int]] =~= was.data + (
                data@.take(i as int) + seq![data@[i as int]]));
            }
            i = i + 1;
        }
        assert(data@.take(data@.len() as int) =~= data@);
        out
    }

    #[verifier::spinoff_prover]
    #[verifier::rlimit(40)]
    fn tail(&self) -> (out: Vec<u8>)
        requires
            self.wf(),
        ensures
            out@ == base64_tail(self@.data),
    {
        let ghost n = self.data@.len() as int;
        let ghost k = n % 3;
        proof {
            assert(self.stash@.len() == k);
            assert(k > 0 ==> self.stash@[0] == self.data@[n - k]);
            assert(k > 1 ==> self.stash@[1] == self.data@[n - 1]);
        }
        let mut out: Vec<u8> = Vec::new();
        if self.stash.len() == 1 {
            let a: u8 = self.stash[0];
            out.push(sextet_char(a / 4));
            out.push(sextet_char(a % 4 * 16));
            out.push(0x3D);
            out.push(0x3D);
        } else if self.stash.len() == 2 {
            let a: u8 = self.stash[0];
            let b: u8 = self.stash[1];
            out.push(sextet_char(a / 4));
            out.push(sextet_char(a % 4 * 16 + b / 16));
            out.push(sextet_char(b % 16 * 4));
            out.push(0x3D);
        }
        if self.column != 0 {
            out.push(LF);
        }
        assert(out@ =~= base64_tail(self@.data));
        out
    }

    #[verifier::spinoff_prover]
    fn sum_line(&self) -> (out: Vec<u8>)
        requires
            self.wf(),
        ensures
            out@ == crc24_line(self@.data),
    {
        let mut out: Vec<u8> = Vec::new();
        out.push(0x3D);
        push_three(
            &mut out,
            (self.crc / 0x1_0000 % 0x100) as u8,
            (self.crc / 0x100 % 0x100) as u8,
            (self.crc % 0x100) as u8,
        );
        out.push(LF);
        assert(out@ =~= crc24_line(self@.data));
        out
    }

    /// Ends the armor, and returns what is still to be sent.
    #[verifier::spinoff_prover]
    #[verifier::rlimit(40)]
    pub fn finish(self, checksum: bool) -> (out: Vec<u8>)
        requires
            self.wf(),
        ensures
            out@ == self@.rest(checksum),
    {
        if !self.started {
            let none: Vec<u8> = Vec::new();
            assert(none@ =~= self@.rest(checksum));
            return none;
        }
        let mut out = self.tail();
        if checksum {
            let line = self.sum_line();
            extend(&mut out, line.as_slice());
        }
        let ghost first = out@;
        extend(&mut out, "-----END PGP ".as_bytes());
        extend(&mut out, self.kind.blurb());
        extend(&mut out, "-----".as_bytes());
        out.push(LF);
        assert(out@ =~= first + armor_foot(self@.kind));
        assert(first =~= base64_tail(self@.data) + (if checksum {
            crc24_line(self@.data)
        } else {
            Seq::empty()
        }));
        out
    }
}

/// Reads base64: line ends are skipped, `=` ends the text, and `held` holds
/// the sextets that wait for the rest of their group.
pub open spec fn base64_read(held: Seq<int>, s: Seq<u8>) -> Option<Seq<u8>>
    decreases s.len(),
{
    if s.len() == 0 || s[0] == 0x3D {
        if held.len() == 0 {
            Some(Seq::empty())
        } else if held.len() == 2 {
            Some(seq![(held[0] * 4 + held[1] / 16) as u8])
        } else if held.len() == 3 {
            Some(seq![(held[0] * 4 + held[1] / 16) as u8, (held[1] % 16 * 16 + held[2] / 4) as u8])
        } else {
            None
        }
    } else if s[0] == LF {
        base64_read(held, s.skip(1))
    } else {
        match base64_sextet(s[0]) {
            None => None,
            Some(n) => if held.len() < 3 {
                base64_read(held.push(n), s.skip(1))
            } else {
                match base64_read(Seq::empty(), s.skip(1)) {
                    None => None,
                    Some(more) => Some(
                        seq![
                            (held[0] * 4 + held[1] / 16) as u8,
                            (held[1] % 16 * 16 + held[2] / 4) as u8,
                            (held[2] % 4 * 64 + n) as u8,
                        ] + more,
                    ),
                }
            },
        }
    }
}

proof fn lemma_sextet(n: int)
    requires
        0 <= n < 64,
    ensures
        base64_sextet(base64_char(n)) == Some(n),
        base64_char(n) != LF,
        base64_char(n) != 0x3D,
{
}

#[verifier::rlimit(40)]
proof fn lemma_read_three(a: u8, b: u8, c: u8, rest: Seq<u8>)
    ensures
        base64_read(Seq::empty(), base64_three(a, b, c) + rest) == match base64_read(
            Seq::empty(),
            rest,
        ) {
            None => None::<Seq<u8>>,
            Some(more) => Some(seq![a, b, c] + more),
        },
{
    let s = base64_three(a, b, c) + rest;
    let n0 = a as int / 4;
    let n1 = a as int % 4 * 16 + b as int / 16;
    let n2 = b as int % 16 * 4 + c as int / 64;
    let n3 = c as int % 64;
    lemma_sextet(n0);
    lemma_sextet(n1);
    lemma_sextet(n2);
    lemma_sextet(n3);
    let s1 = s.skip(1);
    let s2 = s1.skip(1);
    let s3 = s2.skip(1);
    assert(s[0] == base64_char(n0));
    assert(s1[0] == base64_char(n1));
    assert(s2[0] == base64_char(n2));
    assert(s3[0] == base64_char(n3));
    assert(s3.skip(1) =~= rest);
    let h0 = Seq::<int>::empty();
    let h1 = h0.push(n0);
    let h2 = h1.push(n1);
    let h3 = h2.push(n2);
    assert(base64_read(h0, s) == base64_read(h1, s1));
    assert(base64_read(h1, s1) == base64_read(h2, s2));
    assert(base64_read(h2, s2) == base64_read(h3, s3));
    assert((n0 * 4 + n1 / 16) as u8 == a);
    assert((n1 % 16 * 16 + n2 / 4) as u8 == b);
    assert((n2 % 4 * 64 + n3) as u8 == c);
}

/// What ends the line after `n` octets, if the line ends there.
spec fn line_end(n: int) -> Seq<u8> {
    if n % 48 == 0 {
        seq![LF]
    } else {
        Seq::empty()
    }
}

proof fn lemma_lines_group(data: Seq<u8>)
    requires
        data.len() >= 3,
        data.len() % 3 == 0,
    ensures
        ({
            let n = data.len() as int;
            base64_lines(data) == base64_lines(data.take(n - 3)) + base64_three(
                data[n - 3],
                data[n - 2],
                data[n - 1],
            ) + line_end(n)
        }),
{
    let n = data.len() as int;
    let one = data.drop_last();
    let two = one.drop_last();
    assert(two.drop_last() =~= data.take(n - 3));
    if n == 3 {
        assert(base64_lines(one) =~= Seq::<u8>::empty());
        assert(base64_lines(data.take(0)) =~= Seq::<u8>::empty());
    } else {
        assert(base64_lines(one) == base64_lines(two));
        assert(base64_lines(two) == base64_lines(two.drop_last()));
    }
}

proof fn lemma_read_line_end(n: int, rest: Seq<u8>)
    ensures
        base64_read(Seq::empty(), line_end(n) + rest) == base64_read(Seq::empty(), rest),
{
    if n % 48 == 0 {
        assert((line_end(n) + rest).skip(1) =~= rest);
    } else {
        assert(line_end(n) + rest =~= rest);
    }
}

#[verifier::spinoff_prover]
#[verifier::rlimit(60)]
proof fn lemma_read_lines(data: Seq<u8>, rest: Seq<u8>, more: Seq<u8>)
    requires
        base64_read(Seq::empty(), rest) == Some(more),
    ensures
        base64_read(Seq::empty(), base64_lines(data) + rest) == Some(
            data.take(data.len() - data.len() % 3) + more,
        ),
    decreases data.len(),
{
    let n = data.len() as int;
    if n < 3 {
        assert(base64_lines(data) + rest =~= rest);
        assert(data.take(0) + more =~= more);
    } else if n % 3 != 0 {
        lemma_read_lines(data.drop_last(), rest, more);
        assert(data.drop_last().take(n - n % 3) =~= data.take(n - n % 3));
    } else {
        let init = data.take(n - 3);
        let a = data[n - 3];
        let b = data[n - 2];
        let c = data[n - 1];
        let tail = line_end(n) + rest;
        let group = base64_three(a, b, c);
        lemma_read_line_end(n, rest);
        lemma_read_three(a, b, c, tail);
        lemma_read_lines(init, group + tail, seq![a, b, c] + more);
        lemma_lines_group(data);
        lemma_regroup(base64_lines(init), group, line_end(n), rest);
        assert(init.take(n - 3) =~= init);
        assert(init + (seq![a, b, c] + more) =~= data + more);
        assert(data.take(n) =~= data);
    }
}

proof fn lemma_regroup(a: Seq<u8>, b: Seq<u8>, c: Seq<u8>, d: Seq<u8>)
    ensures
        a + b + c + d == a + (b + (c + d)),
{
    assert(a + b + c + d =~= a + (b + (c + d)));
}

/// Reading the base64 part of an armor gives back the data.
#[verifier::rlimit(40)]
pub proof fn law_base64_reads_back(data: Seq<u8>)
    ensures
        base64_read(Seq::empty(), base64_lines(data) + base64_tail(data)) == Some(data),
{
    let n = data.len() as int;
    let tail = base64_tail(data);
    let k = n - n % 3;
    let last = data.skip(k);
    reveal_with_fuel(base64_read, 4);
    if n % 3 == 1 {
        let a = data[n - 1];
        lemma_sextet(a as int / 4);
        lemma_sextet(a as int % 4 * 16);
        assert(tail.skip(1)[0] == base64_char(a as int % 4 * 16));
        assert(tail.skip(1).skip(1)[0] == 0x3D);
        assert((a as int / 4 * 4 + a as int % 4 * 16 / 16) as u8 == a);
        assert(last =~= seq![a]);
    } else if n % 3 == 2 {
        let a = data[n - 2];
        let b = data[n - 1];
        let n1 = a as int % 4 * 16 + b as int / 16;
        let n2 = b as int % 16 * 4;
        lemma_sextet(a as int / 4);
        lemma_sextet(n1);
        lemma_sextet(n2);
        assert(tail.skip(1)[0] == base64_char(n1));
        assert(tail.skip(1).skip(1)[0] == base64_char(n2));
        assert(tail.skip(1).skip(1).skip(1)[0] == 0x3D);
        assert((a as int / 4 * 4 + n1 / 16) as u8 == a);
        assert((n1 % 16 * 16 + n2 / 4) as u8 == b);
        assert(last =~= seq![a, b]);
    } else {
        if n % 48 != 0 {
            assert(tail.skip(1) =~= Seq::<u8>::empty());
        }
        assert(last =~= Seq::<u8>::empty());
    }
    assert(base64_read(Seq::empty(), tail) == Some(last));
    lemma_read_lines(data, tail, last);
    assert(data.take(k) + last =~= data);
}

} // verus!
