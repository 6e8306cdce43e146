//! Filters for lines of text: normalized line endings, dash-escapes and
//! trailing whitespace.

use vstd::prelude::*;

use crate::bytes::extend;

verus! {

pub const CR: u8 = 0x0D;

pub const LF: u8 = 0x0A;

pub const DASH: u8 = 0x2D;

pub const SPACE: u8 = 0x20;

pub const TAB: u8 = 0x09;

/// Line endings of any convention, read octet by octet, become CR LF.  `cr`
/// says whether the octet before was a CR.
pub open spec fn normalize_step(cr: bool, b: u8) -> (bool, Seq<u8>) {
    if b == CR {
        (true, seq![CR, LF])
    } else if b == LF {
        (false, if cr {
            Seq::empty()
        } else {
            seq![CR, LF]
        })
    } else {
        (false, seq![b])
    }
}

/// Normalizes the line endings of `data`.
pub open spec fn normalize(cr: bool, data: Seq<u8>) -> (bool, Seq<u8>)
    decreases data.len(),
{
    if data.len() == 0 {
        (cr, Seq::empty())
    } else {
        let (c, out) = normalize(cr, data.drop_last());
        let (c2, more) = normalize_step(c, data.last());
        (c2, out + more)
    }
}

/// Normalizes the line endings of `data`.
pub fn normalize_text(cr: bool, data: &[u8]) -> (r: (bool, Vec<u8>))
    ensures
        r.0 == normalize(cr, data@).0,
        r.1@ == normalize(cr, data@).1,
{
    let mut out: Vec<u8> = Vec::new();
    let mut last: bool = cr;
    let mut i: usize = 0;
    proof {
        assert(data@.take(0) =~= Seq::<u8>::empty());
    }
    while i < data.len()
        invariant
            i <= data@.len(),
            last == normalize(cr, data@.take(i as int)).0,
            out@ == normalize(cr, data@.take(i as int)).1,
        decreases data@.len() - i,
    {
        let b: u8 = data[i];
        let ghost before = out@;
        proof {
            assert(data@.take(i + 1).drop_last() =~= data@.take(i as int));
            assert(data@.take(i + 1).last() == b);
        }
        if b == CR {
            out.push(CR);
            out.push(LF);
            last = true;
        } else if b == LF {
            if !last {
                out.push(CR);
                out.push(LF);
            }
            last = false;
        } else {
            out.push(b);
            last = false;
        }
        i = i + 1;
        assert(out@ =~= normalize(cr, data@.take(i as int)).1);
    }
    assert(data@.take(data@.len() as int) =~= data@);
    (last, out)
}

/// Line endings are normalized in the same way however the text is cut into
/// pieces.
pub proof fn law_normalize_pieces(cr: bool, a: Seq<u8>, b: Seq<u8>)
    ensures
        normalize(cr, a + b).0 == normalize(normalize(cr, a).0, b).0,
        normalize(cr, a + b).1 == normalize(cr, a).1 + normalize(normalize(cr, a).0, b).1,
    decreases b.len(),
{
    if b.len() == 0 {
        assert(a + b =~= a);
        assert(normalize(cr, a).1 + Seq::<u8>::empty() =~= normalize(cr, a).1);
    } else {
        assert((a + b).drop_last() =~= a + b.drop_last());
        law_normalize_pieces(cr, a, b.drop_last());
        let (c, out) = normalize(normalize(cr, a).0, b.drop_last());
        let more = normalize_step(c, b.last()).1;
        assert((normalize(cr, a).1 + out) + more =~= normalize(cr, a).1 + (out + more));
    }
}

/// Normalized text is its own normal form.
pub proof fn law_normalize_idempotent(data: Seq<u8>)
    ensures
        normalize(false, normalize(false, data).1).1 == normalize(false, data).1,
        normalize(false, normalize(false, data).1).0 == false,
    decreases data.len(),
{
    if data.len() > 0 {
        law_normalize_idempotent(data.drop_last());
        let (c, out) = normalize(false, data.drop_last());
        let more = normalize_step(c, data.last()).1;
        law_normalize_pieces(false, out, more);
        reveal_with_fuel(normalize, 3);
        if more.len() == 2 {
            assert(more.drop_last() =~= seq![CR]);
            assert(more.drop_last().drop_last() =~= Seq::<u8>::empty());
            assert(normalize(false, more).1 =~= seq![CR, LF]);
        } else if more.len() == 1 {
            assert(more.drop_last() =~= Seq::<u8>::empty());
            assert(normalize(false, more).1 =~= more);
        } else {
            assert(normalize(false, more).1 =~= more);
        }
    }
}

/// Whether a line is dash-escaped.
pub open spec fn needs_dash(line: Seq<u8>) -> bool {
    (line.len() > 0 && line[0] == DASH) || (line.len() >= 5 && line.take(5) =~= seq![
        0x46u8,
        0x72,
        0x6F,
        0x6D,
        0x20,
    ])
}

/// A line, dash-escaped where it must be.
pub open spec fn dashed(line: Seq<u8>) -> Seq<u8> {
    if needs_dash(line) {
        seq![DASH, SPACE] + line
    } else {
        line
    }
}

/// A line without its dash-escape.
pub open spec fn undashed(line: Seq<u8>) -> Seq<u8> {
    if line.len() >= 2 && line[0] == DASH && line[1] == SPACE {
        line.skip(2)
    } else {
        line
    }
}

/// The lines of `data`, each with its LF, put through `dashed`; `line` is
/// the line that has begun.  Returns the line that has begun after `data`,
/// and what has come out.
pub open spec fn dash_escape(line: Seq<u8>, data: Seq<u8>) -> (Seq<u8>, Seq<u8>)
    decreases data.len(),
{
    if data.len() == 0 {
        (line, Seq::empty())
    } else {
        let (l, out) = dash_escape(line, data.drop_last());
        if data.last() == LF {
            (Seq::empty(), out + dashed(l.push(LF)))
        } else {
            (l.push(data.last()), out)
        }
    }
}

/// The lines of `data`, each with its LF, put through `undashed`.
pub open spec fn dash_unescape(line: Seq<u8>, data: Seq<u8>) -> (Seq<u8>, Seq<u8>)
    decreases data.len(),
{
    if data.len() == 0 {
        (line, Seq::empty())
    } else {
        let (l, out) = dash_unescape(line, data.drop_last());
        if data.last() == LF {
            (Seq::empty(), out + undashed(l.push(LF)))
        } else {
            (l.push(data.last()), out)
        }
    }
}

fn push_dashed(out: &mut Vec<u8>, line: &[u8])
    ensures
        final(out)@ == old(out)@ + dashed(line@),
{
    let mut escape = false;
    if line.len() > 0 && line[0] == DASH {
        escape = true;
    }
    if line.len() >= 5 && line[0] == 0x46 && line[1] == 0x72 && line[2] == 0x6F && line[3] == 0x6D
        && line[4] == 0x20 {
        assert(line@.take(5) =~= seq![0x46u8, 0x72, 0x6F, 0x6D, 0x20]);
        escape = true;
    }
    if escape {
        out.push(DASH);
        out.push(SPACE);
    }
    extend(out, line);
    proof {
        if line@.len() >= 5 && line@.take(5) =~= seq![0x46u8, 0x72, 0x6F, 0x6D, 0x20] {
            assert(forall|j: int| 0 <= j < 5 ==> line@[j] == line@.take(5)[j]);
        }
        assert(escape == needs_dash(line@));
    }
    assert(out@ =~= old(out)@ + dashed(line@));
}

/// Dash-escapes text.
pub struct DashEscapeFilter {
    line: Vec<u8>,
}

impl View for DashEscapeFilter {
    type V = Seq<u8>;

    /// The line that has begun.
    closed spec fn view(&self) -> Seq<u8> {
        self.line@
    }
}

impl DashEscapeFilter {
    /// Starts a text.
    pub fn new() -> (r: DashEscapeFilter)
        ensures
            r@ == Seq::<u8>::empty(),
    {
        DashEscapeFilter { line: Vec::new() }
    }

    /// Continues the text, and returns the lines that are complete.
    pub fn push(&mut self, data: &[u8]) -> (out: Vec<u8>)
        ensures
            final(self)@ == dash_escape(old(self)@, data@).0,
            out@ == dash_escape(old(self)@, data@).1,
    {
        let mut out: Vec<u8> = Vec::new();
        let mut i: usize = 0;
        let ghost line = self.line@;
        proof {
            assert(data@.take(0) =~= Seq::<u8>::empty());
        }
        while i < data.len()
            invariant
                i <= data@.len(),
                self.line@ == dash_escape(line, data@.take(i as int)).0,
                out@ == dash_escape(line, data@.take(i as int)).1,
            decreases data@.len() - i,
        {
            let b: u8 = data[i];
            proof {
                assert(data@.take(i + 1).drop_last() =~= data@.take(i as int));
                assert(data@.take(i + 1).last() == b);
            }
            self.line.push(b);
            if b == LF {
                push_dashed(&mut out, self.line.as_slice());
                self.line = Vec::new();
                assert(self.line@ =~= Seq::<u8>::empty());
            }
            i = i + 1;
        }
        assert(data@.take(data@.len() as int) =~= data@);
        out
    }

    /// Ends the text, and returns the last line if it has no LF.
    pub fn finish(self) -> (out: Vec<u8>)
        ensures
            out@ == dashed(self@),
    {
        let mut out: Vec<u8> = Vec::new();
        push_dashed(&mut out, self.line.as_slice());
        assert(out@ =~= dashed(self@));
        out
    }
}

proof fn lemma_unescape_pieces(line: Seq<u8>, a: Seq<u8>, b: Seq<u8>)
    ensures
        dash_unescape(line, a + b).0 == dash_unescape(dash_unescape(line, a).0, b).0,
        dash_unescape(line, a + b).1 == dash_unescape(line, a).1 + dash_unescape(
            dash_unescape(line, a).0,
            b,
        ).1,
    decreases b.len(),
{
    if b.len() == 0 {
        assert(a + b =~= a);
        assert(dash_unescape(line, a).1 + Seq::<u8>::empty() =~= dash_unescape(line, a).1);
    } else {
        assert((a + b).drop_last() =~= a + b.drop_last());
        lemma_unescape_pieces(line, a, b.drop_last());
        let (l, out) = dash_unescape(dash_unescape(line, a).0, b.drop_last());
        let more = undashed(l.push(LF));
        assert((dash_unescape(line, a).1 + out) + more =~= dash_unescape(line, a).1 + (out + more));
    }
}

proof fn lemma_unescape_line(line: Seq<u8>, data: Seq<u8>)
    requires
        forall|j: int| 0 <= j < data.len() ==> data[j] != LF,
    ensures
        dash_unescape(line, data) == (line + data, Seq::<u8>::empty()),
    decreases data.len(),
{
    if data.len() == 0 {
        assert(line + data =~= line);
    } else {
        lemma_unescape_line(line, data.drop_last());
        assert((line + data.drop_last()).push(data.last()) =~= line + data);
    }
}

/// Reading a line without its dash-escape gives the line.
proof fn lemma_undash(line: Seq<u8>)
    ensures
        undashed(dashed(line)) == line,
{
    assert((seq![DASH, SPACE] + line).skip(2) =~= line);
}

/// The line that has begun holds no LF.
proof fn lemma_begun_line(line: Seq<u8>, data: Seq<u8>)
    requires
        forall|j: int| 0 <= j < line.len() ==> line[j] != LF,
    ensures
        forall|j: int|
            0 <= j < dash_escape(line, data).0.len() ==> dash_escape(line, data).0[j] != LF,
    decreases data.len(),
{
    if data.len() > 0 {
        lemma_begun_line(line, data.drop_last());
        let l = dash_escape(line, data.drop_last()).0;
        if data.last() != LF {
            let longer = l.push(data.last());
            assert forall|j: int| 0 <= j < longer.len() implies longer[j] != LF by {
                if j < l.len() {
                    assert(longer[j] == l[j]);
                }
            }
            assert(dash_escape(line, data).0 == longer);
        }
    }
}

/// Removing the dash-escapes of an escaped text gives back the text.
pub proof fn law_dash_escape_reads_back(data: Seq<u8>)
    ensures
        ({
            let (begun, out) = dash_escape(Seq::empty(), data);
            let (last, text) = dash_unescape(Seq::empty(), out + dashed(begun));
            text + undashed(last) == data
        }),
{
    lemma_escape_reads_back(data);
    let (begun, out) = dash_escape(Seq::empty(), data);
    lemma_begun_line(Seq::empty(), data);
    lemma_unescape_pieces(Seq::empty(), out, dashed(begun));
    assert(forall|j: int| 0 <= j < dashed(begun).len() ==> dashed(begun)[j] != LF);
    lemma_unescape_line(Seq::empty(), dashed(begun));
    assert(Seq::<u8>::empty() + dashed(begun) =~= dashed(begun));
    lemma_undash(begun);
    let text = dash_unescape(Seq::empty(), out).1;
    assert(text + Seq::<u8>::empty() =~= text);
}

proof fn lemma_escape_reads_back(data: Seq<u8>)
    ensures
        ({
            let (begun, out) = dash_escape(Seq::empty(), data);
            let (last, text) = dash_unescape(Seq::empty(), out);
            last == Seq::<u8>::empty() && text + begun == data
        }),
    decreases data.len(),
{
    if data.len() == 0 {
        assert(Seq::<u8>::empty() + Seq::<u8>::empty() =~= data);
    } else {
        let init = data.drop_last();
        lemma_escape_reads_back(init);
        let (begun, out) = dash_escape(Seq::empty(), init);
        let text = dash_unescape(Seq::empty(), out).1;
        assert(text + begun == init);
        assert((text + begun).push(data.last()) =~= data);
        assert((text + begun).push(data.last()) =~= text + begun.push(data.last()));
        if data.last() == LF {
            let line = dashed(begun.push(LF));
            lemma_begun_line(Seq::empty(), init);
            lemma_unescape_pieces(Seq::empty(), out, line);
            assert(forall|j: int| 0 <= j < line.drop_last().len() ==> line.drop_last()[j] != LF);
            lemma_unescape_line(Seq::empty(), line.drop_last());
            assert(Seq::<u8>::empty() + line.drop_last() =~= line.drop_last());
            assert(line.drop_last().push(LF) =~= line);
            lemma_undash(begun.push(LF));
            assert(Seq::<u8>::empty() + begun.push(LF) =~= begun.push(LF));
            assert(text + begun.push(LF) + Seq::<u8>::empty() =~= data);
        }
    }
}

/// A line without the spaces and tabs at its end.
pub open spec fn trim_end(line: Seq<u8>) -> Seq<u8>
    decreases line.len(),
{
    if line.len() > 0 && (line.last() == SPACE || line.last() == TAB) {
        trim_end(line.drop_last())
    } else {
        line
    }
}

/// A line, given without its LF, trimmed and ended as it was ended.
pub open spec fn trimmed(line: Seq<u8>) -> Seq<u8> {
    if line.len() > 0 && line.last() == CR {
        trim_end(line.drop_last()) + seq![CR, LF]
    } else {
        trim_end(line) + seq![LF]
    }
}

/// The lines of `data` put through `trimmed`; `line` is the line that has
/// begun.
pub open spec fn trim_lines(line: Seq<u8>, data: Seq<u8>) -> (Seq<u8>, Seq<u8>)
    decreases data.len(),
{
    if data.len() == 0 {
        (line, Seq::empty())
    } else {
        let (l, out) = trim_lines(line, data.drop_last());
        if data.last() == LF {
            (Seq::empty(), out + trimmed(l))
        } else {
            (l.push(data.last()), out)
        }
    }
}

/// What is sent of a last line that has no LF.
pub open spec fn trim_last(line: Seq<u8>) -> Seq<u8> {
    if line.len() == 0 {
        Seq::empty()
    } else {
        trimmed(line)
    }
}

fn push_trimmed(out: &mut Vec<u8>, line: &[u8])
    ensures
        final(out)@ == old(out)@ + trimmed(line@),
{
    let crlf: bool = line.len() > 0 && line[line.len() - 1] == CR;
    let mut n: usize = if crlf {
        line.len() - 1
    } else {
        line.len()
    };
    let ghost body = line@.take(n as int);
    proof {
        assert(body.take(n as int) =~= body);
        if crlf {
            assert(body =~= line@.drop_last());
        } else {
            assert(body =~= line@);
        }
    }
    while n > 0 && (line[n - 1] == SPACE || line[n - 1] == TAB)
        invariant
            n <= body.len() <= line@.len(),
            body == line@.take(body.len() as int),
            trim_end(body.take(n as int)) == trim_end(body),
        decreases n,
    {
        n = n - 1;
        assert(body.take(n + 1).drop_last() =~= body.take(n as int));
    }
    proof {
        if n > 0 {
            assert(body.take(n as int).last() == line@[n - 1]);
        }
        assert(trim_end(body) == body.take(n as int));
    }
    let kept = crate::bytes::copy_range(line, 0, n);
    assert(kept@ =~= body.take(n as int));
    extend(out, kept.as_slice());
    if crlf {
        out.push(CR);
    }
    out.push(LF);
    assert(out@ =~= old(out)@ + trimmed(line@));
}

/// Strips trailing whitespace from every line, and adds a final LF if it is
/// missing.
pub struct TrailingWSFilter {
    line: Vec<u8>,
}

impl View for TrailingWSFilter {
    type V = Seq<u8>;

    /// The line that has begun.
    closed spec fn view(&self) -> Seq<u8> {
        self.line@
    }
}

impl TrailingWSFilter {
    /// Starts a text.
    pub fn new() -> (r: TrailingWSFilter)
        ensures
            r@ == Seq::<u8>::empty(),
    {
        TrailingWSFilter { line: Vec::new() }
    }

    /// Continues the text, and returns the lines that are complete.
    pub fn push(&mut self, data: &[u8]) -> (out: Vec<u8>)
        ensures
            final(self)@ == trim_lines(old(self)@, data@).0,
            out@ == trim_lines(old(self)@, data@).1,
    {
        let mut out: Vec<u8> = Vec::new();
        let mut i: usize = 0;
        let ghost line = self.line@;
        proof {
            assert(data@.take(0) =~= Seq::<u8>::empty());
        }
        while i < data.len()
            invariant
                i <= data@.len(),
                self.line@ == trim_lines(line, data@.take(i as int)).0,
                out@ == trim_lines(line, data@.take(i as int)).1,
            decreases data@.len() - i,
        {
            let b: u8 = data[i];
            proof {
                assert(data@.take(i + 1).drop_last() =~= data@.take(i as int));
                assert(data@.take(i + 1).last() == b);
            }
            if b == LF {
                push_trimmed(&mut out, self.line.as_slice());
                self.line = Vec::new();
                assert(self.line@ =~= Seq::<u8>::empty());
            } else {
                self.line.push(b);
            }
            i = i + 1;
        }
        assert(data@.take(data@.len() as int) =~= data@);
        out
    }

    /// Ends the text, and returns the last line if it has no LF.
    pub fn finish(self) -> (out: Vec<u8>)
        ensures
            out@ == trim_last(self@),
    {
        let mut out: Vec<u8> = Vec::new();
        if self.line.len() > 0 {
            push_trimmed(&mut out, self.line.as_slice());
        }
        assert(out@ =~= trim_last(self@));
        out
    }
}

} // verus!
