//! Laws on what becomes of the lines of a text: when their ends are
//! normalized, when blanks at their ends are trimmed, and when they are
//! dash-escaped.

use vstd::prelude::*;

use crate::laws::{law_dash_pieces, law_trim_pieces};
use crate::signed::{dash_escaped, trim_text};
use crate::textfilter::{
    dash_escape, dashed, law_normalize_pieces, needs_dash, normalize, normalize_step, trim_end,
    trim_last, trim_lines, trimmed,
};

verus! {

/// Everything but CR and LF.
pub open spec fn without_line_ends(s: Seq<u8>) -> Seq<u8> {
    s.filter(|b: u8| b != 0x0D && b != 0x0A)
}

/// Whether a line holds neither CR nor LF.
pub open spec fn is_bare(line: Seq<u8>) -> bool {
    forall|i: int| 0 <= i < line.len() ==> (#[trigger] line[i]) != 0x0D && line[i] != 0x0A
}

/// Whether these octets end a line: CR LF, LF or CR.
pub open spec fn is_line_end(end: Seq<u8>) -> bool {
    end == seq![0x0Du8, 0x0A] || end == seq![0x0Au8] || end == seq![0x0Du8]
}

/// Lines, each with its end.
pub open spec fn lines_with_ends(lines: Seq<Seq<u8>>, ends: Seq<Seq<u8>>) -> Seq<u8>
    decreases lines.len(),
{
    if lines.len() == 0 {
        Seq::empty()
    } else {
        lines_with_ends(lines.drop_last(), ends) + lines.last() + ends[lines.len() - 1]
    }
}

/// Lines, each with the same end.
pub open spec fn lines_ended_by(lines: Seq<Seq<u8>>, end: Seq<u8>) -> Seq<u8> {
    lines_with_ends(lines, Seq::new(lines.len(), |i: int| end))
}

proof fn lemma_filter_one(b: u8)
    ensures
        b != 0x0D && b != 0x0A ==> without_line_ends(seq![b]) == seq![b],
        without_line_ends(seq![0x0Du8]) == Seq::<u8>::empty(),
        without_line_ends(seq![0x0Au8]) == Seq::<u8>::empty(),
        without_line_ends(seq![0x0Du8, 0x0A]) == Seq::<u8>::empty(),
        without_line_ends(Seq::empty()) == Seq::<u8>::empty(),
{
    reveal_with_fuel(Seq::filter, 3);
    assert(seq![b].drop_last() =~= Seq::<u8>::empty());
    assert(Seq::<u8>::empty().push(b) =~= seq![b]);
    assert(seq![0x0Du8].drop_last() =~= Seq::<u8>::empty());
    assert(seq![0x0Au8].drop_last() =~= Seq::<u8>::empty());
    assert(seq![0x0Du8, 0x0A].drop_last() =~= seq![0x0Du8]);
}

/// Normalizing changes nothing but the ends of lines: without CR and LF, a text
/// is the same before and after.
#[verifier::spinoff_prover]
#[verifier::rlimit(40)]
pub proof fn law_normalizing_changes_line_ends_only(cr: bool, data: Seq<u8>)
    ensures
        without_line_ends(normalize(cr, data).1) == without_line_ends(data),
    decreases data.len(),
{
    let keep = |b: u8| b != 0x0D && b != 0x0A;
    if data.len() > 0 {
        let init = data.drop_last();
        let b = data.last();
        law_normalizing_changes_line_ends_only(cr, init);
        let (c, out) = normalize(cr, init);
        let more = normalize_step(c, b).1;
        Seq::filter_distributes_over_add(out, more, keep);
        Seq::filter_distributes_over_add(init, seq![b], keep);
        assert(init + seq![b] =~= data);
        lemma_filter_one(b);
        assert(without_line_ends(more) == without_line_ends(seq![b]));
    }
}

/// A text without CR and LF is its own normal form, and no CR is left open.
pub proof fn law_bare_lines_are_normal(cr: bool, line: Seq<u8>)
    requires
        is_bare(line),
    ensures
        normalize(cr, line).1 == line,
        line.len() > 0 ==> !normalize(cr, line).0,
    decreases line.len(),
{
    if line.len() > 0 {
        let init = line.drop_last();
        assert(line[line.len() - 1] != 0x0D && line[line.len() - 1] != 0x0A);
        assert forall|i: int| 0 <= i < init.len() implies (#[trigger] init[i]) != 0x0D && init[i]
            != 0x0A by {
            assert(line[i] != 0x0D);
        }
        law_bare_lines_are_normal(cr, init);
        assert(init + seq![line.last()] =~= line);
    }
}

/// Whatever the lines of a text end in, they end in CR LF in its normal form,
/// and are the same lines; a last line that does not end stays open.  A CR and an
/// LF with nothing between them are one end of a line.
pub proof fn law_lines_end_in_crlf(lines: Seq<Seq<u8>>, ends: Seq<Seq<u8>>, last: Seq<u8>)
    requires
        forall|i: int| 0 <= i < lines.len() ==> is_bare(#[trigger] lines[i]),
        forall|i: int| 0 <= i < lines.len() ==> is_line_end(#[trigger] ends[i]),
        forall|i: int|
            1 <= i < lines.len() && (#[trigger] lines[i]).len() == 0 && ends[i - 1]
                == seq![0x0Du8] ==> ends[i] != seq![0x0Au8],
        is_bare(last),
    ensures
        normalize(false, lines_with_ends(lines, ends) + last).1 == lines_ended_by(
            lines,
            seq![0x0Du8, 0x0A],
        ) + last,
{
    lemma_lines_end_in_crlf(lines, ends);
    let text = lines_with_ends(lines, ends);
    law_normalize_pieces(false, text, last);
    law_bare_lines_are_normal(normalize(false, text).0, last);
}

proof fn lemma_lines_with_ends(lines: Seq<Seq<u8>>, a: Seq<Seq<u8>>, b: Seq<Seq<u8>>)
    requires
        forall|i: int| 0 <= i < lines.len() ==> #[trigger] a[i] == b[i],
    ensures
        lines_with_ends(lines, a) == lines_with_ends(lines, b),
    decreases lines.len(),
{
    if lines.len() > 0 {
        lemma_lines_with_ends(lines.drop_last(), a, b);
        assert(a[lines.len() - 1] == b[lines.len() - 1]);
    }
}

/// One more line.
proof fn lemma_lines_ended_by(lines: Seq<Seq<u8>>, end: Seq<u8>)
    requires
        lines.len() > 0,
    ensures
        lines_ended_by(lines, end) == lines_ended_by(lines.drop_last(), end) + lines.last() + end,
{
    lemma_lines_with_ends(
        lines.drop_last(),
        Seq::new(lines.len(), |i: int| end),
        Seq::new(lines.drop_last().len(), |i: int| end),
    );
}

#[verifier::spinoff_prover]
#[verifier::rlimit(40)]
proof fn lemma_normal_end(cr: bool, end: Seq<u8>)
    requires
        is_line_end(end),
        cr ==> end != seq![0x0Au8],
    ensures
        normalize(cr, end).1 == seq![0x0Du8, 0x0A],
        normalize(cr, end).0 == (end == seq![0x0Du8]),
{
    reveal_with_fuel(normalize, 3);
    if end == seq![0x0Du8, 0x0A] {
        assert(end.drop_last() =~= seq![0x0Du8]);
        assert(end.drop_last().drop_last() =~= Seq::<u8>::empty());
        assert(end[0] != seq![0x0Au8][0]);
        assert(end.len() != seq![0x0Du8].len());
    } else if end == seq![0x0Au8] {
        assert(end.drop_last() =~= Seq::<u8>::empty());
        assert(end[0] != seq![0x0Du8][0]);
    } else {
        assert(end.drop_last() =~= Seq::<u8>::empty());
    }
    assert(normalize(cr, end).1 =~= seq![0x0Du8, 0x0A]);
}

#[verifier::rlimit(40)]
#[verifier::spinoff_prover]
proof fn lemma_lines_end_in_crlf(lines: Seq<Seq<u8>>, ends: Seq<Seq<u8>>)
    requires
        forall|i: int| 0 <= i < lines.len() ==> is_bare(#[trigger] lines[i]),
        forall|i: int| 0 <= i < lines.len() ==> is_line_end(#[trigger] ends[i]),
        forall|i: int|
            1 <= i < lines.len() && (#[trigger] lines[i]).len() == 0 && ends[i - 1]
                == seq![0x0Du8] ==> ends[i] != seq![0x0Au8],
    ensures
        normalize(false, lines_with_ends(lines, ends)).1 == lines_ended_by(
            lines,
            seq![0x0Du8, 0x0A],
        ),
        normalize(false, lines_with_ends(lines, ends)).0 == (lines.len() > 0 && ends[lines.len()
            - 1] == seq![0x0Du8]),
    decreases lines.len(),
{
    let crlf = seq![0x0Du8, 0x0A];
    if lines.len() > 0 {
        let k = lines.len() - 1;
        let init = lines.drop_last();
        assert forall|i: int| 0 <= i < init.len() implies is_bare(#[trigger] init[i]) by {
            assert(is_bare(lines[i]));
        }
        assert forall|i: int|
            1 <= i < init.len() && (#[trigger] init[i]).len() == 0 && ends[i - 1]
                == seq![0x0Du8] implies ends[i] != seq![0x0Au8] by {
            assert(lines[i].len() == 0);
        }
        lemma_lines_end_in_crlf(init, ends);
        lemma_lines_ended_by(lines, crlf);
        let before = lines_with_ends(init, ends);
        let line = lines[k];
        let end = ends[k];
        assert(is_bare(line));
        let cr = normalize(false, before).0;
        law_normalize_pieces(false, before, line);
        law_bare_lines_are_normal(cr, line);
        let open = normalize(false, before + line).0;
        if line.len() == 0 {
            assert(before + line =~= before);
        }
        law_normalize_pieces(false, before + line, end);
        lemma_normal_end(open, end);
    }
}

/// Trimming a line takes nothing away but spaces and tabs, all of those at the
/// end of the line, and changes nothing else.
#[verifier::spinoff_prover]
#[verifier::rlimit(40)]
pub proof fn law_only_blanks_are_trimmed(line: Seq<u8>)
    ensures
        trim_end(line).len() <= line.len(),
        trim_end(line) == line.take(trim_end(line).len() as int),
        forall|i: int|
            trim_end(line).len() <= i < line.len() ==> (#[trigger] line[i]) == 0x20 || line[i]
                == 0x09,
        trim_end(line).len() > 0 ==> trim_end(line).last() != 0x20 && trim_end(line).last() != 0x09,
    decreases line.len(),
{
    if line.len() > 0 && (line.last() == 0x20 || line.last() == 0x09) {
        let init = line.drop_last();
        law_only_blanks_are_trimmed(init);
        assert(trim_end(line) == trim_end(init));
        assert(init.take(trim_end(init).len() as int) =~= line.take(trim_end(init).len() as int));
        assert forall|i: int| trim_end(line).len() <= i < line.len() implies (#[trigger] line[i])
            == 0x20 || line[i] == 0x09 by {
            if i < init.len() {
                assert(init[i] == line[i]);
            }
        }
    } else {
        assert(trim_end(line) == line);
        assert(line.take(line.len() as int) =~= line);
    }
}

/// Trimming a line that is followed by blanks gives the line, if it does not end
/// in a blank itself.
pub proof fn law_line_is_trimmed_to(line: Seq<u8>, blanks: Seq<u8>)
    requires
        line.len() > 0 ==> line.last() != 0x20 && line.last() != 0x09,
        forall|i: int| 0 <= i < blanks.len() ==> (#[trigger] blanks[i]) == 0x20 || blanks[i] == 0x09,
    ensures
        trim_end(line + blanks) == line,
{
    let whole = line + blanks;
    law_only_blanks_are_trimmed(whole);
    let n = trim_end(whole).len() as int;
    if n < line.len() {
        assert(whole[line.len() - 1] == line.last());
    }
    if n > line.len() {
        assert(trim_end(whole).last() == whole[n - 1]);
        assert(whole[n - 1] == blanks[n - 1 - line.len()]);
    }
    assert(whole.take(line.len() as int) =~= line);
}

/// A line that is written to a cleartext signed message.
pub struct Line {
    /// The line without blanks at its end.
    pub text: Seq<u8>,
    /// The blanks at its end.
    pub blanks: Seq<u8>,
    /// Whether it ends in CR LF, or else in LF.
    pub crlf: bool,
}

impl Line {
    /// Whether this is a line: it holds no LF and no CR at its end, its text does
    /// not end in a blank, and the blanks are spaces and tabs.
    pub open spec fn is_one(self) -> bool {
        &&& forall|i: int| 0 <= i < self.text.len() ==> (#[trigger] self.text[i]) != 0x0A
        &&& self.text.len() > 0 ==> self.text.last() != 0x0D && self.text.last() != 0x20
            && self.text.last() != 0x09
        &&& forall|i: int|
            0 <= i < self.blanks.len() ==> (#[trigger] self.blanks[i]) == 0x20 || self.blanks[i]
                == 0x09
    }

    /// The end of the line.
    pub open spec fn end(self) -> Seq<u8> {
        if self.crlf {
            seq![0x0Du8, 0x0A]
        } else {
            seq![0x0Au8]
        }
    }
}

/// A text as it is written.
pub open spec fn written(lines: Seq<Line>) -> Seq<u8>
    decreases lines.len(),
{
    if lines.len() == 0 {
        Seq::empty()
    } else {
        written(lines.drop_last()) + (lines.last().text + lines.last().blanks + lines.last().end())
    }
}

/// A text without the blanks at the ends of its lines.
pub open spec fn unblanked(lines: Seq<Line>) -> Seq<u8>
    decreases lines.len(),
{
    if lines.len() == 0 {
        Seq::empty()
    } else {
        unblanked(lines.drop_last()) + (lines.last().text + lines.last().end())
    }
}

proof fn lemma_trim_open(line: Seq<u8>, more: Seq<u8>)
    requires
        forall|i: int| 0 <= i < more.len() ==> (#[trigger] more[i]) != 0x0A,
    ensures
        trim_lines(line, more) == (line + more, Seq::<u8>::empty()),
    decreases more.len(),
{
    if more.len() == 0 {
        assert(line + more =~= line);
    } else {
        let init = more.drop_last();
        assert(more[more.len() - 1] != 0x0A);
        assert forall|i: int| 0 <= i < init.len() implies (#[trigger] init[i]) != 0x0A by {
            assert(more[i] != 0x0A);
        }
        lemma_trim_open(line, init);
        assert((line + init).push(more.last()) =~= line + more);
    }
}

#[verifier::spinoff_prover]
#[verifier::rlimit(40)]
proof fn lemma_trim_one(l: Line)
    requires
        l.is_one(),
    ensures
        trim_lines(Seq::empty(), l.text + l.blanks + l.end()) == (
            Seq::<u8>::empty(),
            l.text + l.end(),
        ),
        trim_last(l.text + l.blanks) == if l.text.len() + l.blanks.len() == 0 {
            Seq::empty()
        } else {
            l.text + seq![0x0Au8]
        },
{
    let content = l.text + l.blanks;
    let whole = content + l.end();
    let body = whole.drop_last();
    law_line_is_trimmed_to(l.text, l.blanks);
    if content.len() > 0 {
        if l.blanks.len() > 0 {
            assert(content.last() == l.blanks[l.blanks.len() - 1]);
        } else {
            assert(content.last() == l.text.last());
        }
    }
    assert forall|i: int| 0 <= i < body.len() implies (#[trigger] body[i]) != 0x0A by {
        if i < l.text.len() {
            assert(body[i] == l.text[i]);
        } else if i < content.len() {
            assert(body[i] == l.blanks[i - l.text.len()]);
        }
    }
    lemma_trim_open(Seq::empty(), body);
    assert(Seq::<u8>::empty() + body =~= body);
    assert(whole.last() == 0x0A);
    if l.crlf {
        assert(body =~= content.push(0x0D));
        assert(body.drop_last() =~= content);
    } else {
        assert(body =~= content);
    }
    assert(trimmed(body) =~= l.text + l.end());
    assert(Seq::<u8>::empty() + trimmed(body) =~= trimmed(body));
    assert(trimmed(content) =~= l.text + seq![0x0Au8]);
}

/// The text of a cleartext signed message is what was written, line by line,
/// without the blanks at the ends of the lines, and with an LF after the last
/// line if that did not end.
#[verifier::spinoff_prover]
#[verifier::rlimit(40)]
pub proof fn law_text_is_trimmed_line_by_line(lines: Seq<Line>, last: Line)
    requires
        forall|i: int| 0 <= i < lines.len() ==> (#[trigger] lines[i]).is_one(),
        last.is_one(),
    ensures
        trim_text(written(lines)) == unblanked(lines),
        last.text.len() + last.blanks.len() > 0 ==> trim_text(
            written(lines) + (last.text + last.blanks),
        ) == unblanked(lines) + (last.text + seq![0x0Au8]),
{
    lemma_trim_written(lines);
    let text = written(lines);
    let open = last.text + last.blanks;
    assert(unblanked(lines) + trim_last(Seq::empty()) =~= unblanked(lines));
    law_trim_pieces(Seq::empty(), text, open);
    assert forall|i: int| 0 <= i < open.len() implies (#[trigger] open[i]) != 0x0A by {
        if i < last.text.len() {
            assert(open[i] == last.text[i]);
        } else {
            assert(open[i] == last.blanks[i - last.text.len()]);
        }
    }
    lemma_trim_open(Seq::empty(), open);
    assert(Seq::<u8>::empty() + open =~= open);
    lemma_trim_one(last);
    assert(unblanked(lines) + Seq::<u8>::empty() =~= unblanked(lines));
}

proof fn lemma_trim_written(lines: Seq<Line>)
    requires
        forall|i: int| 0 <= i < lines.len() ==> (#[trigger] lines[i]).is_one(),
    ensures
        trim_lines(Seq::empty(), written(lines)) == (Seq::<u8>::empty(), unblanked(lines)),
    decreases lines.len(),
{
    if lines.len() > 0 {
        let init = lines.drop_last();
        let l = lines[lines.len() - 1];
        assert forall|i: int| 0 <= i < init.len() implies (#[trigger] init[i]).is_one() by {
            assert(lines[i].is_one());
        }
        lemma_trim_written(init);
        lemma_trim_one(l);
        law_trim_pieces(Seq::empty(), written(init), l.text + l.blanks + l.end());
    }
}

/// Whether a line starts with a dash, or with `From` and a space.
pub open spec fn starts_specially(line: Seq<u8>) -> bool {
    ||| line.len() >= 1 && line[0] == 0x2D
    ||| line.len() >= 5 && line[0] == 0x46 && line[1] == 0x72 && line[2] == 0x6F && line[3] == 0x6D
        && line[4] == 0x20
}

/// A line is dash-escaped if and only if it starts with a dash, or with `From`
/// and a space: it gets a dash and a space before it, and is left as it is
/// otherwise.  So a line that starts with a dash after that is an escaped one.
#[verifier::spinoff_prover]
#[verifier::rlimit(40)]
pub proof fn law_which_lines_are_escaped(line: Seq<u8>)
    ensures
        starts_specially(line) ==> dashed(line) == seq![0x2Du8, 0x20] + line,
        !starts_specially(line) ==> dashed(line) == line,
        dashed(line).len() > 0 && dashed(line)[0] == 0x2D ==> dashed(line).len() >= 2 && dashed(
            line,
        )[1] == 0x20 && dashed(line).skip(2) == line,
{
    let from = seq![0x46u8, 0x72, 0x6F, 0x6D, 0x20];
    if line.len() >= 5 {
        assert(line.take(5)[0] == line[0]);
        assert(line.take(5)[1] == line[1]);
        assert(line.take(5)[2] == line[2]);
        assert(line.take(5)[3] == line[3]);
        assert(line.take(5)[4] == line[4]);
        if starts_specially(line) && line[0] != 0x2D {
            assert(line.take(5) =~= from);
        }
    }
    assert(needs_dash(line) == starts_specially(line));
    assert((seq![0x2Du8, 0x20] + line).skip(2) =~= line);
}

/// Lines, each dash-escaped where it must be.
pub open spec fn escaped_lines(lines: Seq<Seq<u8>>) -> Seq<u8>
    decreases lines.len(),
{
    if lines.len() == 0 {
        Seq::empty()
    } else {
        escaped_lines(lines.drop_last()) + (if starts_specially(lines.last().push(0x0A)) {
            seq![0x2Du8, 0x20]
        } else {
            Seq::empty()
        }) + lines.last() + seq![0x0Au8]
    }
}

proof fn lemma_dash_open(line: Seq<u8>, more: Seq<u8>)
    requires
        forall|i: int| 0 <= i < more.len() ==> (#[trigger] more[i]) != 0x0A,
    ensures
        dash_escape(line, more) == (line + more, Seq::<u8>::empty()),
    decreases more.len(),
{
    if more.len() == 0 {
        assert(line + more =~= line);
    } else {
        let init = more.drop_last();
        assert(more[more.len() - 1] != 0x0A);
        assert forall|i: int| 0 <= i < init.len() implies (#[trigger] init[i]) != 0x0A by {
            assert(more[i] != 0x0A);
        }
        lemma_dash_open(line, init);
        assert((line + init).push(more.last()) =~= line + more);
    }
}

/// A text whose lines all end is dash-escaped line by line.
pub proof fn law_text_is_escaped_line_by_line(lines: Seq<Seq<u8>>)
    requires
        forall|i: int, j: int|
            0 <= i < lines.len() && 0 <= j < lines[i].len() ==> #[trigger] lines[i][j] != 0x0A,
    ensures
        dash_escaped(lines_ended_by(lines, seq![0x0Au8])) == escaped_lines(lines),
{
    lemma_escaped_lines(lines);
    law_which_lines_are_escaped(Seq::empty());
    assert(escaped_lines(lines) + Seq::<u8>::empty() =~= escaped_lines(lines));
}

#[verifier::spinoff_prover]
#[verifier::rlimit(60)]
proof fn lemma_escaped_lines(lines: Seq<Seq<u8>>)
    requires
        forall|i: int, j: int|
            0 <= i < lines.len() && 0 <= j < lines[i].len() ==> #[trigger] lines[i][j] != 0x0A,
    ensures
        dash_escape(Seq::empty(), lines_ended_by(lines, seq![0x0Au8])) == (
            Seq::<u8>::empty(),
            escaped_lines(lines),
        ),
    decreases lines.len(),
{
    let lf = seq![0x0Au8];
    if lines.len() > 0 {
        let init = lines.drop_last();
        let l = lines[lines.len() - 1];
        assert forall|i: int, j: int|
            0 <= i < init.len() && 0 <= j < init[i].len() implies #[trigger] init[i][j] != 0x0A by {
            assert(lines[i][j] != 0x0A);
        }
        assert forall|j: int| 0 <= j < l.len() implies (#[trigger] l[j]) != 0x0A by {
            assert(lines[lines.len() - 1][j] != 0x0A);
        }
        lemma_escaped_lines(init);
        lemma_lines_ended_by(lines, lf);
        let before = lines_ended_by(init, lf);
        law_dash_pieces(Seq::empty(), before, l + lf);
        lemma_dash_open(Seq::empty(), l);
        assert(Seq::<u8>::empty() + l =~= l);
        assert((l + lf).drop_last() =~= l);
        assert((l + lf).last() == 0x0A);
        assert(l.push(0x0A) =~= l + lf);
        law_which_lines_are_escaped(l.push(0x0A));
        assert(Seq::<u8>::empty() + dashed(l.push(0x0A)) =~= dashed(l.push(0x0A)));
        assert(before + (l + lf) =~= before + l + lf);
        assert(escaped_lines(init) + dashed(l.push(0x0A)) =~= escaped_lines(lines));
    } else {
        assert(lines_ended_by(lines, lf) =~= Seq::<u8>::empty());
    }
}

} // verus!
