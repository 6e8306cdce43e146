//! Laws on signed messages.

use vstd::prelude::*;

use crate::armor::{
    armor_foot, armor_head, base64_lines, base64_read, base64_tail, crc24_line, ArmorView,
};
use crate::crypto::SignatureView;
use crate::framing::{joined, packet, unframe, Tag};
use crate::hashing::hash_of;
use crate::key::{FingerprintView, KeyView};
use crate::laws::{
    armor_pieces, dash_pieces, law_armor_reads_back, law_cleartext_is_what_is_signed,
    law_signatures_reversed, law_signing_pieces, law_sink_collects, law_trim_pieces,
    law_what_is_signed, lemma_feed_all_front, lemma_feed_sink, lemma_signing_nothing,
    packet_pieces, signatures,
};
use crate::readback::{
    law_literal_gives_back, lemma_feed_all_concat, lemma_feed_all_keeps, lemma_joined_one,
    lemma_literal_top, lemma_profile_of_sink, packet_passed_on,
};
use crate::signature::SignatureParams;
use crate::signer::SignerView;
use crate::signing::{Outcome, SigningView};
use crate::stack::{
    emitted, ended, feed, feed_all, finalized, finalizes_to, lemma_feed_nothing, lemma_feed_shape,
    lemma_feed_step, peel, signature_base, unstack, Cookie, FilterView, LayerView,
    Private,
};
use crate::stream::{next_level, LiteralView};
use crate::textfilter::{
    dash_escape, dash_unescape, dashed, normalize, trim_end, trim_last, trim_lines, trimmed,
    undashed, CR, LF, SPACE, TAB,
};
use crate::types::{HashAlgorithm, Kind, Profile};

verus! {

/// Writing to a signer hashes, and writes to the writers below, unless the
/// signature is a detached one.
pub proof fn lemma_signer_passes_on(
    base: Seq<LayerView>,
    cookie: Cookie,
    s: SigningView,
    writes: Seq<Seq<u8>>,
)
    ensures
        feed_all(base.push(LayerView { cookie, filter: FilterView::Signer(s) }), writes) == (
        if s.mode is Detached {
            base
        } else {
            feed_all(base, writes)
        }).push(LayerView { cookie, filter: FilterView::Signer(s.push(joined(writes))) }),
    decreases writes.len(),
{
    let top = LayerView { cookie, filter: FilterView::Signer(s) };
    let ls = base.push(top);
    if writes.len() == 0 {
        lemma_signing_nothing(s);
    } else {
        let w = writes[0];
        lemma_feed_all_front(ls, writes);
        lemma_feed_all_front(base, writes);
        law_signing_pieces(s, w, joined(writes.skip(1)));
        if w.len() == 0 {
            lemma_feed_nothing(ls, w);
            lemma_feed_nothing(base, w);
            assert(w =~= Seq::<u8>::empty());
            lemma_signing_nothing(s);
            lemma_signer_passes_on(base, cookie, s, writes.skip(1));
        } else {
            lemma_feed_step(base, top, w);
            if s.mode is Detached {
                lemma_feed_nothing(base, Seq::<u8>::empty());
                lemma_signer_passes_on(base, cookie, s.push(w), writes.skip(1));
            } else {
                lemma_signer_passes_on(feed(base, w), cookie, s.push(w), writes.skip(1));
            }
        }
    }
}

/// What finalizing a signer comes to that does not make a cleartext signed
/// message.
proof fn lemma_signer_finalized(
    below: Seq<LayerView>,
    top: LayerView,
    s: SigningView,
    next: Seq<LayerView>,
)
    requires
        top.filter == FilterView::Signer(s),
        !(s.mode is Cleartext),
        finalized(below.push(top), next),
    ensures
        exists|outcomes: Seq<Outcome>|
            s.may_emit(outcomes) && next == feed_all(
                below,
                #[trigger] signatures(s, outcomes, s.signers.len() as int),
            ),
{
    let ls = below.push(top);
    let n = s.signers.len() as int;
    assert(ls.drop_last() =~= below);
    let outcomes = choose|outcomes: Seq<Outcome>|
        s.may_emit(outcomes) && next == #[trigger] emitted(below, s, outcomes, n);
    law_signatures_reversed(below, s, outcomes, n);
    assert(next == feed_all(below, signatures(s, outcomes, n)));
}

/// Building a signer for a detached signature writes nothing, and all that is
/// ever passed on are the signatures over what is written, with numbers that
/// the signers may give.
pub proof fn law_detached_gives_only_signatures(
    v: SignerView,
    salts: Seq<Seq<u8>>,
    writes: Seq<Seq<u8>>,
    next: Seq<LayerView>,
)
    requires
        v.mode is Detached,
        finalized(feed_all(v.built(salts), writes), next),
    ensures
        v.built(salts).drop_last() == v.profiled(),
        feed_all(v.built(salts), writes).drop_last() == v.profiled(),
        exists|outcomes: Seq<Outcome>|
            v.signing(salts).push(joined(writes)).may_emit(outcomes) && next == feed_all(
                v.profiled(),
                #[trigger] signatures(
                    v.signing(salts).push(joined(writes)),
                    outcomes,
                    v.keys.len() as int,
                ),
            ),
{
    let built = v.built(salts);
    let s = v.signing(salts);
    let top = built.last();
    assert(built.drop_last() =~= v.profiled());
    assert(built == v.profiled().push(top));
    lemma_signer_passes_on(v.profiled(), top.cookie, s, writes);
    let t = s.push(joined(writes));
    let after = LayerView { cookie: top.cookie, filter: FilterView::Signer(t) };
    assert(feed_all(built, writes) == v.profiled().push(after));
    assert(feed_all(built, writes).drop_last() =~= v.profiled());
    lemma_signer_finalized(v.profiled(), after, t, next);
}

/// A message that is signed in line consists of the one-pass signature packets
/// in the order of the signers, what is written, and the signatures over it in
/// the reverse order, one for each signer, with numbers that the signer may
/// give for the digest of what was written.
pub proof fn law_signed_message(
    v: SignerView,
    salts: Seq<Seq<u8>>,
    writes: Seq<Seq<u8>>,
    next: Seq<LayerView>,
)
    requires
        v.mode is Inline,
        finalized(feed_all(v.built(salts), writes), next),
    ensures
        exists|outcomes: Seq<Outcome>|
            v.signing(salts).push(joined(writes)).may_emit(outcomes) && next == feed_all(
                v.profiled(),
                v.one_pass_sigs(salts) + writes + #[trigger] signatures(
                    v.signing(salts).push(joined(writes)),
                    outcomes,
                    v.keys.len() as int,
                ),
            ),
{
    let built = v.built(salts);
    let s = v.signing(salts);
    let ops = v.one_pass_sigs(salts);
    let base = feed_all(v.profiled(), ops);
    let top = built.last();
    assert(built == base.push(top));
    lemma_signer_passes_on(base, top.cookie, s, writes);
    let t = s.push(joined(writes));
    let after = LayerView { cookie: top.cookie, filter: FilterView::Signer(t) };
    let below = feed_all(base, writes);
    assert(feed_all(built, writes) == below.push(after));
    lemma_signer_finalized(below, after, t, next);
    let n = v.keys.len() as int;
    let outcomes = choose|outcomes: Seq<Outcome>|
        t.may_emit(outcomes) && next == feed_all(below, #[trigger] signatures(t, outcomes, n));
    let sigs = signatures(t, outcomes, n);
    lemma_feed_all_concat(v.profiled(), ops, writes);
    lemma_feed_all_concat(v.profiled(), ops + writes, sigs);
}

/// The signer after several calls that add intended recipients.
pub open spec fn with_intended(v: SignerView, fingerprints: Seq<FingerprintView>) -> SignerView
    decreases fingerprints.len(),
{
    if fingerprints.len() == 0 {
        v
    } else {
        let before = with_intended(v, fingerprints.drop_last());
        SignerView { recipients: before.recipients.push(fingerprints.last()), ..before }
    }
}

/// Every call that adds an intended recipient counts: the signatures name all
/// of them, in the order of the calls, and nothing else changes.
pub proof fn law_all_intended_recipients_count(
    v: SignerView,
    fingerprints: Seq<FingerprintView>,
    salts: Seq<Seq<u8>>,
    i: int,
    time: int,
)
    ensures
        with_intended(v, fingerprints) == (SignerView {
            recipients: v.recipients + fingerprints,
            ..v
        }),
        with_intended(v, fingerprints).signing(salts).params(i, time).recipients == v.recipients
            + fingerprints,
    decreases fingerprints.len(),
{
    if fingerprints.len() == 0 {
        assert(v.recipients + fingerprints =~= v.recipients);
    } else {
        law_all_intended_recipients_count(v, fingerprints.drop_last(), salts, i, time);
        assert((v.recipients + fingerprints.drop_last()).push(fingerprints.last())
            =~= v.recipients + fingerprints);
    }
}

/// A text without the blanks at the ends of its lines.
pub open spec fn trim_text(text: Seq<u8>) -> Seq<u8> {
    let (line, out) = trim_lines(Seq::empty(), text);
    out + trim_last(line)
}

/// What a filter that trims lines passes on, piece by piece, while `writes` are
/// written to it and it is finalized; `line` is the line that has begun.
pub open spec fn trim_pieces(line: Seq<u8>, writes: Seq<Seq<u8>>) -> Seq<Seq<u8>>
    decreases writes.len(),
{
    if writes.len() == 0 {
        seq![trim_last(line)]
    } else {
        seq![trim_lines(line, writes[0]).1] + trim_pieces(
            trim_lines(line, writes[0]).0,
            writes.skip(1),
        )
    }
}

proof fn lemma_trim_pieces_joined(line: Seq<u8>, writes: Seq<Seq<u8>>)
    ensures
        ({
            let (begun, out) = trim_lines(line, joined(writes));
            joined(trim_pieces(line, writes)) == out + trim_last(begun)
        }),
    decreases writes.len(),
{
    let pieces = trim_pieces(line, writes);
    if writes.len() == 0 {
        lemma_joined_one(trim_last(line));
        assert(Seq::<u8>::empty() + trim_last(line) =~= trim_last(line));
    } else {
        let (l, out) = trim_lines(line, writes[0]);
        let rest = joined(writes.skip(1));
        lemma_trim_pieces_joined(l, writes.skip(1));
        law_trim_pieces(line, writes[0], rest);
        assert(pieces.skip(1) =~= trim_pieces(l, writes.skip(1)));
        let (begun, more) = trim_lines(l, rest);
        assert((out + more) + trim_last(begun) =~= out + (more + trim_last(begun)));
    }
}

/// Writing to a filter that trims lines, and finalizing it, writes the trimmed
/// lines to the writers below.
proof fn lemma_trimming_passes_on(
    base: Seq<LayerView>,
    cookie: Cookie,
    line: Seq<u8>,
    writes: Seq<Seq<u8>>,
)
    ensures
        peel(
            feed_all(
                base.push(LayerView { cookie, filter: FilterView::TrailingWS(line) }),
                writes,
            ),
        ) == feed_all(base, trim_pieces(line, writes)),
    decreases writes.len(),
{
    let top = LayerView { cookie, filter: FilterView::TrailingWS(line) };
    let ls = base.push(top);
    let pieces = trim_pieces(line, writes);
    if writes.len() == 0 {
        assert(ls.drop_last() =~= base);
        assert(pieces.drop_last() =~= Seq::<Seq<u8>>::empty());
        assert(feed_all(base, pieces.drop_last()) == base);
    } else {
        let w = writes[0];
        let (l, out) = trim_lines(line, w);
        lemma_feed_all_front(ls, writes);
        lemma_feed_all_front(base, pieces);
        assert(pieces.skip(1) =~= trim_pieces(l, writes.skip(1)));
        if w.len() == 0 {
            lemma_feed_nothing(ls, w);
            lemma_feed_nothing(base, out);
            lemma_trimming_passes_on(base, cookie, line, writes.skip(1));
        } else {
            lemma_feed_step(base, top, w);
            lemma_trimming_passes_on(feed(base, out), cookie, l, writes.skip(1));
        }
    }
}

/// Texts that are the same but for blanks at the ends of lines are signed
/// alike, and the same text is put into the message for them: what is hashed is
/// the trimmed text, what is passed on is its dash-escaped form, and undoing the
/// dash-escapes gives the trimmed text back.
#[verifier::rlimit(40)]
pub proof fn law_trailing_blanks_are_not_signed(
    base: Seq<LayerView>,
    dash: Cookie,
    signer: Cookie,
    trim: Cookie,
    s: SigningView,
    writes: Seq<Seq<u8>>,
)
    requires
        s.mode is Cleartext,
    ensures
        ({
            let below = base.push(
                LayerView { cookie: dash, filter: FilterView::DashEscape(Seq::empty()) },
            ).push(LayerView { cookie: signer, filter: FilterView::Signer(s) });
            let ls = peel(
                feed_all(
                    below.push(
                        LayerView { cookie: trim, filter: FilterView::TrailingWS(Seq::empty()) },
                    ),
                    writes,
                ),
            );
            let text = trim_text(joined(writes));
            let pieces = dash_pieces(Seq::empty(), trim_pieces(Seq::empty(), writes));
            &&& ls.last().filter == FilterView::Signer(s.push(text))
            &&& peel(ls.drop_last()) == feed_all(base, pieces)
            &&& joined(pieces) == dash_escape(Seq::empty(), text).1 + dashed(
                dash_escape(Seq::empty(), text).0,
            )
            &&& dash_unescape(Seq::empty(), joined(pieces)).1 + undashed(
                dash_unescape(Seq::empty(), joined(pieces)).0,
            ) == text
        }),
{
    let below = base.push(
        LayerView { cookie: dash, filter: FilterView::DashEscape(Seq::empty()) },
    ).push(LayerView { cookie: signer, filter: FilterView::Signer(s) });
    let trimmed_writes = trim_pieces(Seq::empty(), writes);
    lemma_trimming_passes_on(below, trim, Seq::empty(), writes);
    lemma_trim_pieces_joined(Seq::empty(), writes);
    law_cleartext_is_what_is_signed(base, dash, signer, s, trimmed_writes);
    crate::laws::lemma_dash_pieces_joined(Seq::empty(), trimmed_writes);
}

/// Whether all octets are blanks.
pub open spec fn is_blank(s: Seq<u8>) -> bool {
    forall|i: int| 0 <= i < s.len() ==> (#[trigger] s[i]) == SPACE || s[i] == TAB
}

/// A text, given the content of its lines, the blanks at their ends, and
/// whether they end in CR LF.
pub open spec fn text_of(
    lines: Seq<Seq<u8>>,
    blanks: Seq<Seq<u8>>,
    crlf: Seq<bool>,
) -> Seq<u8>
    decreases lines.len(),
{
    if lines.len() == 0 {
        Seq::empty()
    } else {
        text_of(lines.drop_last(), blanks, crlf) + lines.last() + blanks[lines.len() - 1] + (
        if crlf[lines.len() - 1] {
            seq![CR, LF]
        } else {
            seq![LF]
        })
    }
}

/// Whether the octets can be the content of a line.
pub open spec fn is_line(s: Seq<u8>) -> bool {
    &&& forall|i: int| 0 <= i < s.len() ==> (#[trigger] s[i]) != LF
    &&& s.len() > 0 ==> s.last() != CR
}

proof fn lemma_trim_blanks(line: Seq<u8>, blanks: Seq<u8>)
    requires
        is_blank(blanks),
    ensures
        trim_end(line + blanks) == trim_end(line),
    decreases blanks.len(),
{
    if blanks.len() == 0 {
        assert(line + blanks =~= line);
    } else {
        assert(blanks[blanks.len() - 1] == SPACE || blanks[blanks.len() - 1] == TAB);
        assert((line + blanks).drop_last() =~= line + blanks.drop_last());
        assert forall|i: int| 0 <= i < blanks.drop_last().len() implies (
        #[trigger] blanks.drop_last()[i]) == SPACE || blanks.drop_last()[i] == TAB by {
            assert(blanks[i] == SPACE || blanks[i] == TAB);
        }
        lemma_trim_blanks(line, blanks.drop_last());
    }
}

/// A line that does not end yet is held back.
proof fn lemma_trim_holds(line: Seq<u8>, more: Seq<u8>)
    requires
        forall|i: int| 0 <= i < more.len() ==> (#[trigger] more[i]) != LF,
    ensures
        trim_lines(line, more) == (line + more, Seq::<u8>::empty()),
    decreases more.len(),
{
    if more.len() == 0 {
        assert(line + more =~= line);
    } else {
        assert(more[more.len() - 1] != LF);
        assert forall|i: int| 0 <= i < more.drop_last().len() implies (
        #[trigger] more.drop_last()[i]) != LF by {
            assert(more[i] != LF);
        }
        lemma_trim_holds(line, more.drop_last());
        assert((line + more.drop_last()).push(more.last()) =~= line + more);
    }
}

/// One line is trimmed, and keeps its end.
proof fn lemma_trim_line(line: Seq<u8>, blanks: Seq<u8>, crlf: bool)
    requires
        is_line(line),
        is_blank(blanks),
    ensures
        ({
            let end = if crlf {
                seq![CR, LF]
            } else {
                seq![LF]
            };
            trim_lines(Seq::empty(), line + blanks + end) == (
                Seq::<u8>::empty(),
                trim_end(line) + end,
            )
        }),
{
    let end = if crlf {
        seq![CR, LF]
    } else {
        seq![LF]
    };
    let whole = line + blanks + end;
    let body = whole.drop_last();
    assert forall|i: int| 0 <= i < body.len() implies (#[trigger] body[i]) != LF by {
        if i < line.len() {
            assert(body[i] == line[i]);
        } else if i < line.len() + blanks.len() {
            assert(body[i] == blanks[i - line.len()]);
        }
    }
    lemma_trim_holds(Seq::empty(), body);
    assert(Seq::<u8>::empty() + body =~= body);
    lemma_trim_blanks(line, blanks);
    let content = line + blanks;
    if crlf {
        assert(body =~= content.push(CR));
        assert(body.drop_last() =~= content);
    } else {
        assert(body =~= content);
        if blanks.len() > 0 {
            assert(content.last() == blanks[blanks.len() - 1]);
        } else if line.len() > 0 {
            assert(content =~= line);
        }
    }
    assert(trimmed(body) =~= trim_end(line) + end);
    assert(Seq::<u8>::empty() + trimmed(body) =~= trimmed(body));
}

/// The blanks at the ends of the lines of a text leave no trace in its trimmed
/// form.
pub proof fn law_trailing_blanks_leave_no_trace(
    lines: Seq<Seq<u8>>,
    blanks: Seq<Seq<u8>>,
    crlf: Seq<bool>,
)
    requires
        forall|i: int| 0 <= i < lines.len() ==> is_line(#[trigger] lines[i]),
        forall|i: int| 0 <= i < lines.len() ==> is_blank(#[trigger] blanks[i]),
    ensures
        trim_lines(Seq::empty(), text_of(lines, blanks, crlf)) == (
            Seq::<u8>::empty(),
            text_of(
                lines.map_values(|l: Seq<u8>| trim_end(l)),
                Seq::new(lines.len(), |i: int| Seq::<u8>::empty()),
                crlf,
            ),
        ),
        trim_text(text_of(lines, blanks, crlf)) == text_of(
            lines.map_values(|l: Seq<u8>| trim_end(l)),
            Seq::new(lines.len(), |i: int| Seq::<u8>::empty()),
            crlf,
        ),
    decreases lines.len(),
{
    let bare = lines.map_values(|l: Seq<u8>| trim_end(l));
    let none = Seq::new(lines.len(), |i: int| Seq::<u8>::empty());
    let text = text_of(lines, blanks, crlf);
    if lines.len() > 0 {
        let k = lines.len() - 1;
        let init = lines.drop_last();
        let before = text_of(init, blanks, crlf);
        assert forall|i: int| 0 <= i < init.len() implies is_line(#[trigger] init[i]) by {
            assert(is_line(lines[i]));
        }
        law_trailing_blanks_leave_no_trace(init, blanks, crlf);
        assert(init.map_values(|l: Seq<u8>| trim_end(l)) =~= bare.drop_last());
        lemma_text_of_blanks(
            bare.drop_last(),
            Seq::new(init.len(), |i: int| Seq::<u8>::empty()),
            none,
            crlf,
        );
        assert(is_line(lines[k]));
        assert(is_blank(blanks[k]));
        lemma_trim_line(lines[k], blanks[k], crlf[k]);
        let end = if crlf[k] {
            seq![CR, LF]
        } else {
            seq![LF]
        };
        let last = lines[k] + blanks[k] + end;
        assert(text =~= before + last);
        law_trim_pieces(Seq::empty(), before, last);
        let sent = text_of(bare.drop_last(), none, crlf);
        assert(bare.last() == trim_end(lines[k]));
        assert(sent + (trim_end(lines[k]) + end) =~= sent + bare.last() + none[k] + end);
    }
    assert(trim_lines(Seq::empty(), text).1 + Seq::<u8>::empty() =~= trim_lines(
        Seq::empty(),
        text,
    ).1);
}

/// The blanks at the ends of the lines of a text leave no trace in its trimmed
/// form if its last line has no LF, either; that gets one.
pub proof fn law_trailing_blanks_of_an_open_line(
    lines: Seq<Seq<u8>>,
    blanks: Seq<Seq<u8>>,
    crlf: Seq<bool>,
    last: Seq<u8>,
    last_blanks: Seq<u8>,
)
    requires
        forall|i: int| 0 <= i < lines.len() ==> is_line(#[trigger] lines[i]),
        forall|i: int| 0 <= i < lines.len() ==> is_blank(#[trigger] blanks[i]),
        is_line(last),
        last.len() > 0,
        is_blank(last_blanks),
    ensures
        trim_text(text_of(lines, blanks, crlf) + (last + last_blanks)) == text_of(
            lines.map_values(|l: Seq<u8>| trim_end(l)),
            Seq::new(lines.len(), |i: int| Seq::<u8>::empty()),
            crlf,
        ) + (trim_end(last) + seq![LF]),
{
    let text = text_of(lines, blanks, crlf);
    let open = last + last_blanks;
    law_trailing_blanks_leave_no_trace(lines, blanks, crlf);
    law_trim_pieces(Seq::empty(), text, open);
    assert forall|i: int| 0 <= i < open.len() implies (#[trigger] open[i]) != LF by {
        if i < last.len() {
            assert(open[i] == last[i]);
        } else {
            assert(open[i] == last_blanks[i - last.len()]);
        }
    }
    lemma_trim_holds(Seq::empty(), open);
    assert(Seq::<u8>::empty() + open =~= open);
    lemma_trim_blanks(last, last_blanks);
    if last_blanks.len() > 0 {
        assert(open.last() == last_blanks[last_blanks.len() - 1]);
    } else {
        assert(open =~= last);
    }
    let sent = trim_lines(Seq::empty(), text).1;
    assert(sent + Seq::<u8>::empty() =~= sent);
}

/// Only the blanks of the lines that there are count.
proof fn lemma_text_of_blanks(
    lines: Seq<Seq<u8>>,
    a: Seq<Seq<u8>>,
    b: Seq<Seq<u8>>,
    crlf: Seq<bool>,
)
    requires
        forall|i: int| 0 <= i < lines.len() ==> #[trigger] a[i] == b[i],
    ensures
        text_of(lines, a, crlf) == text_of(lines, b, crlf),
    decreases lines.len(),
{
    if lines.len() > 0 {
        lemma_text_of_blanks(lines.drop_last(), a, b, crlf);
        assert(a[lines.len() - 1] == b[lines.len() - 1]);
    }
}

/// A way of verifying the numbers of a signature: whether they are good, given
/// the key, the hash algorithm and the digest.
pub type Verification = spec_fn(KeyView, HashAlgorithm, Seq<u8>, SignatureView) -> bool;

/// Whether everything that the signers may answer is good.
pub open spec fn signers_are_good(v: SignerView, good: Verification) -> bool {
    forall|i: int, d: Seq<u8>, sig: SignatureView|
        0 <= i < v.keys.len() && #[trigger] v.signers[i].0.signs(v.algo(), d, sig) ==> good(
            v.keys[i],
            v.algo(),
            d,
            sig,
        )
}

/// Whether a packet is a good signature of the signer at `i` over the content:
/// it holds numbers that are good for the digest of the salt, of the content,
/// and of the part of the packet that the signature covers.
pub open spec fn is_good_signature(
    v: SignerView,
    salts: Seq<Seq<u8>>,
    good: Verification,
    i: int,
    content: Seq<u8>,
    p: Seq<u8>,
) -> bool {
    let s = v.signing(salts);
    exists|time: int, sig: SignatureView|
        #[trigger] holds_signature(
            p,
            s.params(i, time),
            hash_of(v.algo(), v.salt(i, salts) + content + s.params(i, time).trailer()),
            sig,
        ) && good(
            v.keys[i],
            v.algo(),
            hash_of(v.algo(), v.salt(i, salts) + content + s.params(i, time).trailer()),
            sig,
        )
}

/// Whether a packet is the signature packet that holds the numbers for a digest.
pub open spec fn holds_signature(
    p: Seq<u8>,
    params: SignatureParams,
    digest: Seq<u8>,
    sig: SignatureView,
) -> bool {
    p == packet(Tag::Signature, params.body(digest, sig))
}

/// The content that is signed.
pub open spec fn signed_content(v: SignerView, data: Seq<u8>) -> Seq<u8> {
    if v.text() {
        normalize(false, data).1
    } else {
        data
    }
}

/// The signatures that are emitted are good, if what the signers answer is.
pub proof fn law_signatures_are_good(
    v: SignerView,
    salts: Seq<Seq<u8>>,
    data: Seq<u8>,
    outcomes: Seq<Outcome>,
    good: Verification,
    i: int,
)
    requires
        v.versions_known(),
        signers_are_good(v, good),
        v.signing(salts).push(data).may_emit(outcomes),
        0 <= i < v.keys.len(),
    ensures
        is_good_signature(
            v,
            salts,
            good,
            i,
            signed_content(v, data),
            signatures(v.signing(salts).push(data), outcomes, v.keys.len() as int)[v.keys.len() - 1
                - i],
        ),
{
    let s = v.signing(salts);
    let t = s.push(data);
    let n = v.keys.len() as int;
    let j = n - 1 - i;
    let (time, sig) = outcomes[j];
    assert(t.may_sign(outcomes.len() - 1 - j, outcomes[j]));
    law_what_is_signed(v, salts, data, i, time);
    assert(t.params(i, time) == s.params(i, time));
    let d = t.digest(i, time);
    assert(v.signers[i].0.signs(v.algo(), d, sig));
    let p = signatures(t, outcomes, n)[j];
    assert(holds_signature(p, s.params(i, time), d, sig));
}

/// A message that is signed in line and written to a sink consists of the
/// one-pass signature packets, a literal data packet out of which the headers
/// and what was written are read, and the signatures; and if what the signers
/// answer is good, there is exactly one signature of each signer, and it is good
/// for what was written.
#[verifier::rlimit(60)]
#[verifier::spinoff_prover]
pub proof fn law_signed_message_in_sink(
    v: SignerView,
    salts: Seq<Seq<u8>>,
    l: LiteralView,
    cookie: Cookie,
    sink: Seq<u8>,
    writes: Seq<Seq<u8>>,
    good: Verification,
    out: Seq<u8>,
)
    requires
        v.mode is Inline,
        v.versions_known(),
        signers_are_good(v, good),
        v.inner == seq![LayerView { cookie, filter: FilterView::Sink(sink) }],
        cookie.private is Nothing,
        l.inner == v.built(salts),
        finalizes_to(feed_all(l.built(), writes), out),
    ensures
        exists|sigs: Seq<Seq<u8>>|
            {
                let body = joined(packet_pieces(Seq::empty(), seq![l.headers()] + writes));
                &&& out == sink + joined(v.one_pass_sigs(salts)) + seq![Tag::Literal.spec_ctb()]
                    + body + #[trigger] joined(sigs)
                &&& unframe(body) == Some(l.headers() + joined(writes))
                &&& sigs.len() == v.keys.len()
                &&& forall|i: int|
                    0 <= i < v.keys.len() ==> is_good_signature(
                        v,
                        salts,
                        good,
                        i,
                        signed_content(v, joined(writes)),
                        #[trigger] sigs[v.keys.len() - 1 - i],
                    )
            },
{
    let built = v.built(salts);
    let ops = v.one_pass_sigs(salts);
    let n = v.keys.len() as int;
    lemma_profile_of_sink(v.inner, cookie, sink, Profile::RFC9580);
    assert(v.profiled() == v.inner);
    law_sink_collects(sink, cookie, ops);
    let a = sink + joined(ops);
    let below = seq![LayerView { cookie, filter: FilterView::Sink(a) }];
    assert(feed_all(v.profiled(), ops) == below);
    assert(l.below() =~= below);
    let s = v.signing(salts);
    let t = s.push(joined(writes));
    let writes2 = seq![l.headers()] + writes;
    let body = joined(packet_pieces(Seq::empty(), writes2));
    let first = seq![Tag::Literal.spec_ctb()];
    // The literal writer is finalized.
    let ls = feed_all(l.built(), writes);
    let one = choose|next: Seq<LayerView>|
        next.len() < ls.len() && #[trigger] finalized(ls, next) && finalizes_to(next, out);
    lemma_literal_top(l, writes);
    assert(finalized(ls, one));
    law_literal_gives_back(l, writes, one);
    lemma_feed_sink(a, cookie, first);
    law_sink_collects(a + first, cookie, packet_pieces(Seq::empty(), writes2));
    let b = a + first + body;
    let inner = seq![LayerView { cookie, filter: FilterView::Sink(b) }];
    assert(packet_passed_on(below, Tag::Literal, writes2) == inner);
    let top = LayerView { cookie: built.last().cookie, filter: FilterView::Signer(t) };
    assert(one == inner.push(top));
    // The signer is finalized.
    let two = choose|next: Seq<LayerView>|
        next.len() < one.len() && #[trigger] finalized(one, next) && finalizes_to(next, out);
    assert(finalized(one, two));
    lemma_signer_finalized(inner, top, t, two);
    let outcomes = choose|outcomes: Seq<Outcome>|
        t.may_emit(outcomes) && two == feed_all(inner, #[trigger] signatures(t, outcomes, n));
    let sigs = signatures(t, outcomes, n);
    law_sink_collects(b, cookie, sigs);
    assert(two.len() == 1);
    assert(ended(two, out));
    assert(out == b + joined(sigs));
    assert forall|i: int| 0 <= i < n implies is_good_signature(
        v,
        salts,
        good,
        i,
        signed_content(v, joined(writes)),
        #[trigger] sigs[n - 1 - i],
    ) by {
        law_signatures_are_good(v, salts, joined(writes), outcomes, good, i);
    }
}

/// A detached signature that is written to a sink consists of the signatures
/// alone; and if what the signers answer is good, there is exactly one signature
/// of each signer, and it is good for what was written.
pub proof fn law_detached_signature_in_sink(
    v: SignerView,
    salts: Seq<Seq<u8>>,
    cookie: Cookie,
    sink: Seq<u8>,
    writes: Seq<Seq<u8>>,
    good: Verification,
    out: Seq<u8>,
)
    requires
        v.mode is Detached,
        v.versions_known(),
        signers_are_good(v, good),
        v.inner == seq![LayerView { cookie, filter: FilterView::Sink(sink) }],
        cookie.private is Nothing,
        finalizes_to(feed_all(v.built(salts), writes), out),
    ensures
        exists|sigs: Seq<Seq<u8>>|
            {
                &&& out == sink + #[trigger] joined(sigs)
                &&& sigs.len() == v.keys.len()
                &&& forall|i: int|
                    0 <= i < v.keys.len() ==> is_good_signature(
                        v,
                        salts,
                        good,
                        i,
                        signed_content(v, joined(writes)),
                        #[trigger] sigs[v.keys.len() - 1 - i],
                    )
            },
{
    let n = v.keys.len() as int;
    let t = v.signing(salts).push(joined(writes));
    lemma_profile_of_sink(v.inner, cookie, sink, Profile::RFC9580);
    assert(v.profiled() == v.inner);
    let ls = feed_all(v.built(salts), writes);
    lemma_feed_all_keeps(v.built(salts), writes);
    assert(ls[1].filter.same(v.built(salts)[1].filter));
    let one = choose|next: Seq<LayerView>|
        next.len() < ls.len() && #[trigger] finalized(ls, next) && finalizes_to(next, out);
    assert(finalized(ls, one));
    law_detached_gives_only_signatures(v, salts, writes, one);
    let outcomes = choose|outcomes: Seq<Outcome>|
        t.may_emit(outcomes) && one == feed_all(
            v.profiled(),
            #[trigger] signatures(t, outcomes, n),
        );
    let sigs = signatures(t, outcomes, n);
    law_sink_collects(sink, cookie, sigs);
    assert(one.len() == 1);
    assert(ended(one, out));
    assert(out == sink + joined(sigs));
    assert forall|i: int| 0 <= i < n implies is_good_signature(
        v,
        salts,
        good,
        i,
        signed_content(v, joined(writes)),
        #[trigger] sigs[n - 1 - i],
    ) by {
        law_signatures_are_good(v, salts, joined(writes), outcomes, good, i);
    }
}

/// A text in dash-escaped form.
pub open spec fn dash_escaped(text: Seq<u8>) -> Seq<u8> {
    dash_escape(Seq::empty(), text).1 + dashed(dash_escape(Seq::empty(), text).0)
}

/// A text with its dash-escapes undone.
pub open spec fn dash_unescaped(escaped: Seq<u8>) -> Seq<u8> {
    dash_unescape(Seq::empty(), escaped).1 + undashed(dash_unescape(Seq::empty(), escaped).0)
}

/// The body of signatures in ASCII armor.
pub open spec fn armor_body(data: Seq<u8>) -> Seq<u8> {
    base64_lines(data) + base64_tail(data)
}

/// Signatures in ASCII armor with a checksum.
pub open spec fn signature_armor(data: Seq<u8>) -> Seq<u8> {
    if data.len() == 0 {
        Seq::empty()
    } else {
        armor_head(Kind::Signature, Seq::empty()) + armor_body(data) + crc24_line(data)
            + armor_foot(Kind::Signature)
    }
}

/// A cleartext signed message in a sink consists of its header, the text without
/// blanks at the ends of its lines, in dash-escaped form, a line feed that is
/// not part of the text, and the signatures in ASCII armor.  Undoing the
/// dash-escapes gives the text back, and reading the armor gives the signatures;
/// if what the signers answer is good, there is exactly one of each signer, and
/// it is good for the text.
#[verifier::rlimit(80)]
#[verifier::spinoff_prover]
pub proof fn law_cleartext_message_in_sink(
    v: SignerView,
    salts: Seq<Seq<u8>>,
    cookie: Cookie,
    sink: Seq<u8>,
    writes: Seq<Seq<u8>>,
    good: Verification,
    out: Seq<u8>,
)
    requires
        v.mode is Cleartext,
        v.versions_known(),
        signers_are_good(v, good),
        v.inner == seq![LayerView { cookie, filter: FilterView::Sink(sink) }],
        cookie.private is Nothing,
        finalizes_to(feed_all(v.built(salts), writes), out),
    ensures
        dash_unescaped(dash_escaped(trim_text(joined(writes)))) == trim_text(joined(writes)),
        exists|sigs: Seq<Seq<u8>>|
            {
                let text = trim_text(joined(writes));
                &&& out == sink + v.cleartext_header() + dash_escaped(text) + seq![LF]
                    + signature_armor(#[trigger] joined(sigs))
                &&& base64_read(Seq::empty(), armor_body(joined(sigs))) == Some(joined(sigs))
                &&& sigs.len() == v.keys.len()
                &&& forall|i: int|
                    0 <= i < v.keys.len() ==> is_good_signature(
                        v,
                        salts,
                        good,
                        i,
                        normalize(false, text).1,
                        #[trigger] sigs[v.keys.len() - 1 - i],
                    )
            },
{
    let n = v.keys.len() as int;
    let none = Cookie { level: 0, private: Private::Nothing };
    let built = v.built(salts);
    let s = v.signing(salts);
    let text = trim_text(joined(writes));
    let t = s.push(text);
    lemma_profile_of_sink(v.inner, cookie, sink, Profile::RFC9580);
    assert(v.profiled() == v.inner);
    lemma_feed_sink(sink, cookie, v.cleartext_header());
    let a = sink + v.cleartext_header();
    let base = seq![LayerView { cookie, filter: FilterView::Sink(a) }];
    let signer = Cookie { level: next_level(v.inner), private: Private::Signer };
    law_trailing_blanks_are_not_signed(base, none, signer, none, s, writes);
    let pieces = dash_pieces(Seq::empty(), trim_pieces(Seq::empty(), writes));
    let escaped = joined(pieces);
    // The filter that trims lines is finalized.
    let ls = feed_all(built, writes);
    lemma_feed_all_keeps(built, writes);
    assert(ls[3].filter.same(built[3].filter));
    let one = choose|next: Seq<LayerView>|
        next.len() < ls.len() && #[trigger] finalized(ls, next) && finalizes_to(next, out);
    assert(finalized(ls, one));
    assert(one == unstack(ls));
    assert(one == peel(ls));
    lemma_drop_then_feed(ls);
    assert(one.last().filter == FilterView::Signer(t));
    // The signer is finalized.
    let two = choose|next: Seq<LayerView>|
        next.len() < one.len() && #[trigger] finalized(one, next) && finalizes_to(next, out);
    assert(finalized(one, two));
    law_sink_collects(a, cookie, pieces);
    lemma_feed_sink(a + escaped, cookie, seq![LF]);
    let b = a + escaped + seq![LF];
    let under = seq![LayerView { cookie, filter: FilterView::Sink(b) }];
    let armor = ArmorView { kind: Kind::Signature, headers: Seq::empty(), data: Seq::empty() };
    let armorer = LayerView { cookie: none, filter: FilterView::Armorer(armor) };
    assert(signature_base(one.drop_last(), t.mode) == under.push(armorer));
    let outcomes = choose|outcomes: Seq<Outcome>|
        t.may_emit(outcomes) && two == #[trigger] emitted(under.push(armorer), t, outcomes, n);
    law_signatures_reversed(under.push(armorer), t, outcomes, n);
    let sigs = signatures(t, outcomes, n);
    assert(two == feed_all(under.push(armorer), sigs));
    // The armor is finalized.
    lemma_feed_all_keeps(under.push(armorer), sigs);
    assert(two[1].filter.same(armorer.filter));
    let three = choose|next: Seq<LayerView>|
        next.len() < two.len() && #[trigger] finalized(two, next) && finalizes_to(next, out);
    assert(finalized(two, three));
    assert(three == peel(two));
    law_armor_reads_back(under, none, armor, true, sigs);
    law_sink_collects(b, cookie, armor_pieces(armor, true, sigs));
    assert(three.len() == 1);
    assert(ended(three, out));
    assert(joined(armor_pieces(armor, true, sigs)) =~= signature_armor(joined(sigs)));
    assert(out == b + signature_armor(joined(sigs)));
    assert(v.text());
    assert forall|i: int| 0 <= i < n implies is_good_signature(
        v,
        salts,
        good,
        i,
        normalize(false, text).1,
        #[trigger] sigs[n - 1 - i],
    ) by {
        law_signatures_are_good(v, salts, text, outcomes, good, i);
    }
}

/// Peeling off a writer leaves as many writers as there were below it.
proof fn lemma_drop_then_feed(ls: Seq<LayerView>)
    requires
        ls.len() >= 1,
    ensures
        peel(ls).len() == ls.len() - 1,
{
    lemma_feed_shape(ls.drop_last(), ls.last().rest());
}

} // verus!
