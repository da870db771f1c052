//! What holds of every document: how the header is checked, how timing
//! lines fail, how many cues come out, and how text lines become cue text.

use vstd::prelude::*;
use crate::text::join_lines;
use crate::duration::{Duration, is_numeral};
use crate::text::split_on;
use crate::vtt::{
    CueModel, Error, Machine, ParserState, arrow_from, cues_of, flush, header, initial,
    lemma_run_consistent, lemma_run_error_persists, run, timing_of, duration_of, sexagesimal,
};

verus! {

/// Line `i` of `lines` opens a cue block: it is past the header, not
/// blank, and follows a blank line.
pub open spec fn is_cue_start(lines: Seq<Seq<char>>, i: int) -> bool {
    2 <= i < lines.len() && lines[i].len() > 0 && lines[i - 1].len() == 0
}

/// How many lines of `lines` open a cue block.
pub open spec fn cue_start_count(lines: Seq<Seq<char>>) -> nat
    decreases lines.len(),
{
    if lines.len() == 0 {
        0
    } else {
        cue_start_count(lines.drop_last()) + if is_cue_start(lines, lines.len() - 1) {
            1nat
        } else {
            0nat
        }
    }
}

/// Where the parser stands after `lines` that it accepted, and how many
/// cues it holds.
proof fn lemma_run_shape(lines: Seq<Seq<char>>)
    ensures
        run(lines) matches Ok(m) ==> {
            &&& m.cues.len() == cue_start_count(lines)
            &&& lines.len() == 0 ==> m.state == ParserState::InHeader
            &&& lines.len() == 1 ==> m.state == ParserState::BlankLineAfterHeader
            &&& lines.len() >= 2 ==> (m.state == ParserState::BetweenCues || m.state == ParserState::InCue)
            &&& lines.len() >= 2 ==> (m.state == ParserState::BetweenCues <==> lines.last().len() == 0)
            &&& forall|i: int| #[trigger] is_cue_start(lines, i) ==> timing_of(lines[i]) is Ok
        },
    decreases lines.len(),
{
    if lines.len() > 0 {
        let prev = lines.drop_last();
        lemma_run_shape(prev);
        if lines.len() >= 3 {
            assert(lines[lines.len() - 2] == prev.last());
        }
        if run(lines) is Ok {
            assert forall|i: int| #[trigger] is_cue_start(lines, i) implies timing_of(lines[i]) is Ok by {
                if i < lines.len() - 1 {
                    assert(is_cue_start(prev, i));
                }
            }
        }
    }
}

/// Each timing line becomes one cue: in an accepted document the timing
/// lines are the first non-blank lines after a blank one past the header,
/// each reads as a timing line, and there are as many cues as there are of
/// them.
pub proof fn law_one_cue_per_timing_line(lines: Seq<Seq<char>>)
    ensures
        cues_of(lines) matches Ok(cues) ==> cues.len() == cue_start_count(lines),
        cues_of(lines) is Ok ==> forall|i: int| #[trigger] is_cue_start(lines, i) ==> timing_of(lines[i]) is Ok,
{
    lemma_run_shape(lines);
}

/// A document whose first line is not `WEBVTT` is refused for its header.
pub proof fn law_missing_header(lines: Seq<Seq<char>>)
    requires
        lines.len() > 0,
        lines[0] != header(),
    ensures
        cues_of(lines) == Err::<Seq<CueModel>, Error>(Error::InvalidHeader),
{
    let first = lines.subrange(0, 1);
    assert(first.drop_last() =~= Seq::<Seq<char>>::empty());
    assert(first.last() == lines[0]);
    assert(run(first.drop_last()) == Ok::<Machine, Error>(initial()));
    assert(run(first) is Err);
    lemma_run_error_persists(first, lines.subrange(1, lines.len() as int));
    assert(first + lines.subrange(1, lines.len() as int) =~= lines);
}

/// A document whose header is not followed by a blank line is refused for
/// its header.
pub proof fn law_missing_blank_after_header(lines: Seq<Seq<char>>)
    requires
        lines.len() > 1,
        lines[0] == header(),
        lines[1].len() > 0,
    ensures
        cues_of(lines) == Err::<Seq<CueModel>, Error>(Error::InvalidHeader),
{
    let first = lines.subrange(0, 2);
    assert(first.drop_last().drop_last() =~= Seq::<Seq<char>>::empty());
    assert(first.drop_last().last() == lines[0]);
    assert(first.last() == lines[1]);
    assert(run(first.drop_last().drop_last()) == Ok::<Machine, Error>(initial()));
    assert(run(first.drop_last()) is Ok);
    assert(run(first) is Err);
    lemma_run_error_persists(first, lines.subrange(2, lines.len() as int));
    assert(first + lines.subrange(2, lines.len() as int) =~= lines);
}

/// A malformed timing line (no ` --> `, or a timestamp that does not read)
/// where a cue block may start refuses the whole document, whatever follows.
pub proof fn law_bad_timing_line(before: Seq<Seq<char>>, line: Seq<char>, after: Seq<Seq<char>>)
    requires
        run(before) matches Ok(m) && m.state == ParserState::BetweenCues,
        line.len() > 0,
        timing_of(line) is Err,
    ensures
        cues_of(before.push(line) + after) == Err::<Seq<CueModel>, Error>(Error::InvalidCueTime),
{
    assert(before.push(line).drop_last() =~= before);
    lemma_run_error_persists(before.push(line), after);
}

/// A line without ` --> ` is no timing line.
pub proof fn law_timing_needs_arrow(line: Seq<char>)
    requires
        arrow_from(line, 0) is None,
    ensures
        timing_of(line) == Err::<(Duration, Duration), Error>(
            Error::InvalidCueTime,
        ),
{
}

/// A timestamp is refused exactly when it has more than three components,
/// more than one dot in its last component, a component, whole seconds or
/// fraction that is no unsigned numeral, or more seconds than a `u64` holds.
pub proof fn law_timestamp_refused_exactly_when_malformed(t: Seq<char>)
    ensures
        ({
            let parts = split_on(t, ':');
            let halves = split_on(parts.last(), '.');
            let comps = parts.update(parts.len() - 1, halves[0]);
            duration_of(t) is Err <==> {
                ||| parts.len() > 3
                ||| halves.len() > 2
                ||| exists|i: int| 0 <= i < comps.len() && !is_numeral(#[trigger] comps[i])
                ||| halves.len() == 2 && !is_numeral(halves[1])
                ||| sexagesimal(comps) > u64::MAX
            }
        }),
{
}

/// A timing line whose start or end timestamp is refused is itself refused.
pub proof fn law_timing_line_with_bad_timestamp(line: Seq<char>, k: int)
    requires
        arrow_from(line, 0) == Some(k),
        duration_of(line.subrange(0, k)) is Err || duration_of(line.subrange(k + 5, line.len() as int)) is Err,
    ensures
        timing_of(line) is Err,
{
}

/// The cue that `timing` opens, with `text`.
pub open spec fn opened_cue(timing: Seq<char>, text: Seq<char>) -> CueModel {
    CueModel { start: timing_of(timing)->Ok_0.0, end: timing_of(timing)->Ok_0.1, text }
}

/// After a timing line and the first `k` text lines, the parser is in the
/// new cue with those lines pending.
proof fn lemma_text_lines(before: Seq<Seq<char>>, timing: Seq<char>, texts: Seq<Seq<char>>, k: int)
    requires
        run(before) matches Ok(m) && m.state == ParserState::BetweenCues,
        timing.len() > 0,
        timing_of(timing) is Ok,
        forall|i: int| 0 <= i < texts.len() ==> (#[trigger] texts[i]).len() > 0,
        0 <= k <= texts.len(),
    ensures
        run(before.push(timing) + texts.subrange(0, k)) == Ok::<Machine, Error>(
            Machine {
                state: ParserState::InCue,
                cues: run(before)->Ok_0.cues.push(opened_cue(timing, Seq::empty())),
                pending: texts.subrange(0, k),
            },
        ),
    decreases k,
{
    let m = run(before)->Ok_0;
    lemma_run_consistent(before);
    if k == 0 {
        assert(before.push(timing) + texts.subrange(0, 0) =~= before.push(timing));
        assert(before.push(timing).drop_last() =~= before);
        assert(m.pending =~= texts.subrange(0, 0));
    } else {
        lemma_text_lines(before, timing, texts, k - 1);
        assert((before.push(timing) + texts.subrange(0, k)).drop_last() =~= before.push(timing)
            + texts.subrange(0, k - 1));
        assert(texts.subrange(0, k - 1).push(texts[k - 1]) =~= texts.subrange(0, k));
    }
}

/// The text lines after a timing line, up to the next blank line, become
/// the new cue's text, joined by `\n`.
pub proof fn law_cue_text_joined(before: Seq<Seq<char>>, timing: Seq<char>, texts: Seq<Seq<char>>)
    requires
        run(before) matches Ok(m) && m.state == ParserState::BetweenCues,
        timing.len() > 0,
        timing_of(timing) is Ok,
        forall|i: int| 0 <= i < texts.len() ==> (#[trigger] texts[i]).len() > 0,
    ensures
        cues_of(before.push(timing) + texts.push(Seq::empty())) == Ok::<Seq<CueModel>, Error>(
            cues_of(before)->Ok_0.push(opened_cue(timing, join_lines(texts))),
        ),
{
    let m = run(before)->Ok_0;
    lemma_run_consistent(before);
    lemma_text_lines(before, timing, texts, texts.len() as int);
    assert(texts.subrange(0, texts.len() as int) =~= texts);
    let all = before.push(timing) + texts.push(Seq::empty());
    assert(all.drop_last() =~= before.push(timing) + texts);
    let cues = m.cues.push(opened_cue(timing, Seq::empty()));
    assert(flush(cues, texts) =~= m.cues.push(opened_cue(timing, join_lines(texts))));
}

/// The last cue's text lines need no blank line after them: at the end of
/// the document they are joined into the cue all the same.
pub proof fn law_cue_text_at_end(before: Seq<Seq<char>>, timing: Seq<char>, texts: Seq<Seq<char>>)
    requires
        run(before) matches Ok(m) && m.state == ParserState::BetweenCues,
        timing.len() > 0,
        timing_of(timing) is Ok,
        forall|i: int| 0 <= i < texts.len() ==> (#[trigger] texts[i]).len() > 0,
    ensures
        cues_of(before.push(timing) + texts) == Ok::<Seq<CueModel>, Error>(
            cues_of(before)->Ok_0.push(opened_cue(timing, join_lines(texts))),
        ),
{
    let m = run(before)->Ok_0;
    lemma_run_consistent(before);
    lemma_text_lines(before, timing, texts, texts.len() as int);
    assert(texts.subrange(0, texts.len() as int) =~= texts);
    let cues = m.cues.push(opened_cue(timing, Seq::empty()));
    assert(flush(cues, texts) =~= m.cues.push(opened_cue(timing, join_lines(texts))));
    if texts.len() == 0 {
        assert(join_lines(texts) =~= Seq::<char>::empty());
    }
}

/// A document that is accepted was accepted up to each of its lines.
proof fn lemma_prefix_accepted(lines: Seq<Seq<char>>, a: int)
    requires
        0 <= a <= lines.len(),
        run(lines) is Ok,
    ensures
        run(lines.subrange(0, a)) is Ok,
{
    if run(lines.subrange(0, a)) is Err {
        lemma_run_error_persists(lines.subrange(0, a), lines.subrange(a, lines.len() as int));
        assert(lines.subrange(0, a) + lines.subrange(a, lines.len() as int) =~= lines);
    }
}

/// Once the parser stands between cues, later lines leave the cues so far
/// as they are: they only add cues, and text goes to the added ones.
proof fn lemma_cues_kept(lines: Seq<Seq<char>>, a: int)
    requires
        0 <= a <= lines.len(),
        run(lines.subrange(0, a)) matches Ok(m) && m.state == ParserState::BetweenCues && m.pending.len() == 0,
    ensures
        run(lines) matches Ok(m2) ==> {
            let m = run(lines.subrange(0, a))->Ok_0;
            &&& m2.cues.len() >= m.cues.len()
            &&& forall|i: int| 0 <= i < m.cues.len() ==> m2.cues[i] == m.cues[i]
            &&& (m2.state == ParserState::InCue || m2.pending.len() > 0) ==> m2.cues.len() > m.cues.len()
        },
    decreases lines.len(),
{
    if lines.len() == a {
        assert(lines.subrange(0, a) =~= lines);
    } else {
        assert(lines.drop_last().subrange(0, a) =~= lines.subrange(0, a));
        lemma_cues_kept(lines.drop_last(), a);
        lemma_run_consistent(lines.drop_last());
    }
}

/// The text of each cue is its text lines joined by `\n`: in an accepted
/// document, the cue opened by the timing line at `k` holds the lines after
/// it up to the next blank line at `e`, or up to the end of the document.
pub proof fn law_cue_text_of_block(lines: Seq<Seq<char>>, k: int, e: int)
    requires
        cues_of(lines) is Ok,
        is_cue_start(lines, k),
        k < e <= lines.len(),
        forall|i: int| k < i < e ==> (#[trigger] lines[i]).len() > 0,
        e == lines.len() || lines[e].len() == 0,
    ensures
        cue_start_count(lines.subrange(0, k + 1)) >= 1,
        cue_start_count(lines.subrange(0, k + 1)) <= cues_of(lines)->Ok_0.len(),
        cues_of(lines)->Ok_0[cue_start_count(lines.subrange(0, k + 1)) - 1].text == join_lines(
            lines.subrange(k + 1, e),
        ),
{
    let before = lines.subrange(0, k);
    let timing = lines[k];
    let texts = lines.subrange(k + 1, e);
    lemma_prefix_accepted(lines, k);
    lemma_run_shape(before);
    lemma_run_shape(lines);
    lemma_run_consistent(before);
    assert(before.last() == lines[k - 1]);
    let m = run(before)->Ok_0;
    assert(timing_of(timing) is Ok);
    assert forall|i: int| 0 <= i < texts.len() implies (#[trigger] texts[i]).len() > 0 by {
        assert(texts[i] == lines[k + 1 + i]);
    }
    let upto = lines.subrange(0, k + 1);
    assert(upto.drop_last() =~= before);
    assert(is_cue_start(upto, k));
    assert(cue_start_count(upto) == m.cues.len() + 1);
    let j = m.cues.len() as int;
    let cue = opened_cue(timing, join_lines(texts));
    if e == lines.len() {
        law_cue_text_at_end(before, timing, texts);
        assert(before.push(timing) + texts =~= lines);
        assert(cues_of(lines)->Ok_0 == m.cues.push(cue));
    } else {
        let block = lines.subrange(0, e + 1);
        law_cue_text_joined(before, timing, texts);
        assert(lines[e] =~= Seq::<char>::empty());
        assert(before.push(timing) + texts.push(Seq::empty()) =~= block);
        lemma_prefix_accepted(lines, e + 1);
        lemma_run_consistent(block);
        lemma_run_shape(block);
        let mb = run(block)->Ok_0;
        assert(block.last() == lines[e]);
        assert(mb.cues == m.cues.push(cue));
        lemma_cues_kept(lines, e + 1);
        lemma_run_consistent(lines);
        let m2 = run(lines)->Ok_0;
        assert(m2.cues[j] == cue);
        if m2.pending.len() > 0 {
            assert(flush(m2.cues, m2.pending)[j] == cue);
        }
    }
}

} // verus!
