//! WebVTT documents: timestamps, and the line-driven parser that turns a
//! document into its cues.

use vstd::prelude::*;
use crate::duration::{
    Duration, NANOS_PER_SEC, fraction_nanos, is_numeral, numeral_value, parse_u64, scale_fraction,
};
use crate::text::{
    chars_of, join, join_lines, lemma_split_on_len, lines, lines_of, split_chars, split_on, string_from_chars,
};

verus! {

/// Why a document could not be parsed.
#[derive(Clone, Copy, Debug, PartialEq, Eq, Structural)]
pub enum Error {
    /// The `WEBVTT` line, or the blank line after it, is missing.
    InvalidHeader,
    /// A timing line, or a timestamp in it, is malformed.
    InvalidCueTime,
}

/// The whole seconds that the components `comps` give, read from the left
/// as places in base sixty (hours, minutes, seconds).
pub open spec fn sexagesimal(comps: Seq<Seq<char>>) -> nat
    decreases comps.len(),
{
    if comps.len() == 0 {
        0
    } else {
        sexagesimal(comps.drop_last()) * 60 + numeral_value(comps.last())
    }
}

/// The timestamp `t`: one to three components separated by `:`, each an
/// unsigned numeral, the last of which may carry a fraction after a `.`.
/// The seconds must fit a `u64`; the fraction may have any length.
pub open spec fn duration_of(t: Seq<char>) -> Result<Duration, Error> {
    let parts = split_on(t, ':');
    let halves = split_on(parts.last(), '.');
    let comps = parts.update(parts.len() - 1, halves[0]);
    if parts.len() <= 3 && halves.len() <= 2 && (forall|i: int|
        0 <= i < comps.len() ==> is_numeral(#[trigger] comps[i])) && sexagesimal(comps) <= u64::MAX
        && (halves.len() == 2 ==> is_numeral(halves[1])) {
        Ok(
            Duration {
                secs: sexagesimal(comps) as u64,
                nanos: if halves.len() == 2 {
                    scale_fraction(numeral_value(halves[1]), halves[1].len()) as u32
                } else {
                    0
                },
            },
        )
    } else {
        Err(Error::InvalidCueTime)
    }
}

/// The seconds of a prefix of the components are no more than those of all.
pub proof fn lemma_sexagesimal_prefix(comps: Seq<Seq<char>>, k: int)
    requires
        0 <= k <= comps.len(),
    ensures
        sexagesimal(comps.subrange(0, k)) <= sexagesimal(comps),
    decreases comps.len(),
{
    if k < comps.len() {
        lemma_sexagesimal_prefix(comps.drop_last(), k);
        assert(comps.drop_last().subrange(0, k) =~= comps.subrange(0, k));
    } else {
        assert(comps.subrange(0, k) =~= comps);
    }
}

/// Reads the timestamp `text`, as `duration_of` describes it.
pub fn parse_duration(text: &str) -> (r: Result<Duration, Error>)
    ensures
        r == duration_of(text@),
        r matches Ok(d) ==> d.wf(),
{
    let chars = chars_of(text);
    let parts = split_chars(&chars, ':');
    let ghost parts_v = split_on(text@, ':');
    proof {
        lemma_split_on_len(text@, ':');
        assert(parts@.map_values(|p: Vec<char>| p@) == parts_v);
    }
    let n = parts.len();
    if n > 3 {
        return Err(Error::InvalidCueTime);
    }
    let last = &parts[n - 1];
    assert(last@ == parts_v.last());
    let halves = split_chars(last, '.');
    let ghost halves_v = split_on(parts_v.last(), '.');
    proof {
        lemma_split_on_len(parts_v.last(), '.');
        assert(halves@.map_values(|p: Vec<char>| p@) == halves_v);
        assert(halves@[0]@ == halves_v[0]);
    }
    let ghost comps = parts_v.update(n - 1, halves_v[0]);
    if halves.len() > 2 {
        return Err(Error::InvalidCueTime);
    }
    let mut nanos: u32 = 0;
    if halves.len() == 2 {
        let frac = &halves[1];
        assert(frac@ == halves_v[1]);
        match fraction_nanos(frac) {
            None => {
                return Err(Error::InvalidCueTime);
            },
            Some(x) => {
                nanos = x;
            },
        }
    }
    let mut secs: u64 = 0;
    let mut i: usize = 0;
    assert(comps.subrange(0, 0) =~= Seq::<Seq<char>>::empty());
    while i < n
        invariant
            n == parts@.len() == comps.len(),
            1 <= n <= 3,
            parts@.map_values(|p: Vec<char>| p@) == parts_v,
            comps == parts_v.update(n - 1, halves_v[0]),
            parts_v == split_on(text@, ':'),
            halves_v == split_on(parts_v.last(), '.'),
            1 <= halves@.len() <= 2,
            halves_v.len() == 2 ==> is_numeral(halves_v[1]),
            nanos == (if halves_v.len() == 2 {
                scale_fraction(numeral_value(halves_v[1]), halves_v[1].len()) as u32
            } else {
                0u32
            }),
            nanos < NANOS_PER_SEC,
            halves@.map_values(|p: Vec<char>| p@) == halves_v,
            halves@[0]@ == halves_v[0],
            i <= n,
            forall|j: int| 0 <= j < i ==> is_numeral(#[trigger] comps[j]),
            secs == sexagesimal(comps.subrange(0, i as int)),
        decreases n - i,
    {
        let comp = if i == n - 1 {
            &halves[0]
        } else {
            &parts[i]
        };
        assert(comp@ == comps[i as int]);
        assert(comps.subrange(0, i + 1).drop_last() =~= comps.subrange(0, i as int));
        match parse_u64(comp) {
            None => {
                proof {
                    if is_numeral(comps[i as int]) {
                        lemma_sexagesimal_prefix(comps, i + 1);
                        assert(comps.subrange(0, i + 1).last() == comps[i as int]);
                        assert(sexagesimal(comps) > u64::MAX);
                    }
                }
                return Err(Error::InvalidCueTime);
            },
            Some(v) => {
                if secs > (u64::MAX - v) / 60 {
                    proof {
                        lemma_sexagesimal_prefix(comps, i + 1);
                        assert(secs * 60 + v > u64::MAX) by (nonlinear_arith)
                            requires
                                secs > (u64::MAX - v) / 60,
                                v <= u64::MAX,
                        ;
                    }
                    return Err(Error::InvalidCueTime);
                }
                secs = secs * 60 + v;
            },
        }
        i += 1;
    }
    assert(comps.subrange(0, n as int) =~= comps);
    Ok(Duration { secs, nanos })
}


/// One subtitle entry: when it shows, when it goes, and its text.
#[derive(Debug, PartialEq, PartialOrd)]
pub struct Cue {
    pub start: Duration,
    pub end: Duration,
    pub text: String,
}

/// A cue as a mathematical value.
pub struct CueModel {
    pub start: Duration,
    pub end: Duration,
    pub text: Seq<char>,
}

impl View for Cue {
    type V = CueModel;

    open spec fn view(&self) -> CueModel {
        CueModel { start: self.start, end: self.end, text: self.text@ }
    }
}

/// The models of `cues`, in order.
pub open spec fn cue_models(cues: Seq<Cue>) -> Seq<CueModel> {
    cues.map_values(|c: Cue| c@)
}

/// Where the parser stands between two lines.
#[derive(Clone, Copy, Debug, PartialEq, Eq, Structural)]
pub enum ParserState {
    /// Before the first line, which must be `WEBVTT`.
    InHeader,
    /// After the header, on the line that must be blank.
    BlankLineAfterHeader,
    /// Between cue blocks: blank lines, or the timing line of the next cue.
    BetweenCues,
    /// In the text lines of the latest cue.
    InCue,
}

/// The parser's whole state: where it stands, the cues so far, and the text
/// lines of the latest cue that are not yet joined into it.
pub struct Machine {
    pub state: ParserState,
    pub cues: Seq<CueModel>,
    pub pending: Seq<Seq<char>>,
}

/// The header line.
pub open spec fn header() -> Seq<char> {
    seq!['W', 'E', 'B', 'V', 'T', 'T']
}

/// The separator between the two timestamps of a timing line.
pub open spec fn arrow() -> Seq<char> {
    seq![' ', '-', '-', '>', ' ']
}

/// The first position at or after `k` where `arrow()` occurs in `s`.
pub open spec fn arrow_from(s: Seq<char>, k: int) -> Option<int>
    decreases s.len() - k,
{
    if k < 0 || k + 5 > s.len() {
        None
    } else if s.subrange(k, k + 5) == arrow() {
        Some(k)
    } else {
        arrow_from(s, k + 1)
    }
}

/// The start and end of the timing line `line`: two timestamps on either
/// side of the first ` --> `.
pub open spec fn timing_of(line: Seq<char>) -> Result<(Duration, Duration), Error> {
    match arrow_from(line, 0) {
        None => Err(Error::InvalidCueTime),
        Some(k) => match (duration_of(line.subrange(0, k)), duration_of(line.subrange(k + 5, line.len() as int))) {
            (Ok(start), Ok(end)) => Ok((start, end)),
            _ => Err(Error::InvalidCueTime),
        },
    }
}

/// `cues` with the text of the last one set to `pending` joined by `\n`.
pub open spec fn flush(cues: Seq<CueModel>, pending: Seq<Seq<char>>) -> Seq<CueModel> {
    if cues.len() == 0 {
        cues
    } else {
        cues.update(
            cues.len() - 1,
            CueModel { start: cues.last().start, end: cues.last().end, text: join_lines(pending) },
        )
    }
}

/// The state before the first line.
pub open spec fn initial() -> Machine {
    Machine { state: ParserState::InHeader, cues: Seq::empty(), pending: Seq::empty() }
}

/// What the parser does with one line.
pub open spec fn step(m: Machine, line: Seq<char>) -> Result<Machine, Error> {
    match m.state {
        ParserState::InHeader => if line == header() {
            Ok(Machine { state: ParserState::BlankLineAfterHeader, ..m })
        } else {
            Err(Error::InvalidHeader)
        },
        ParserState::BlankLineAfterHeader => if line.len() == 0 {
            Ok(Machine { state: ParserState::BetweenCues, ..m })
        } else {
            Err(Error::InvalidHeader)
        },
        ParserState::BetweenCues => if line.len() == 0 {
            Ok(m)
        } else {
            match timing_of(line) {
                Ok((start, end)) => Ok(
                    Machine {
                        state: ParserState::InCue,
                        cues: m.cues.push(CueModel { start, end, text: Seq::empty() }),
                        pending: m.pending,
                    },
                ),
                Err(e) => Err(e),
            }
        },
        ParserState::InCue => if line.len() == 0 {
            Ok(
                Machine {
                    state: ParserState::BetweenCues,
                    cues: flush(m.cues, m.pending),
                    pending: Seq::empty(),
                },
            )
        } else {
            Ok(Machine { pending: m.pending.push(line), ..m })
        },
    }
}

/// The state after `lines`, or the error of the first line that fails.
pub open spec fn run(lines: Seq<Seq<char>>) -> Result<Machine, Error>
    decreases lines.len(),
{
    if lines.len() == 0 {
        Ok(initial())
    } else {
        match run(lines.drop_last()) {
            Ok(m) => step(m, lines.last()),
            Err(e) => Err(e),
        }
    }
}

/// The cues of the document made of `lines`: text lines still pending at
/// the end are joined into the last cue.
pub open spec fn cues_of(lines: Seq<Seq<char>>) -> Result<Seq<CueModel>, Error> {
    match run(lines) {
        Ok(m) => Ok(
            if m.pending.len() > 0 {
                flush(m.cues, m.pending)
            } else {
                m.cues
            },
        ),
        Err(e) => Err(e),
    }
}

/// Every start and end in `cues` keeps its nanoseconds below a second.
pub open spec fn cues_wf(cues: Seq<CueModel>) -> bool {
    forall|i: int| 0 <= i < cues.len() ==> (#[trigger] cues[i]).start.wf() && cues[i].end.wf()
}

/// What every reachable state keeps: pending text only in a cue, and a cue
/// to take it.
pub open spec fn consistent(m: Machine) -> bool {
    &&& m.pending.len() > 0 ==> m.state == ParserState::InCue
    &&& m.state == ParserState::InCue ==> m.cues.len() > 0
}

/// Whether `line` is exactly `WEBVTT`.
fn is_header(line: &str) -> (r: bool)
    ensures
        r == (line@ == header()),
{
    let c = chars_of(line);
    let r = c.len() == 6 && c[0] == 'W' && c[1] == 'E' && c[2] == 'B' && c[3] == 'V' && c[4] == 'T'
        && c[5] == 'T';
    if r {
        assert(line@ =~= header());
    }
    r
}

/// Reads the timing line `line`, as `timing_of` describes it.
pub fn parse_timing(line: &str) -> (r: Result<(Duration, Duration), Error>)
    ensures
        r == timing_of(line@),
        r matches Ok((s, e)) ==> s.wf() && e.wf(),
{
    let c = chars_of(line);
    let n = c.len();
    let mut k: usize = 0;
    while n >= 5 && k <= n - 5
        invariant
            k <= n,
            c@ == line@,
            n == c@.len(),
            arrow_from(line@, 0) == arrow_from(line@, k as int),
        decreases n - k,
    {
        if c[k] == ' ' && c[k + 1] == '-' && c[k + 2] == '-' && c[k + 3] == '>' && c[k + 4] == ' ' {
            assert(line@.subrange(k as int, k + 5) =~= arrow());
            let left = string_from_chars(&c, 0, k);
            let right = string_from_chars(&c, k + 5, n);
            let start = parse_duration(left.as_str());
            let end = parse_duration(right.as_str());
            return match (start, end) {
                (Ok(s), Ok(e)) => Ok((s, e)),
                _ => Err(Error::InvalidCueTime),
            };
        }
        assert(line@.subrange(k as int, k + 5) != arrow()) by {
            if line@.subrange(k as int, k + 5) == arrow() {
                assert(line@.subrange(k as int, k + 5)[0] == line@[k as int]);
                assert(line@.subrange(k as int, k + 5)[1] == line@[k + 1]);
                assert(line@.subrange(k as int, k + 5)[2] == line@[k + 2]);
                assert(line@.subrange(k as int, k + 5)[3] == line@[k + 3]);
                assert(line@.subrange(k as int, k + 5)[4] == line@[k + 4]);
            }
        }
        k += 1;
    }
    Err(Error::InvalidCueTime)
}

/// Joins the pending text lines into the last cue and clears them.
fn flush_cue(cues: &mut Vec<Cue>, pending: &mut Vec<String>)
    requires
        old(cues)@.len() > 0,
    ensures
        cue_models(final(cues)@) == flush(cue_models(old(cues)@), line_models(old(pending)@)),
        final(pending)@.len() == 0,
{
    let text = join(pending);
    let last = cues.pop();
    match last {
        Some(c) => {
            cues.push(Cue { start: c.start, end: c.end, text });
        },
        None => {},
    }
    *pending = Vec::new();
    assert(cue_models(cues@) =~= flush(cue_models(old(cues)@), line_models(old(pending)@)));
}

/// Takes one line: the parser's transition, as `step` describes it.
pub fn step_line(
    state: ParserState,
    line: &String,
    cues: &mut Vec<Cue>,
    pending: &mut Vec<String>,
) -> (r: Result<ParserState, Error>)
    requires
        consistent(Machine { state, cues: cue_models(old(cues)@), pending: line_models(old(pending)@) }),
        cues_wf(cue_models(old(cues)@)),
    ensures
        cues_wf(cue_models(final(cues)@)),
        ({
            let m = Machine { state, cues: cue_models(old(cues)@), pending: line_models(old(pending)@) };
            match r {
                Ok(s) => step(m, line@) == Ok::<Machine, Error>(
                    Machine { state: s, cues: cue_models(final(cues)@), pending: line_models(final(pending)@) },
                ),
                Err(e) => step(m, line@) == Err::<Machine, Error>(e),
            }
        }),
{
    let ghost pv = line_models(pending@);
    match state {
        ParserState::InHeader => {
            if is_header(line.as_str()) {
                Ok(ParserState::BlankLineAfterHeader)
            } else {
                Err(Error::InvalidHeader)
            }
        },
        ParserState::BlankLineAfterHeader => {
            if line.as_str().is_empty() {
                Ok(ParserState::BetweenCues)
            } else {
                Err(Error::InvalidHeader)
            }
        },
        ParserState::BetweenCues => {
            if line.as_str().is_empty() {
                return Ok(ParserState::BetweenCues);
            }
            match parse_timing(line.as_str()) {
                Ok((start, end)) => {
                    cues.push(Cue { start, end, text: String::new() });
                    assert(cue_models(cues@) =~= cue_models(old(cues)@).push(
                        CueModel { start, end, text: Seq::empty() },
                    ));
                    assert(cue_models(cues@)[cue_models(cues@).len() - 1].start.wf());
                    Ok(ParserState::InCue)
                },
                Err(e) => Err(e),
            }
        },
        ParserState::InCue => {
            if line.as_str().is_empty() {
                flush_cue(cues, pending);
                assert(line_models(pending@) =~= Seq::<Seq<char>>::empty());
                Ok(ParserState::BetweenCues)
            } else {
                pending.push(line.clone());
                assert(line_models(pending@) =~= pv.push(line@));
                Ok(ParserState::InCue)
            }
        },
    }
}

/// Every state that the parser reaches is consistent.
pub proof fn lemma_run_consistent(lines: Seq<Seq<char>>)
    ensures
        run(lines) matches Ok(m) ==> consistent(m),
    decreases lines.len(),
{
    if lines.len() > 0 {
        lemma_run_consistent(lines.drop_last());
    }
}

/// The models of `lines`, in order.
pub open spec fn line_models(lines: Seq<String>) -> Seq<Seq<char>> {
    lines.map_values(|l: String| l@)
}

/// Parses the document made of `lines`, as `cues_of` describes it.
pub fn from_lines(lines: &Vec<String>) -> (r: Result<Vec<Cue>, Error>)
    ensures
        match r {
            Ok(cues) => cues_of(line_models(lines@)) == Ok::<Seq<CueModel>, Error>(cue_models(cues@)),
            Err(e) => cues_of(line_models(lines@)) == Err::<Seq<CueModel>, Error>(e),
        },
        r matches Ok(cues) ==> cues_wf(cue_models(cues@)),
{
    let ghost lv = line_models(lines@);
    let mut cues: Vec<Cue> = Vec::new();
    let mut pending: Vec<String> = Vec::new();
    let mut state = ParserState::InHeader;
    let mut i: usize = 0;
    assert(lv.subrange(0, 0) =~= Seq::<Seq<char>>::empty());
    assert(cue_models(cues@) =~= Seq::<CueModel>::empty());
    assert(line_models(pending@) =~= Seq::<Seq<char>>::empty());
    while i < lines.len()
        invariant
            lv == line_models(lines@),
            i <= lines@.len(),
            run(lv.subrange(0, i as int)) == Ok::<Machine, Error>(
                Machine { state, cues: cue_models(cues@), pending: line_models(pending@) },
            ),
            cues_wf(cue_models(cues@)),
        decreases lines@.len() - i,
    {
        proof {
            lemma_run_consistent(lv.subrange(0, i as int));
            assert(lv.subrange(0, i + 1).drop_last() =~= lv.subrange(0, i as int));
            assert(lv[i as int] == lines@[i as int]@);
        }
        match step_line(state, &lines[i], &mut cues, &mut pending) {
            Ok(s) => {
                state = s;
            },
            Err(e) => {
                proof {
                    lemma_run_error_persists(lv.subrange(0, i + 1), lv.subrange(i + 1, lv.len() as int));
                    assert(lv.subrange(0, i + 1) + lv.subrange(i + 1, lv.len() as int) =~= lv);
                }
                return Err(e);
            },
        }
        i += 1;
    }
    assert(lv.subrange(0, lines@.len() as int) =~= lv);
    if pending.len() > 0 {
        proof {
            lemma_run_consistent(lv);
        }
        flush_cue(&mut cues, &mut pending);
    }
    Ok(cues)
}

/// Once a line has failed, no further lines change the outcome.
pub proof fn lemma_run_error_persists(lines: Seq<Seq<char>>, rest: Seq<Seq<char>>)
    requires
        run(lines) is Err,
    ensures
        run(lines + rest) == run(lines),
    decreases rest.len(),
{
    if rest.len() > 0 {
        lemma_run_error_persists(lines, rest.drop_last());
        assert((lines + rest).drop_last() =~= lines + rest.drop_last());
    } else {
        assert(lines + rest =~= lines);
    }
}

/// Parses the document `text`: its lines, as `lines_of` describes them, are
/// taken as `cues_of` describes.
pub fn from_str(text: &str) -> (r: Result<Vec<Cue>, Error>)
    ensures
        match r {
            Ok(cues) => cues_of(lines_of(text@)) == Ok::<Seq<CueModel>, Error>(cue_models(cues@)),
            Err(e) => cues_of(lines_of(text@)) == Err::<Seq<CueModel>, Error>(e),
        },
        r matches Ok(cues) ==> cues_wf(cue_models(cues@)),
{
    let ls = lines(text);
    from_lines(&ls)
}

} // verus!
