//! Character sequences: splitting at a separator, lines, and joining.

use vstd::prelude::*;
use vstd::std_specs::iter::IteratorSpec;

verus! {

broadcast use vstd::string::group_string_axioms;

/// The characters of `s`, in order.
pub fn chars_of(s: &str) -> (r: Vec<char>)
    ensures
        r@ == s@,
{
    let mut r: Vec<char> = Vec::new();
    let mut it = s.chars();
    loop
        invariant
            r@ + it.remaining() == s@,
            it.obeys_prophetic_iter_laws(),
            it.decrease() is Some,
        ensures
            r@ == s@,
        decreases it.decrease()->0,
    {
        match it.next() {
            Some(c) => {
                r.push(c);
            },
            None => {
                break;
            },
        }
    }
    r
}


/// The pieces of `s` between the occurrences of `sep`, in order: one more
/// piece than `s` holds separators, empty pieces included.
pub open spec fn split_on(s: Seq<char>, sep: char) -> Seq<Seq<char>>
    decreases s.len(),
{
    if s.len() == 0 {
        seq![Seq::empty()]
    } else {
        let pieces = split_on(s.drop_last(), sep);
        if s.last() == sep {
            pieces.push(Seq::empty())
        } else {
            pieces.update(pieces.len() - 1, pieces.last().push(s.last()))
        }
    }
}

/// There is always at least one piece.
pub proof fn lemma_split_on_len(s: Seq<char>, sep: char)
    ensures
        split_on(s, sep).len() >= 1,
    decreases s.len(),
{
    if s.len() > 0 {
        lemma_split_on_len(s.drop_last(), sep);
    }
}

/// `line` without one carriage return at its end, if it has one.
pub open spec fn strip_cr(line: Seq<char>) -> Seq<char> {
    if line.len() > 0 && line.last() == '\r' {
        line.drop_last()
    } else {
        line
    }
}

/// The lines of `s`: it is split at each `\n`, a `\r` right before a `\n`
/// is dropped, and a final line ending adds no empty line.
pub open spec fn lines_of(s: Seq<char>) -> Seq<Seq<char>> {
    let pieces = split_on(s, '\n');
    let ended = pieces.drop_last().map_values(|p: Seq<char>| strip_cr(p));
    if pieces.last().len() == 0 {
        ended
    } else {
        ended.push(pieces.last())
    }
}

/// `parts` joined with one `\n` between each two of them.
pub open spec fn join_lines(parts: Seq<Seq<char>>) -> Seq<char>
    decreases parts.len(),
{
    if parts.len() == 0 {
        Seq::empty()
    } else if parts.len() == 1 {
        parts[0]
    } else {
        join_lines(parts.drop_last()) + seq!['\n'] + parts.last()
    }
}

/// Relies on `String::push`: appends one character.
#[verifier::external_body]
fn push_char(s: &mut String, c: char)
    ensures
        final(s)@ == old(s)@.push(c),
{
    s.push(c)
}

/// The characters `v[lo..hi]` as a string.
pub fn string_from_chars(v: &Vec<char>, lo: usize, hi: usize) -> (r: String)
    requires
        lo <= hi <= v@.len(),
    ensures
        r@ == v@.subrange(lo as int, hi as int),
{
    let mut r = String::new();
    let mut i = lo;
    while i < hi
        invariant
            lo <= i <= hi <= v@.len(),
            r@ == v@.subrange(lo as int, i as int),
        decreases hi - i,
    {
        push_char(&mut r, v[i]);
        assert(v@.subrange(lo as int, i + 1) =~= v@.subrange(lo as int, i as int).push(v@[i as int]));
        i += 1;
    }
    r
}

/// Splits `s` at each occurrence of `sep`.
pub fn split_chars(s: &Vec<char>, sep: char) -> (r: Vec<Vec<char>>)
    ensures
        r@.map_values(|p: Vec<char>| p@) == split_on(s@, sep),
{
    let mut pieces: Vec<Vec<char>> = Vec::new();
    let mut cur: Vec<char> = Vec::new();
    let mut i: usize = 0;
    assert(s@.subrange(0, 0) =~= Seq::<char>::empty());
    while i < s.len()
        invariant
            i <= s@.len(),
            pieces@.map_values(|p: Vec<char>| p@).push(cur@) == split_on(s@.subrange(0, i as int), sep),
        decreases s@.len() - i,
    {
        let c = s[i];
        let ghost before = s@.subrange(0, i as int);
        assert(s@.subrange(0, i + 1).drop_last() =~= before);
        proof {
            lemma_split_on_len(before, sep);
        }
        if c == sep {
            let done = cur;
            pieces.push(done);
            cur = Vec::new();
            assert(pieces@.map_values(|p: Vec<char>| p@).push(cur@) =~= split_on(before, sep).push(Seq::empty()));
        } else {
            cur.push(c);
            assert(pieces@.map_values(|p: Vec<char>| p@).push(cur@) =~= split_on(before, sep).update(
                split_on(before, sep).len() - 1,
                split_on(before, sep).last().push(c),
            ));
        }
        i += 1;
    }
    assert(s@.subrange(0, s@.len() as int) =~= s@);
    pieces.push(cur);
    pieces
}

/// The lines of `s`, as `lines_of` describes them.
pub fn lines(s: &str) -> (r: Vec<String>)
    ensures
        r@.map_values(|l: String| l@) == lines_of(s@),
{
    let chars = chars_of(s);
    let pieces = split_chars(&chars, '\n');
    proof {
        lemma_split_on_len(s@, '\n');
    }
    let n = pieces.len() - 1;
    let ghost ended = split_on(s@, '\n').drop_last().map_values(|p: Seq<char>| strip_cr(p));
    let mut r: Vec<String> = Vec::new();
    let mut i: usize = 0;
    while i < n
        invariant
            n + 1 == pieces@.len(),
            pieces@.map_values(|p: Vec<char>| p@) == split_on(s@, '\n'),
            ended == split_on(s@, '\n').drop_last().map_values(|p: Seq<char>| strip_cr(p)),
            i <= n,
            ended.len() == n,
            r@.len() == i,
            r@.map_values(|l: String| l@) == ended.subrange(0, i as int),
        decreases n - i,
    {
        let piece = &pieces[i];
        let mut hi = piece.len();
        if hi > 0 && piece[hi - 1] == '\r' {
            hi -= 1;
        }
        let line = string_from_chars(piece, 0, hi);
        assert(pieces@.map_values(|p: Vec<char>| p@)[i as int] == piece@);
        assert(line@ =~= strip_cr(piece@));
        assert(split_on(s@, '\n').drop_last()[i as int] == piece@);
        assert(ended[i as int] == strip_cr(piece@));
        let ghost prev = r@;
        r.push(line);
        assert forall|j: int| 0 <= j < i implies #[trigger] r@[j]@ == ended[j] by {
            assert(prev[j] == r@[j]);
            assert(prev.map_values(|l: String| l@)[j] == ended.subrange(0, i as int)[j]);
        }
        assert(r@.map_values(|l: String| l@) =~= ended.subrange(0, i + 1));
        i += 1;
    }
    assert(r@.map_values(|l: String| l@) =~= ended);
    let last = &pieces[n];
    assert(pieces@.map_values(|p: Vec<char>| p@)[n as int] == last@);
    if last.len() > 0 {
        let line = string_from_chars(last, 0, last.len());
        assert(line@ =~= last@);
        r.push(line);
        assert(r@.map_values(|l: String| l@) =~= ended.push(last@));
    }
    r
}

/// `parts` joined with one `\n` between each two of them.
pub fn join(parts: &Vec<String>) -> (r: String)
    ensures
        r@ == join_lines(parts@.map_values(|l: String| l@)),
{
    let mut r = String::new();
    let mut i: usize = 0;
    while i < parts.len()
        invariant
            i <= parts@.len(),
            r@ == join_lines(parts@.map_values(|l: String| l@).subrange(0, i as int)),
        decreases parts@.len() - i,
    {
        let ghost done = parts@.map_values(|l: String| l@).subrange(0, i as int);
        assert(parts@.map_values(|l: String| l@).subrange(0, i + 1).drop_last() =~= done);
        if i > 0 {
            r.append("\n");
            proof {
                reveal_strlit("\n");
            }
        }
        r.append(parts[i].as_str());
        assert(r@ =~= join_lines(parts@.map_values(|l: String| l@).subrange(0, i + 1)));
        i += 1;
    }
    assert(parts@.map_values(|l: String| l@).subrange(0, parts@.len() as int) =~= parts@.map_values(|l: String| l@));
    r
}

} // verus!
