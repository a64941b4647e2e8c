//! What the parser finds in lines that were moved: the same, with the
//! offsets that it records moved along.
use crate::lines::{first_newline, first_text, lemma_first_newline, lemma_first_text};
use crate::mdparse::{lines, run, step, NoteDataView, ParseState, ParserView};
use crate::laws::section::{lemma_first_text_is, lemma_lines_split};
use crate::text::is_newline;
use vstd::prelude::*;

verus! {

/// The state of the parser after the given lines, and what it has found in
/// them, where it starts in the given state with the given findings.
pub open spec fn run_on(
    cfg: ParserView,
    bytes: Seq<u8>,
    state: ParseState,
    d: NoteDataView,
    lines: Seq<(int, int)>,
) -> (ParseState, NoteDataView)
    decreases lines.len(),
{
    if lines.len() == 0 {
        (state, d)
    } else {
        let (before, found) = run_on(cfg, bytes, state, d, lines.drop_last());
        let (start, end) = lines.last();
        step(cfg, before, bytes.subrange(start, end), start, found)
    }
}

/// Reading lines one after the other is reading the first of them and then
/// going on with the rest.
pub proof fn lemma_run_on_split(cfg: ParserView, t: Seq<u8>, a: Seq<(int, int)>, b: Seq<(int, int)>)
    ensures
        run(cfg, t, a + b) == run_on(cfg, t, run(cfg, t, a).0, run(cfg, t, a).1, b),
    decreases b.len(),
{
    if b.len() == 0 {
        assert(a + b =~= a);
    } else {
        lemma_run_on_split(cfg, t, a, b.drop_last());
        assert((a + b).drop_last() =~= a + b.drop_last());
        assert((a + b).last() == b.last());
    }
}

/// The lines moved by a number of bytes.
pub open spec fn moved(ls: Seq<(int, int)>, by: int) -> Seq<(int, int)> {
    ls.map_values(|l: (int, int)| (l.0 + by, l.1 + by))
}

/// Whether an offset of the one reading is the offset of the other: it was
/// recorded at or behind `from` and is moved by `by`, or both are what they
/// were at the start, or there is none in either.
pub open spec fn same_offset(
    a: Option<usize>,
    b: Option<usize>,
    from: int,
    by: int,
    a0: Option<usize>,
    b0: Option<usize>,
) -> bool {
    ||| a == a0 && b == b0
    ||| a is None && b is None
    ||| a matches Some(x) && b matches Some(y) && x >= from && y == x + by
}

/// Whether two readings found the same, as far as they started from the
/// same, but for the offsets of the section, which in the one are those of
/// the other moved.
pub open spec fn alike(
    a: NoteDataView,
    b: NoteDataView,
    from: int,
    by: int,
    a0: NoteDataView,
    b0: NoteDataView,
) -> bool {
    &&& a0.titles == b0.titles ==> a.titles == b.titles
    &&& a0.ids == b0.ids ==> a.ids == b.ids
    &&& a0.links == b0.links ==> a.links == b.links
    &&& same_offset(a.backlinks_start, b.backlinks_start, from, by, a0.backlinks_start, b0.backlinks_start)
    &&& same_offset(a.backlinks_end, b.backlinks_end, from, by, a0.backlinks_end, b0.backlinks_end)
}

/// One line, read at two places in the same state with like findings,
/// leaves the parser in the same state with like findings.
proof fn lemma_step_moved(
    cfg: ParserView,
    state: ParseState,
    line: Seq<u8>,
    start: int,
    a: NoteDataView,
    b: NoteDataView,
    from: int,
    by: int,
    a0: NoteDataView,
    b0: NoteDataView,
)
    requires
        alike(a, b, from, by, a0, b0),
        0 <= from <= start <= usize::MAX,
        0 <= start + by <= usize::MAX,
    ensures
        step(cfg, state, line, start, a).0 == step(cfg, state, line, start + by, b).0,
        alike(
            step(cfg, state, line, start, a).1,
            step(cfg, state, line, start + by, b).1,
            from,
            by,
            a0,
            b0,
        ),
{
    reveal(step);
}

/// Lines that hold the same bytes at two places, read in the same state
/// with like findings, leave the parser in the same state with like
/// findings.
pub proof fn lemma_run_moved(
    cfg: ParserView,
    t: Seq<u8>,
    u: Seq<u8>,
    state: ParseState,
    a0: NoteDataView,
    b0: NoteDataView,
    ls: Seq<(int, int)>,
    from: int,
    by: int,
)
    requires
        t.len() <= usize::MAX,
        u.len() <= usize::MAX,
        0 <= from,
        forall|j: int|
            0 <= j < ls.len() ==> from <= (#[trigger] ls[j]).0 <= ls[j].1 <= t.len() && 0 <= ls[j].0
                + by && ls[j].1 + by <= u.len() && u.subrange(ls[j].0 + by, ls[j].1 + by)
                == t.subrange(ls[j].0, ls[j].1),
    ensures
        run_on(cfg, t, state, a0, ls).0 == run_on(cfg, u, state, b0, moved(ls, by)).0,
        alike(
            run_on(cfg, t, state, a0, ls).1,
            run_on(cfg, u, state, b0, moved(ls, by)).1,
            from,
            by,
            a0,
            b0,
        ),
    decreases ls.len(),
{
    if ls.len() > 0 {
        let front = ls.drop_last();
        assert forall|j: int| 0 <= j < front.len() implies from <= (#[trigger] front[j]).0
            <= front[j].1 <= t.len() && 0 <= front[j].0 + by && front[j].1 + by <= u.len()
            && u.subrange(front[j].0 + by, front[j].1 + by) == t.subrange(front[j].0, front[j].1) by {
            assert(front[j] == ls[j]);
        }
        lemma_run_moved(cfg, t, u, state, a0, b0, front, from, by);
        assert(moved(ls, by).drop_last() =~= moved(front, by));
        let (start, end) = ls.last();
        assert(ls[ls.len() - 1] == ls.last());
        assert(moved(ls, by).last() == (start + by, end + by));
        let (before, a) = run_on(cfg, t, state, a0, front);
        let (other, b) = run_on(cfg, u, state, b0, moved(front, by));
        lemma_step_moved(cfg, before, t.subrange(start, end), start, a, b, from, by, a0, b0);
    }
}

/// Reading lines from a state on is reading the first line and then going
/// on with the rest.
pub proof fn lemma_run_on_first(
    cfg: ParserView,
    t: Seq<u8>,
    state: ParseState,
    d: NoteDataView,
    ls: Seq<(int, int)>,
)
    requires
        ls.len() > 0,
    ensures
        run_on(cfg, t, state, d, ls) == run_on(
            cfg,
            t,
            step(cfg, state, t.subrange(ls[0].0, ls[0].1), ls[0].0, d).0,
            step(cfg, state, t.subrange(ls[0].0, ls[0].1), ls[0].0, d).1,
            ls.drop_first(),
        ),
    decreases ls.len(),
{
    let rest = ls.drop_first();
    let first = step(cfg, state, t.subrange(ls[0].0, ls[0].1), ls[0].0, d);
    if ls.len() == 1 {
        let none = Seq::<(int, int)>::empty();
        assert(ls.drop_last() =~= none);
        assert(rest =~= none);
        assert(ls.last() == ls[0]);
        assert(run_on(cfg, t, state, d, none) == (state, d));
        assert(run_on(cfg, t, first.0, first.1, none) == first);
        assert(run_on(cfg, t, state, d, ls) == first);
    } else {
        let front = ls.drop_last();
        lemma_run_on_first(cfg, t, state, d, front);
        assert(front.drop_first() =~= rest.drop_last());
        assert(front[0] == ls[0]);
        assert(rest.last() == ls.last());
        let (a, b) = ls.last();
        let before = run_on(cfg, t, state, d, front);
        assert(run_on(cfg, t, state, d, ls) == step(cfg, before.0, t.subrange(a, b), a, before.1));
        let other = run_on(cfg, t, first.0, first.1, rest.drop_last());
        assert(before == other);
        assert(run_on(cfg, t, first.0, first.1, rest) == step(
            cfg,
            other.0,
            t.subrange(a, b),
            a,
            other.1,
        ));
    }
}

/// The first byte that is no newline stands in a text where it stands in
/// the part of the text from an offset on.
pub proof fn lemma_first_text_moved(t: Seq<u8>, by: int, i: int)
    requires
        0 <= by,
        0 <= i,
        by + i <= t.len(),
    ensures
        first_text(t, by + i) == first_text(t.subrange(by, t.len() as int), i) + by,
    decreases t.len() - by - i,
{
    let part = t.subrange(by, t.len() as int);
    if by + i < t.len() {
        assert(part[i] == t[by + i]);
        if is_newline(t[by + i]) {
            lemma_first_text_moved(t, by, i + 1);
        }
    }
}

/// The first newline stands in a text where it stands in the part of the
/// text from an offset on.
pub proof fn lemma_first_newline_moved(t: Seq<u8>, by: int, i: int)
    requires
        0 <= by,
        0 <= i,
        by + i <= t.len(),
    ensures
        first_newline(t, by + i) == first_newline(t.subrange(by, t.len() as int), i) + by,
    decreases t.len() - by - i,
{
    let part = t.subrange(by, t.len() as int);
    if by + i < t.len() {
        assert(part[i] == t[by + i]);
        if !is_newline(t[by + i]) {
            lemma_first_newline_moved(t, by, i + 1);
        }
    }
}

/// The lines of a text from an offset on are the lines of that part of the
/// text, moved to where the part stands.
pub proof fn lemma_lines_moved(t: Seq<u8>, by: int, i: int)
    requires
        0 <= by,
        0 <= i,
        by + i <= t.len(),
    ensures
        lines(t, by + i) == moved(lines(t.subrange(by, t.len() as int), i), by),
    decreases t.len() - by - i,
{
    let part = t.subrange(by, t.len() as int);
    lemma_first_text_moved(t, by, i);
    lemma_first_text(part, i);
    let start = first_text(part, i);
    if start < part.len() {
        lemma_first_newline_moved(t, by, start);
        lemma_first_newline(part, start);
        let end = first_newline(part, start);
        lemma_lines_moved(t, by, end);
        assert(lines(part, i) =~= seq![(start, end)] + lines(part, end));
        assert(lines(t, by + i) =~= seq![(start + by, end + by)] + lines(t, by + end));
        assert(moved(seq![(start, end)] + lines(part, end), by) =~= seq![(start + by, end + by)]
            + moved(lines(part, end), by));
    } else {
        assert(lines(part, i) =~= Seq::<(int, int)>::empty());
        assert(lines(t, by + i) =~= Seq::<(int, int)>::empty());
        assert(moved(Seq::<(int, int)>::empty(), by) =~= Seq::<(int, int)>::empty());
    }
}

/// Newlines at the end of a text add no lines.
pub proof fn lemma_lines_before_final_newlines(x: Seq<u8>, y: Seq<u8>)
    requires
        forall|k: int| 0 <= k < y.len() ==> is_newline(#[trigger] y[k]),
    ensures
        lines(x + y, 0) == lines(x, 0),
{
    let t = x + y;
    if y.len() > 0 {
        assert(is_newline(y[0]));
    }
    lemma_lines_split(x, y, 0);
    assert forall|k: int| x.len() <= k < t.len() implies is_newline(#[trigger] t[k]) by {
        assert(t[k] == y[k - x.len()]);
    }
    lemma_first_text_is(t, x.len() as int, t.len() as int);
    assert(lines(t, x.len() as int) =~= Seq::<(int, int)>::empty());
    assert(lines(x, 0) + Seq::<(int, int)>::empty() =~= lines(x, 0));
}

} // verus!
