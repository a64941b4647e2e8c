//! What the offsets of a backlinks section say of the lines of a note: a
//! section that is open at the end of a note starts at a line that the
//! parser took for the heading, and holds list items only.
use crate::lines::{
    first_newline, first_text, has_bom, lemma_first_newline, lemma_first_text, line_at,
};
use crate::mdparse::{lines, no_data, parsed, run, step, NoteDataView, ParseState, ParserView};
use crate::laws::section::{
    final_state, is_bullet, lemma_first_text_in_prefix, lemma_lines_are_lines,
    lemma_lines_from_text, lemma_run_in_prefix, takes_heading,
};
use crate::laws::shifting::{lemma_run_on_split, run_on};
use crate::text::is_newline;
use vstd::prelude::*;
use vstd::utf8::*;

verus! {

/// Whether the lines lie in the text one behind the other, none empty.
pub open spec fn rising(t: Seq<u8>, ls: Seq<(int, int)>) -> bool {
    &&& forall|i: int| 0 <= i < ls.len() ==> 0 <= (#[trigger] ls[i]).0 < ls[i].1 <= t.len()
    &&& forall|i: int, j: int|
        0 <= i < j < ls.len() ==> (#[trigger] ls[i]).1 <= (#[trigger] ls[j]).0
}

/// The lines behind a line are the lines from its end on.
pub proof fn lemma_lines_behind(t: Seq<u8>, from: int, i: int)
    requires
        0 <= from <= t.len(),
        0 <= i < lines(t, from).len(),
    ensures
        lines(t, from).subrange(i + 1, lines(t, from).len() as int) == lines(
            t,
            lines(t, from)[i].1,
        ),
    decreases i,
{
    lemma_first_text(t, from);
    let start = first_text(t, from);
    lemma_first_newline(t, start);
    let end = first_newline(t, start);
    let all = lines(t, from);
    let rest = lines(t, end);
    assert(all =~= seq![(start, end)] + rest);
    if i == 0 {
        assert(all.subrange(1, all.len() as int) =~= rest);
    } else {
        lemma_lines_behind(t, end, i - 1);
        assert(all[i] == rest[i - 1]);
        assert(all.subrange(i + 1, all.len() as int) =~= rest.subrange(i, rest.len() as int));
    }
}

/// The lines of a text lie in it one behind the other, none empty.
pub proof fn lemma_lines_rising(t: Seq<u8>, from: int)
    requires
        0 <= from <= t.len(),
    ensures
        rising(t, lines(t, from)),
{
    let all = lines(t, from);
    assert forall|i: int| 0 <= i < all.len() implies 0 <= (#[trigger] all[i]).0 < all[i].1
        <= t.len() by {
        lemma_lines_are_lines(t, from, i);
    }
    assert forall|i: int, j: int| 0 <= i < j < all.len() implies (#[trigger] all[i]).1 <= (
    #[trigger] all[j]).0 by {
        lemma_lines_are_lines(t, from, i);
        lemma_lines_behind(t, from, i);
        let behind = lines(t, all[i].1);
        assert(behind[j - i - 1] == all[j]);
        lemma_lines_are_lines(t, all[i].1, j - i - 1);
    }
}

/// Whether a line that was read starts at the offset.
pub open spec fn is_start(ls: Seq<(int, int)>, x: int) -> bool {
    exists|j: int| 0 <= j < ls.len() && (#[trigger] ls[j]).0 == x
}

/// What holds between two lines of the state of the parser and of the
/// offsets of the section: the parser is inside the section exactly when the
/// section has a start and no end, there is no end without a start, and
/// both are starts of lines that were read.
pub open spec fn in_step(state: ParseState, d: NoteDataView, ls: Seq<(int, int)>) -> bool {
    &&& state is BackLinks <==> d.backlinks_start is Some && d.backlinks_end is None
    &&& d.backlinks_end is Some ==> d.backlinks_start is Some
    &&& d.backlinks_start matches Some(x) ==> is_start(ls, x as int)
    &&& d.backlinks_end matches Some(x) ==> is_start(ls, x as int)
}

/// What one line does to the offsets of the section: each stays as it is or
/// becomes the start of the line, but for the end, which goes where the line
/// is taken for the heading; and the end becomes the start of the line only
/// where a line that is no list item ends the section, which leaves the
/// start as it is.
pub proof fn lemma_step_offsets(
    cfg: ParserView,
    state: ParseState,
    line: Seq<u8>,
    start: int,
    d: NoteDataView,
)
    requires
        line.len() > 0,
    ensures
        ({
            let found = step(cfg, state, line, start, d).1;
            &&& found.backlinks_start == d.backlinks_start || found.backlinks_start == Some(
                start as usize,
            )
            &&& found.backlinks_end == d.backlinks_end || found.backlinks_end == Some(
                start as usize,
            ) || found.backlinks_end is None
            &&& found.backlinks_start != d.backlinks_start ==> found.backlinks_end is None
            &&& found.backlinks_end == Some(start as usize) && d.backlinks_end != Some(
                start as usize,
            ) ==> state is BackLinks && !is_bullet(line[0]) && found.backlinks_start
                == d.backlinks_start
            &&& found.backlinks_end is None && d.backlinks_end is Some
                ==> found.backlinks_start == Some(start as usize)
        }),
{
    reveal(step);
}

/// The state of the parser and the offsets of the section fit together
/// after any lines.
pub proof fn lemma_run_in_step(cfg: ParserView, t: Seq<u8>, ls: Seq<(int, int)>)
    requires
        t.len() <= usize::MAX,
        forall|i: int| 0 <= i < ls.len() ==> 0 <= (#[trigger] ls[i]).0 < ls[i].1 <= t.len(),
    ensures
        in_step(run(cfg, t, ls).0, run(cfg, t, ls).1, ls),
    decreases ls.len(),
{
    if ls.len() > 0 {
        let front = ls.drop_last();
        assert forall|i: int| 0 <= i < front.len() implies 0 <= (#[trigger] front[i]).0 < front[i].1
            <= t.len() by {
            assert(front[i] == ls[i]);
        }
        lemma_run_in_step(cfg, t, front);
        let (before, d) = run(cfg, t, front);
        let (start, end) = ls.last();
        assert(ls[ls.len() - 1] == ls.last());
        let (after, found) = step(cfg, before, t.subrange(start, end), start, d);
        reveal(step);
        lemma_step_offsets(cfg, before, t.subrange(start, end), start, d);
        match found.backlinks_start {
            Some(x) => {
                if found.backlinks_start == d.backlinks_start {
                    let j = choose|j: int| 0 <= j < front.len() && (#[trigger] front[j]).0 == x;
                    assert(ls[j] == front[j]);
                } else {
                    assert(ls[ls.len() - 1].0 == x);
                }
            },
            None => {},
        }
        match found.backlinks_end {
            Some(x) => {
                if found.backlinks_end == d.backlinks_end {
                    let j = choose|j: int| 0 <= j < front.len() && (#[trigger] front[j]).0 == x;
                    assert(ls[j] == front[j]);
                } else {
                    assert(ls[ls.len() - 1].0 == x);
                }
            },
            None => {},
        }
    }
}

/// Whether the section that the parser found open at the end of the lines
/// starts at line `k`: the parser took that line for the heading, every
/// line behind it starts with the mark of a list item, and what the parser
/// found besides is what it had found in front of that line.
pub open spec fn opens_at(cfg: ParserView, t: Seq<u8>, ls: Seq<(int, int)>, k: int) -> bool {
    &&& 0 <= k < ls.len()
    &&& t.subrange(ls[k].0, ls[k].1) == encode_utf8(cfg.backlinks_heading)
    &&& takes_heading(cfg, run(cfg, t, ls.subrange(0, k)).0, t.subrange(ls[k].0, ls[k].1))
    &&& run(cfg, t, ls) == (
        ParseState::BackLinks,
        NoteDataView {
            backlinks_start: Some(ls[k].0 as usize),
            backlinks_end: None,
            ..run(cfg, t, ls.subrange(0, k)).1
        },
    )
    &&& forall|j: int| k < j < ls.len() ==> is_bullet(t[(#[trigger] ls[j]).0])
}

/// What one line does where the section stays open or opens: the line is a
/// list item inside the section and changes nothing, or it is the heading
/// and opens the section at its own start.
proof fn lemma_step_into_section(
    cfg: ParserView,
    state: ParseState,
    line: Seq<u8>,
    start: int,
    d: NoteDataView,
)
    requires
        line.len() > 0,
        0 <= start <= usize::MAX,
        state is BackLinks <==> d.backlinks_start is Some && d.backlinks_end is None,
        d.backlinks_end is Some ==> d.backlinks_start is Some,
        d.backlinks_start != Some(start as usize),
        step(cfg, state, line, start, d).1.backlinks_start is Some,
        step(cfg, state, line, start, d).1.backlinks_end is None,
    ensures
        step(cfg, state, line, start, d).0 is BackLinks,
        step(cfg, state, line, start, d).1.backlinks_start == d.backlinks_start
            ==> state is BackLinks
            && is_bullet(line[0]) && step(cfg, state, line, start, d).1 == d,
        step(cfg, state, line, start, d).1.backlinks_start != d.backlinks_start ==> takes_heading(
            cfg,
            state,
            line,
        ) && line == encode_utf8(cfg.backlinks_heading) && step(cfg, state, line, start, d).1 == (
        NoteDataView { backlinks_start: Some(start as usize), backlinks_end: None, ..d }),
{
    reveal(step);
    reveal(takes_heading);
}

/// A section that the parser found open at the end of the lines starts at
/// one of them.
pub proof fn lemma_open_section(cfg: ParserView, t: Seq<u8>, ls: Seq<(int, int)>) -> (k: int)
    requires
        t.len() <= usize::MAX,
        rising(t, ls),
        run(cfg, t, ls).1.backlinks_start is Some,
        run(cfg, t, ls).1.backlinks_end is None,
    ensures
        opens_at(cfg, t, ls, k),
    decreases ls.len(),
{
    let front = ls.drop_last();
    assert(ls.len() > 0) by {
        if ls.len() == 0 {
            assert(run(cfg, t, ls).1 == no_data());
        }
    }
    assert(rising(t, front)) by {
        assert forall|i: int| 0 <= i < front.len() implies 0 <= (#[trigger] front[i]).0 < front[i].1
            <= t.len() by {
            assert(front[i] == ls[i]);
        }
        assert forall|i: int, j: int| 0 <= i < j < front.len() implies (#[trigger] front[i]).1 <= (
        #[trigger] front[j]).0 by {
            assert(front[i] == ls[i] && front[j] == ls[j]);
        }
    }
    lemma_run_in_step(cfg, t, front);
    let (state, d) = run(cfg, t, front);
    let last = ls.len() - 1;
    let (start, end) = ls.last();
    assert(ls[last] == ls.last());
    let line = t.subrange(start, end);
    assert(d.backlinks_start != Some(start as usize)) by {
        if d.backlinks_start is Some {
            let x = d.backlinks_start->0;
            let j = choose|j: int| 0 <= j < front.len() && (#[trigger] front[j]).0 == x;
            assert(front[j] == ls[j]);
            assert(ls[j].1 <= ls[last].0);
        }
    }
    lemma_step_into_section(cfg, state, line, start, d);
    let found = run(cfg, t, ls).1;
    if found.backlinks_start == d.backlinks_start {
        let k = lemma_open_section(cfg, t, front);
        assert(front.subrange(0, k) =~= ls.subrange(0, k));
        assert(line[0] == t[start]);
        assert forall|j: int| k < j < ls.len() implies is_bullet(t[(#[trigger] ls[j]).0]) by {
            if j < front.len() {
                assert(front[j] == ls[j]);
            }
        }
        assert(front[k] == ls[k]);
        k
    } else {
        assert(ls.subrange(0, last) =~= front);
        last
    }
}

/// The first lines of lines that lie one behind the other lie one behind
/// the other.
pub proof fn lemma_rising_front(t: Seq<u8>, ls: Seq<(int, int)>, j: int)
    requires
        rising(t, ls),
        0 <= j <= ls.len(),
    ensures
        rising(t, ls.subrange(0, j)),
{
    let front = ls.subrange(0, j);
    assert forall|i: int| 0 <= i < front.len() implies 0 <= (#[trigger] front[i]).0 < front[i].1
        <= t.len() by {
        assert(front[i] == ls[i]);
    }
    assert forall|i: int, k: int| 0 <= i < k < front.len() implies (#[trigger] front[i]).1 <= (
    #[trigger] front[k]).0 by {
        assert(front[i] == ls[i] && front[k] == ls[k]);
    }
}

/// The start of the section was what it is at the end ever since the last
/// line that starts there was read.
pub proof fn lemma_start_stays(cfg: ParserView, t: Seq<u8>, ls: Seq<(int, int)>, j: int)
    requires
        t.len() <= usize::MAX,
        rising(t, ls),
        0 <= j <= ls.len(),
        run(cfg, t, ls).1.backlinks_start is Some,
        forall|i: int| j <= i < ls.len() ==> (#[trigger] ls[i]).0 != run(
            cfg,
            t,
            ls,
        ).1.backlinks_start->0,
    ensures
        run(cfg, t, ls.subrange(0, j)).1.backlinks_start == run(cfg, t, ls).1.backlinks_start,
    decreases ls.len() - j,
{
    if j == ls.len() {
        assert(ls.subrange(0, j) =~= ls);
    } else {
        lemma_start_stays(cfg, t, ls, j + 1);
        let upto = ls.subrange(0, j + 1);
        assert(upto.drop_last() =~= ls.subrange(0, j));
        assert(upto.last() == ls[j]);
        let (state, d) = run(cfg, t, ls.subrange(0, j));
        lemma_step_offsets(cfg, state, t.subrange(ls[j].0, ls[j].1), ls[j].0, d);
    }
}

/// The end of the section was what it is at the end ever since the last
/// line that starts there was read.
pub proof fn lemma_end_stays(cfg: ParserView, t: Seq<u8>, ls: Seq<(int, int)>, j: int)
    requires
        t.len() <= usize::MAX,
        rising(t, ls),
        0 <= j <= ls.len(),
        run(cfg, t, ls).1.backlinks_end is Some,
        forall|i: int| j <= i < ls.len() ==> (#[trigger] ls[i]).0 != run(
            cfg,
            t,
            ls,
        ).1.backlinks_end->0,
    ensures
        run(cfg, t, ls.subrange(0, j)).1.backlinks_end == run(cfg, t, ls).1.backlinks_end,
    decreases ls.len() - j,
{
    if j == ls.len() {
        assert(ls.subrange(0, j) =~= ls);
    } else {
        lemma_end_stays(cfg, t, ls, j + 1);
        let upto = ls.subrange(0, j + 1);
        assert(upto.drop_last() =~= ls.subrange(0, j));
        assert(upto.last() == ls[j]);
        let (state, d) = run(cfg, t, ls.subrange(0, j));
        lemma_step_offsets(cfg, state, t.subrange(ls[j].0, ls[j].1), ls[j].0, d);
    }
}

/// A section that the parser found closed ends at one of the lines: a line
/// that is no list item, in front of which the section was open, with the
/// start that it has at the end.
pub proof fn lemma_closed_section(cfg: ParserView, t: Seq<u8>, ls: Seq<(int, int)>) -> (m: int)
    requires
        t.len() <= usize::MAX,
        rising(t, ls),
        run(cfg, t, ls).1.backlinks_start is Some,
        run(cfg, t, ls).1.backlinks_end is Some,
    ensures
        0 <= m < ls.len(),
        ls[m].0 == run(cfg, t, ls).1.backlinks_end->0,
        run(cfg, t, ls).1.backlinks_start->0 < run(cfg, t, ls).1.backlinks_end->0,
        !is_bullet(t[ls[m].0]),
        run(cfg, t, ls.subrange(0, m)).0 is BackLinks,
        run(cfg, t, ls.subrange(0, m)).1.backlinks_start == run(cfg, t, ls).1.backlinks_start,
        run(cfg, t, ls.subrange(0, m)).1.backlinks_end is None,
        run(cfg, t, ls.subrange(0, m + 1)).1.backlinks_start == run(cfg, t, ls).1.backlinks_start,
{
    let s = run(cfg, t, ls).1.backlinks_start->0;
    let e = run(cfg, t, ls).1.backlinks_end->0;
    lemma_run_in_step(cfg, t, ls);
    let q = choose|q: int| 0 <= q < ls.len() && (#[trigger] ls[q]).0 == s;
    let m = choose|m: int| 0 <= m < ls.len() && (#[trigger] ls[m]).0 == e;
    // behind line `m` the end is what it is at the end, and line `m` set it
    assert forall|i: int| m + 1 <= i < ls.len() implies (#[trigger] ls[i]).0 != e by {
        assert(ls[m].1 <= ls[i].0);
    }
    lemma_end_stays(cfg, t, ls, m + 1);
    let upto = ls.subrange(0, m + 1);
    let front = ls.subrange(0, m);
    assert(upto.drop_last() =~= front);
    assert(upto.last() == ls[m]);
    lemma_rising_front(t, ls, m);
    lemma_run_in_step(cfg, t, front);
    let (state, d) = run(cfg, t, front);
    assert(d.backlinks_end != Some(e)) by {
        if d.backlinks_end == Some(e) {
            let j = choose|j: int| 0 <= j < front.len() && (#[trigger] front[j]).0 == e;
            assert(front[j] == ls[j]);
            assert(ls[j].1 <= ls[m].0);
        }
    }
    let line = t.subrange(ls[m].0, ls[m].1);
    lemma_step_offsets(cfg, state, line, ls[m].0, d);
    assert(line[0] == t[ls[m].0]);
    // the start was set in front of line `m`
    let x = d.backlinks_start->0;
    let k = choose|k: int| 0 <= k < front.len() && (#[trigger] front[k]).0 == x;
    assert(front[k] == ls[k]);
    assert(ls[k].1 <= ls[m].0);
    assert(run(cfg, t, upto).1.backlinks_start == Some(x));
    // and it is the start that the section has at the end
    if q > m {
        // the line at which the start was set last would have opened the
        // section anew, and nothing behind it sets the end to line `m`
        assert forall|i: int| q + 1 <= i < ls.len() implies (#[trigger] ls[i]).0 != s by {
            assert(ls[q].1 <= ls[i].0);
        }
        lemma_start_stays(cfg, t, ls, q + 1);
        assert forall|i: int| q + 1 <= i < ls.len() implies (#[trigger] ls[i]).0 != e by {
            assert(ls[m].1 <= ls[i].0);
        }
        lemma_end_stays(cfg, t, ls, q + 1);
        let upto_q = ls.subrange(0, q + 1);
        let front_q = ls.subrange(0, q);
        assert(upto_q.drop_last() =~= front_q);
        assert(upto_q.last() == ls[q]);
        lemma_rising_front(t, ls, q);
        lemma_run_in_step(cfg, t, front_q);
        let (state_q, d_q) = run(cfg, t, front_q);
        assert(d_q.backlinks_start != Some(s)) by {
            if d_q.backlinks_start == Some(s) {
                let j = choose|j: int| 0 <= j < front_q.len() && (#[trigger] front_q[j]).0 == s;
                assert(front_q[j] == ls[j]);
                assert(ls[j].1 <= ls[q].0);
            }
        }
        lemma_step_offsets(cfg, state_q, t.subrange(ls[q].0, ls[q].1), ls[q].0, d_q);
        assert(false);
    }
    assert forall|i: int| m + 1 <= i < ls.len() implies (#[trigger] ls[i]).0 != s by {
        if q < m {
            assert(ls[q].1 <= ls[m].0);
        }
        assert(ls[m].1 <= ls[i].0);
    }
    lemma_start_stays(cfg, t, ls, m + 1);
    assert(x == s);
    m
}

/// A newline that a text holds is found where it stands, whatever follows
/// the text.
pub proof fn lemma_first_newline_inside(x: Seq<u8>, y: Seq<u8>, from: int)
    requires
        0 <= from <= x.len(),
        first_newline(x, from) < x.len(),
    ensures
        first_newline(x + y, from) == first_newline(x, from),
    decreases x.len() - from,
{
    if from < x.len() {
        assert((x + y)[from] == x[from]);
        if !is_newline(x[from]) {
            lemma_first_newline_inside(x, y, from + 1);
        }
    }
}

/// The lines of a text that ends in a newline are lines of the whole,
/// whatever follows, and the lines of the whole go on behind them.
pub proof fn lemma_lines_split_at_line(x: Seq<u8>, y: Seq<u8>, from: int)
    requires
        0 <= from <= x.len(),
        x.len() == from || is_newline(x[x.len() - 1]),
    ensures
        lines(x + y, from) == lines(x, from) + lines(x + y, x.len() as int),
    decreases x.len() - from,
{
    let t = x + y;
    lemma_first_text(x, from);
    lemma_first_text_in_prefix(x, y, from);
    let start = first_text(x, from);
    if start < x.len() {
        lemma_first_newline(x, start);
        let end = first_newline(x, start);
        assert(end < x.len());
        lemma_first_newline_inside(x, y, start);
        assert(line_at(t, from) == Some((start, end)));
        assert(line_at(x, from) == Some((start, end)));
        lemma_lines_split_at_line(x, y, end);
        assert(lines(t, from) =~= seq![(start, end)] + lines(t, end));
        assert(lines(x, from) =~= seq![(start, end)] + lines(x, end));
        assert(lines(t, from) =~= lines(x, from) + lines(t, x.len() as int));
    } else {
        assert(lines(x, from) =~= Seq::<(int, int)>::empty());
        lemma_lines_from_text(t, from, x.len() as int);
        assert(lines(t, from) =~= lines(x, from) + lines(t, x.len() as int));
    }
}

/// What stands in front of a line of a text: its lines are the lines of
/// the text in front of that line, and the parser finds in it what it finds
/// in those lines.
pub proof fn lemma_lines_in_front(cfg: ParserView, t: Seq<u8>, k: int)
    requires
        0 <= k < lines(t, if has_bom(t) { 3int } else { 0int }).len(),
    ensures
        ({
            let all = lines(t, if has_bom(t) { 3int } else { 0int });
            let x = t.subrange(0, all[k].0);
            &&& has_bom(x) == has_bom(t)
            &&& lines(x, if has_bom(t) { 3int } else { 0int }) == all.subrange(0, k)
            &&& run(cfg, t, all.subrange(0, k)) == (final_state(cfg, x), parsed(cfg, x))
        }),
{
    let bom = if has_bom(t) {
        3int
    } else {
        0int
    };
    let all = lines(t, bom);
    lemma_lines_rising(t, bom);
    let s = all[k].0;
    let x = t.subrange(0, s);
    let y = t.subrange(s, t.len() as int);
    assert(t =~= x + y);
    lemma_lines_are_lines(t, bom, k);
    assert(has_bom(x) == has_bom(t)) by {
        if s >= 3 {
            assert(x[0] == t[0] && x[1] == t[1] && x[2] == t[2]);
        }
    }
    if s > bom {
        assert(x[x.len() - 1] == t[s - 1]);
    }
    lemma_lines_split_at_line(x, y, bom);
    let first = lines(x, bom);
    let behind = lines(t, s);
    assert(all == first + behind);
    lemma_first_text(t, s);
    assert(first_text(t, s) == s);
    lemma_first_newline(t, s);
    assert(behind.len() > 0 && behind[0].0 == s);
    let m = first.len() as int;
    assert(all[m] == behind[0]);
    assert(k == m) by {
        if k < m {
            assert(all[k].1 <= all[m].0);
        } else if k > m {
            assert(all[m].1 <= all[k].0);
        }
    }
    assert(all.subrange(0, k) =~= first);
    assert forall|i: int| 0 <= i < first.len() implies 0 <= (#[trigger] first[i]).0 <= first[i].1
        <= x.len() by {
        assert(first[i] == all[i]);
        assert(all[i].1 <= all[k].0);
    }
    lemma_run_in_prefix(cfg, x, y, first);
}

/// What stands in front of a section that is open at the end of a text:
/// the parser, having read it, takes the heading for the heading, and what
/// it finds in the whole text is what it finds in that part, with the
/// section open at the heading.
pub proof fn lemma_section_front(cfg: ParserView, t: Seq<u8>)
    requires
        t.len() <= usize::MAX,
        parsed(cfg, t).backlinks_start is Some,
        parsed(cfg, t).backlinks_end is None,
    ensures
        ({
            let s = parsed(cfg, t).backlinks_start->0 as int;
            let x = t.subrange(0, s);
            &&& 0 <= s < t.len()
            &&& takes_heading(cfg, final_state(cfg, x), encode_utf8(cfg.backlinks_heading))
            &&& parsed(cfg, t) == (NoteDataView {
                backlinks_start: Some(s as usize),
                backlinks_end: None,
                ..parsed(cfg, x)
            })
        }),
{
    let bom = if has_bom(t) {
        3int
    } else {
        0int
    };
    let all = lines(t, bom);
    lemma_lines_rising(t, bom);
    let k = lemma_open_section(cfg, t, all);
    lemma_lines_are_lines(t, bom, k);
    lemma_lines_in_front(cfg, t, k);
}

/// What the parser finds in a text with a closed section: in front of the
/// section it takes the heading for the heading, and what it finds in the
/// whole text is what it finds behind the section when it comes there from
/// inside the section, with what it found in front of the section.
pub proof fn lemma_section_and_rest(cfg: ParserView, t: Seq<u8>)
    requires
        t.len() <= usize::MAX,
        parsed(cfg, t).backlinks_start is Some,
        parsed(cfg, t).backlinks_end is Some,
    ensures
        ({
            let s = parsed(cfg, t).backlinks_start->0 as int;
            let e = parsed(cfg, t).backlinks_end->0 as int;
            let x = t.subrange(0, s);
            &&& 0 <= s < e < t.len()
            &&& !is_newline(t[e])
            &&& !is_bullet(t[e])
            &&& is_newline(t[e - 1])
            &&& (if has_bom(t) {
                3int
            } else {
                0int
            }) <= s
            &&& takes_heading(cfg, final_state(cfg, x), encode_utf8(cfg.backlinks_heading))
            &&& parsed(cfg, t) == run_on(
                cfg,
                t,
                ParseState::BackLinks,
                NoteDataView {
                    backlinks_start: Some(s as usize),
                    backlinks_end: None,
                    ..parsed(cfg, x)
                },
                lines(t, e),
            ).1
            &&& lines(t, e).len() > 0
            &&& lines(t, e)[0].0 == e
            &&& step(
                cfg,
                ParseState::BackLinks,
                t.subrange(e, lines(t, e)[0].1),
                e,
                NoteDataView {
                    backlinks_start: Some(s as usize),
                    backlinks_end: None,
                    ..parsed(cfg, x)
                },
            ).1.backlinks_start == Some(s as usize)
            &&& s == (if has_bom(t) {
                3int
            } else {
                0int
            }) || is_newline(t[s - 1])
        }),
{
    let bom = if has_bom(t) {
        3int
    } else {
        0int
    };
    let all = lines(t, bom);
    lemma_lines_rising(t, bom);
    let m = lemma_closed_section(cfg, t, all);
    let front = all.subrange(0, m);
    let rest = all.subrange(m, all.len() as int);
    lemma_rising_front(t, all, m);
    let k = lemma_open_section(cfg, t, front);
    assert(front[k] == all[k]);
    assert(front.subrange(0, k) =~= all.subrange(0, k));
    lemma_lines_in_front(cfg, t, k);
    assert(all =~= front + rest);
    lemma_run_on_split(cfg, t, front, rest);
    // the lines behind the section are the lines from its end on
    let e = all[m].0;
    lemma_lines_are_lines(t, bom, m);
    lemma_lines_behind(t, bom, m - 1);
    let from = all[m - 1].1;
    lemma_lines_are_lines(t, bom, m - 1);
    let behind = lines(t, from);
    assert(rest =~= behind);
    assert(behind[0] == all[m]);
    lemma_first_text(t, from);
    lemma_first_text(t, e);
    lemma_first_newline(t, first_text(t, from));
    assert(first_text(t, from) == e);
    assert(first_text(t, e) == e);
    lemma_lines_from_text(t, from, e);
    assert(e > from) by {
        assert(all[m - 1].1 <= all[m].0);
    }
    // the first line behind the section leaves the start as it is
    let upto = all.subrange(0, m + 1);
    assert(upto.drop_last() =~= front);
    assert(upto.last() == all[m]);
    lemma_lines_are_lines(t, bom, k);
}

} // verus!
