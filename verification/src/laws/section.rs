//! What holds of a backlinks section that was written to a note: parsing the
//! note again finds the section where it was put.
use crate::lines::{
    first_newline, first_text, has_bom, lemma_first_newline, lemma_first_text, line_at,
};
use crate::mdparse::{lines, no_data, parsed, run, step, NoteDataView, ParseState, ParserView};
use crate::note::{note_of, saved_text, FileView, NoteView};
use crate::text::{
    byte_slice, is_newline, is_blank, lemma_trimmed_end, lemma_trimmed_start, trimmed,
    trimmed_end, trimmed_start, ASTERISK, HYPHEN, LINE_FEED, PLUS,
};
use vstd::prelude::*;
use vstd::utf8::*;

verus! {

/// Up to the end of a text, the first byte that is no newline stands where
/// it stands in the text alone, whatever follows the text.
pub proof fn lemma_first_text_in_prefix(x: Seq<u8>, y: Seq<u8>, from: int)
    requires
        0 <= from <= x.len(),
    ensures
        first_text(x, from) < x.len() ==> first_text(x + y, from) == first_text(x, from),
        first_text(x, from) == x.len()
            ==> first_text(x + y, from) == first_text(x + y, x.len() as int),
    decreases x.len() - from,
{
    if from < x.len() {
        assert((x + y)[from] == x[from]);
        if is_newline(x[from]) {
            lemma_first_text_in_prefix(x, y, from + 1);
        }
    }
}

/// Up to the end of a text that a newline follows, the first newline stands
/// where it stands in the text alone, or at its end.
pub proof fn lemma_first_newline_in_prefix(x: Seq<u8>, y: Seq<u8>, from: int)
    requires
        0 <= from <= x.len(),
        y.len() == 0 || is_newline(y[0]),
    ensures
        first_newline(x + y, from) == first_newline(x, from),
    decreases x.len() - from,
{
    if from < x.len() {
        assert((x + y)[from] == x[from]);
        if !is_newline(x[from]) {
            lemma_first_newline_in_prefix(x, y, from + 1);
        }
    } else if y.len() > 0 {
        assert((x + y)[from] == y[0]);
    }
}

/// The lines of a text that a newline, or nothing, follows are lines of the
/// whole, and the lines of the whole go on behind them.
pub proof fn lemma_lines_split(x: Seq<u8>, y: Seq<u8>, from: int)
    requires
        0 <= from <= x.len(),
        y.len() == 0 || is_newline(y[0]),
    ensures
        lines(x + y, from) == lines(x, from) + lines(x + y, x.len() as int),
    decreases x.len() - from,
{
    let t = x + y;
    lemma_first_text(x, from);
    lemma_first_text_in_prefix(x, y, from);
    let start = first_text(x, from);
    if start < x.len() {
        lemma_first_newline(x, start);
        lemma_first_newline_in_prefix(x, y, start);
        let end = first_newline(x, start);
        assert(line_at(t, from) == Some((start, end)));
        assert(line_at(x, from) == Some((start, end)));
        lemma_lines_split(x, y, end);
        assert(lines(t, from) =~= seq![(start, end)] + lines(t, end));
        assert(lines(x, from) =~= seq![(start, end)] + lines(x, end));
        assert(lines(t, from) =~= lines(x, from) + lines(t, x.len() as int));
    } else {
        assert(lines(x, from) =~= Seq::<(int, int)>::empty());
        lemma_lines_from_text(t, from, x.len() as int);
        assert(lines(t, from) =~= lines(x, from) + lines(t, x.len() as int));
    }
}

/// Where the search for a line passes over newlines, it may as well start
/// behind them.
pub proof fn lemma_lines_from_text(t: Seq<u8>, from: int, to: int)
    requires
        0 <= from <= to <= t.len(),
        first_text(t, from) == first_text(t, to),
    ensures
        lines(t, from) == lines(t, to),
{
    lemma_first_text(t, from);
    lemma_first_text(t, to);
    let start = first_text(t, from);
    if start < t.len() {
        lemma_first_newline(t, start);
    }
}

/// Every line lies inside the text from the place of the search on, is not
/// empty, starts behind a newline or where the search began, and ends in
/// front of a newline or at the end of the text.
pub proof fn lemma_lines_are_lines(t: Seq<u8>, from: int, k: int)
    requires
        0 <= from <= t.len(),
        0 <= k < lines(t, from).len(),
    ensures
        from <= lines(t, from)[k].0 < lines(t, from)[k].1 <= t.len(),
        !is_newline(t[lines(t, from)[k].0]),
        lines(t, from)[k].0 == from || is_newline(t[lines(t, from)[k].0 - 1]),
        lines(t, from)[k].1 == t.len() || is_newline(t[lines(t, from)[k].1]),
    decreases t.len() - from,
{
    lemma_first_text(t, from);
    let start = first_text(t, from);
    if start < t.len() {
        lemma_first_newline(t, start);
        let end = first_newline(t, start);
        if k > 0 {
            lemma_lines_are_lines(t, end, k - 1);
            assert(lines(t, from)[k] == lines(t, end)[k - 1]);
            if lines(t, end)[k - 1].0 == end {
                assert(end < t.len());
            }
        } else {
            if start > from {
                assert(is_newline(t[start - 1]));
            }
        }
    }
}

/// The first newline from a place on stands where no byte before it, from
/// that place on, is a newline.
pub proof fn lemma_first_newline_is(t: Seq<u8>, from: int, p: int)
    requires
        0 <= from <= p <= t.len(),
        forall|k: int| from <= k < p ==> !is_newline(#[trigger] t[k]),
        p == t.len() || is_newline(t[p]),
    ensures
        first_newline(t, from) == p,
    decreases p - from,
{
    if from < p {
        lemma_first_newline_is(t, from + 1, p);
    }
}

/// The first byte that is no newline, from a place on, stands where every
/// byte before it, from that place on, is a newline.
pub proof fn lemma_first_text_is(t: Seq<u8>, from: int, p: int)
    requires
        0 <= from <= p <= t.len(),
        forall|k: int| from <= k < p ==> is_newline(#[trigger] t[k]),
        p == t.len() || !is_newline(t[p]),
    ensures
        first_text(t, from) == p,
    decreases p - from,
{
    if from < p {
        lemma_first_text_is(t, from + 1, p);
    }
}

/// What the parser finds in lines that lie in the first part of a text
/// does not depend on what follows.
pub proof fn lemma_run_in_prefix(cfg: ParserView, x: Seq<u8>, y: Seq<u8>, ls: Seq<(int, int)>)
    requires
        forall|k: int| 0 <= k < ls.len() ==> 0 <= (#[trigger] ls[k]).0 <= ls[k].1 <= x.len(),
    ensures
        run(cfg, x + y, ls) == run(cfg, x, ls),
    decreases ls.len(),
{
    if ls.len() > 0 {
        let front = ls.drop_last();
        assert forall|k: int| 0 <= k < front.len() implies
            0 <= (#[trigger] front[k]).0 <= front[k].1
            <= x.len() by {
            assert(front[k] == ls[k]);
        }
        lemma_run_in_prefix(cfg, x, y, front);
        let (start, end) = ls.last();
        assert(ls[ls.len() - 1] == ls.last());
        assert((x + y).subrange(start, end) =~= x.subrange(start, end));
    }
}

/// A list item starts with `-`, `+` or `*`.
pub open spec fn is_bullet(b: u8) -> bool {
    b == HYPHEN || b == PLUS || b == ASTERISK
}

/// Whether a line starts at the offset: a byte that is no newline stands
/// there, at the start of the bytes or behind a newline.
pub open spec fn starts_line(z: Seq<u8>, i: int) -> bool {
    0 <= i < z.len() && !is_newline(z[i]) && (i == 0 || is_newline(z[i - 1]))
}

/// Whether every line of the bytes starts with the mark of a list item.
pub open spec fn bullet_lines(z: Seq<u8>) -> bool {
    forall|i: int| #[trigger] starts_line(z, i) ==> is_bullet(z[i])
}

/// Inside the backlinks section, lines that start with the mark of a list
/// item change nothing.
pub proof fn lemma_run_bullets(
    cfg: ParserView,
    t: Seq<u8>,
    done: Seq<(int, int)>,
    more: Seq<(int, int)>,
)
    requires
        run(cfg, t, done).0 is BackLinks,
        forall|k: int|
            0 <= k < more.len() ==> 0 <= (#[trigger] more[k]).0 < more[k].1 <= t.len() && is_bullet(
                t[more[k].0],
            ),
    ensures
        run(cfg, t, done + more) == run(cfg, t, done),
    decreases more.len(),
{
    if more.len() > 0 {
        let front = more.drop_last();
        assert forall|k: int| 0 <= k < front.len() implies 0 <= (#[trigger] front[k]).0 < front[k].1
            <= t.len() && is_bullet(t[front[k].0]) by {
            assert(front[k] == more[k]);
        }
        lemma_run_bullets(cfg, t, done, front);
        reveal(step);
        assert((done + more).drop_last() =~= done + front);
        let (start, end) = more.last();
        assert(more[more.len() - 1] == more.last());
        assert((done + more).last() == more.last());
        assert(t.subrange(start, end)[0] == t[start]);
    } else {
        assert(done + more =~= done);
    }
}

/// The state in which the parser is at the end of a text.
pub open spec fn final_state(cfg: ParserView, bytes: Seq<u8>) -> ParseState {
    run(cfg, bytes, lines(bytes, if has_bom(bytes) { 3int } else { 0int })).0
}

/// Whether the parser, in the given state, takes the line for the backlinks
/// heading.
#[verifier::opaque]
pub open spec fn takes_heading(cfg: ParserView, state: ParseState, line: Seq<u8>) -> bool {
    step(cfg, state, line, 0, no_data()).1.backlinks_start is Some
}

/// Where the parser takes a line for the backlinks heading, the section
/// starts at that line and is open, and nothing else changes.
pub proof fn lemma_heading_step(
    cfg: ParserView,
    state: ParseState,
    line: Seq<u8>,
    start: int,
    d: NoteDataView,
)
    requires
        takes_heading(cfg, state, line),
    ensures
        step(cfg, state, line, start, d) == (
            ParseState::BackLinks,
            NoteDataView { backlinks_start: Some(start as usize), backlinks_end: None, ..d },
        ),
{
    reveal(takes_heading);
    reveal(step);
}

/// A text that a line feed follows starts with a byte order mark exactly
/// when the whole does.
pub(crate) proof fn lemma_bom_of_prefix(p: Seq<u8>, tail: Seq<u8>)
    requires
        tail.len() > 0,
        tail[0] == LINE_FEED,
    ensures
        has_bom(p + tail) == has_bom(p),
{
    let t = p + tail;
    if p.len() >= 3 {
        assert(t[0] == p[0] && t[1] == p[1] && t[2] == p[2]);
    } else {
        assert(t[p.len() as int] == LINE_FEED);
    }
}

/// Behind two line feeds, a line without newlines that a newline or
/// nothing follows is the next line.
proof fn lemma_line_behind_gap(t: Seq<u8>, from: int, stop: int)
    requires
        0 <= from,
        from + 2 < stop <= t.len(),
        t[from] == LINE_FEED,
        t[from + 1] == LINE_FEED,
        forall|k: int| from + 2 <= k < stop ==> !is_newline(#[trigger] t[k]),
        stop == t.len() || is_newline(t[stop]),
    ensures
        line_at(t, from) == Some((from + 2, stop)),
        lines(t, from) == seq![(from + 2, stop)] + lines(t, stop),
{
    assert forall|k: int| from <= k < from + 2 implies is_newline(#[trigger] t[k]) by {}
    assert(!is_newline(t[from + 2]));
    lemma_first_text_is(t, from, from + 2);
    lemma_first_newline_is(t, from + 2, stop);
}

/// Behind a newline, every line of bytes that hold list items only starts
/// with the mark of a list item, wherever those bytes stand in a text.
pub(crate) proof fn lemma_lines_of_items(t: Seq<u8>, stop: int, r: Seq<u8>, k: int)
    requires
        0 <= stop,
        stop + r.len() == t.len(),
        forall|i: int| 0 <= i < r.len() ==> #[trigger] t[stop + i] == r[i],
        r.len() == 0 || is_newline(r[0]),
        bullet_lines(r),
        0 <= k < lines(t, stop).len(),
    ensures
        0 <= lines(t, stop)[k].0 < lines(t, stop)[k].1 <= t.len(),
        is_bullet(t[lines(t, stop)[k].0]),
{
    lemma_lines_are_lines(t, stop, k);
    let s = lines(t, stop)[k].0;
    assert(t[stop + (s - stop)] == r[s - stop]);
    if s == stop {
        assert(t[stop + 0] == r[0]);
    } else {
        assert(t[stop + (s - stop - 1)] == r[s - stop - 1]);
    }
    assert(starts_line(r, s - stop));
}

/// Behind the part in front, the heading is the next line of a text that
/// ends in a section.
pub(crate) proof fn lemma_section_heading_line(p: Seq<u8>, h: Seq<u8>, r: Seq<u8>)
    requires
        h.len() > 0,
        forall|k: int| 0 <= k < h.len() ==> !is_newline(#[trigger] h[k]),
        r.len() == 0 || is_newline(r[0]),
    ensures
        ({
            let t = p + seq![LINE_FEED, LINE_FEED] + h + r;
            let off = p.len() as int + 2;
            let stop = off + h.len();
            &&& t.subrange(off, stop) == h
            &&& lines(t, p.len() as int) == seq![(off, stop)] + lines(t, stop)
        }),
{
    let gap = seq![LINE_FEED, LINE_FEED];
    let t = p + gap + h + r;
    let off: int = p.len() as int + 2;
    let stop: int = off + h.len();
    assert(t[p.len() as int] == gap[0]);
    assert(t[p.len() as int + 1] == gap[1]);
    assert forall|k: int| off <= k < stop implies !is_newline(#[trigger] t[k]) by {
        assert(t[k] == h[k - off]);
    }
    if stop < t.len() {
        assert(t[stop] == r[0]);
    }
    lemma_line_behind_gap(t, p.len() as int, stop);
    assert(t.subrange(off, stop) =~= h);
}

/// Behind the heading, every line of a text that ends in a section starts
/// with the mark of a list item.
proof fn lemma_section_item_lines(p: Seq<u8>, h: Seq<u8>, r: Seq<u8>, k: int)
    requires
        r.len() == 0 || is_newline(r[0]),
        bullet_lines(r),
        0 <= k < lines(
            p + seq![LINE_FEED, LINE_FEED] + h + r,
            p.len() as int + 2 + h.len(),
        ).len(),
    ensures
        ({
            let t = p + seq![LINE_FEED, LINE_FEED] + h + r;
            let behind = lines(t, p.len() as int + 2 + h.len());
            0 <= behind[k].0 < behind[k].1 <= t.len() && is_bullet(t[behind[k].0])
        }),
{
    let t = p + seq![LINE_FEED, LINE_FEED] + h + r;
    let stop: int = p.len() as int + 2 + h.len();
    assert forall|i: int| 0 <= i < r.len() implies #[trigger] t[stop + i] == r[i] by {}
    lemma_lines_of_items(t, stop, r, k);
}

/// The lines of a text that ends in a section: the lines of the part in
/// front, the heading, and lines that all start with the mark of a list
/// item.
proof fn lemma_section_lines(p: Seq<u8>, h: Seq<u8>, r: Seq<u8>)
    requires
        h.len() > 0,
        forall|k: int| 0 <= k < h.len() ==> !is_newline(#[trigger] h[k]),
        r.len() == 0 || is_newline(r[0]),
        bullet_lines(r),
    ensures
        ({
            let t = p + seq![LINE_FEED, LINE_FEED] + h + r;
            let off = p.len() as int + 2;
            let stop = off + h.len();
            let bom = if has_bom(p) {
                3int
            } else {
                0int
            };
            &&& has_bom(t) == has_bom(p)
            &&& t.subrange(off, stop) == h
            &&& lines(t, bom) == lines(p, bom).push((off, stop)) + lines(t, stop)
            &&& forall|k: int|
                0 <= k < lines(t, stop).len() ==> 0 <= (#[trigger] lines(t, stop)[k]).0 < lines(
                    t,
                    stop,
                )[k].1 <= t.len() && is_bullet(t[lines(t, stop)[k].0])
        }),
{
    let gap = seq![LINE_FEED, LINE_FEED];
    let t = p + gap + h + r;
    let off: int = p.len() as int + 2;
    let stop: int = off + h.len();
    let bom = if has_bom(p) {
        3int
    } else {
        0int
    };
    let tail = gap + h + r;
    assert(t =~= p + tail);
    assert(tail[0] == gap[0]);
    lemma_bom_of_prefix(p, tail);
    lemma_lines_split(p, tail, bom);
    lemma_section_heading_line(p, h, r);
    assert(lines(t, bom) =~= lines(p, bom).push((off, stop)) + lines(t, stop));
    assert forall|k: int| 0 <= k < lines(t, stop).len() implies
        0 <= (#[trigger] lines(t, stop)[k]).0
        < lines(t, stop)[k].1 <= t.len() && is_bullet(t[lines(t, stop)[k].0]) by {
        lemma_section_item_lines(p, h, r, k);
    }
}

/// What the parser finds in lines that end in a section: what it found in
/// front of the heading, with the section open at the heading.
pub(crate) proof fn lemma_section_run(
    cfg: ParserView,
    t: Seq<u8>,
    first: Seq<(int, int)>,
    off: int,
    stop: int,
    behind: Seq<(int, int)>,
)
    requires
        takes_heading(cfg, run(cfg, t, first).0, t.subrange(off, stop)),
        forall|k: int|
            0 <= k < behind.len() ==> 0 <= (#[trigger] behind[k]).0 < behind[k].1 <= t.len()
                && is_bullet(t[behind[k].0]),
    ensures
        run(cfg, t, first.push((off, stop)) + behind) == (
            ParseState::BackLinks,
            NoteDataView {
                backlinks_start: Some(off as usize),
                backlinks_end: None,
                ..run(cfg, t, first).1
            },
        ),
{
    let (state, d) = run(cfg, t, first);
    assert(first.push((off, stop)).drop_last() =~= first);
    lemma_heading_step(cfg, state, t.subrange(off, stop), off, d);
    assert(run(cfg, t, first.push((off, stop))) == step(cfg, state, t.subrange(off, stop), off, d));
    lemma_run_bullets(cfg, t, first.push((off, stop)), behind);
}

/// A backlinks section at the end of a text is found where it stands: where
/// the text is `p`, two line feeds, the heading, and lines that all start
/// with the mark of a list item, and the parser takes the heading for the
/// heading when it has read `p`, the section starts at the heading and runs
/// to the end, and the titles, identifiers, links and tasks are those of
/// `p`.
pub proof fn lemma_section_is_found(cfg: ParserView, p: Seq<u8>, r: Seq<u8>)
    requires
        encode_utf8(cfg.backlinks_heading).len() > 0,
        forall|k: int|
            0 <= k < encode_utf8(cfg.backlinks_heading).len() ==> !is_newline(
                #[trigger] encode_utf8(cfg.backlinks_heading)[k],
            ),
        r.len() == 0 || is_newline(r[0]),
        bullet_lines(r),
        takes_heading(cfg, final_state(cfg, p), encode_utf8(cfg.backlinks_heading)),
    ensures
        ({
            let t = p + seq![LINE_FEED, LINE_FEED] + encode_utf8(cfg.backlinks_heading) + r;
            let found = parsed(cfg, t);
            &&& found == (NoteDataView {
                backlinks_start: Some((p.len() + 2) as usize),
                backlinks_end: None,
                ..parsed(cfg, p)
            })
            &&& final_state(cfg, t) is BackLinks
        }),
{
    let h = encode_utf8(cfg.backlinks_heading);
    let gap = seq![LINE_FEED, LINE_FEED];
    let t = p + gap + h + r;
    let off: int = p.len() as int + 2;
    let stop: int = off + h.len();
    let bom = if has_bom(p) {
        3int
    } else {
        0int
    };
    lemma_section_lines(p, h, r);
    let first = lines(p, bom);
    let behind = lines(t, stop);
    assert(t =~= p + (gap + h + r));
    assert forall|k: int| 0 <= k < first.len() implies 0 <= (#[trigger] first[k]).0 <= first[k].1
        <= p.len() by {
        lemma_lines_are_lines(p, bom, k);
    }
    lemma_run_in_prefix(cfg, p, gap + h + r, first);
    lemma_section_run(cfg, t, first, off, stop, behind);
}

/// The number of characters of a text up to its last one that is no
/// whitespace.
pub open spec fn kept_len(s: Seq<char>) -> int
    decreases s.len(),
{
    if s.len() > 0 && is_blank(s.last()) {
        kept_len(s.drop_last())
    } else {
        s.len() as int
    }
}

/// The number of whitespace characters at the start of a text.
pub open spec fn lead_len(s: Seq<char>) -> int
    decreases s.len(),
{
    if s.len() > 0 && is_blank(s[0]) {
        1 + lead_len(s.drop_first())
    } else {
        0
    }
}

/// Trimming a text at its end keeps the part up to the last character that
/// is no whitespace.
pub proof fn lemma_kept_len(s: Seq<char>)
    ensures
        0 <= kept_len(s) <= s.len(),
        kept_len(s) > 0 ==> !is_blank(s[kept_len(s) - 1]),
        forall|k: int| kept_len(s) <= k < s.len() ==> is_blank(#[trigger] s[k]),
        trimmed_end(s) == s.subrange(0, kept_len(s)),
    decreases s.len(),
{
    if s.len() > 0 && is_blank(s.last()) {
        let front = s.drop_last();
        lemma_kept_len(front);
        assert forall|k: int| kept_len(s) <= k < s.len() implies
            is_blank(#[trigger] s[k]) by {
            if k < front.len() {
                assert(front[k] == s[k]);
            }
        }
        if kept_len(s) > 0 {
            assert(front[kept_len(s) - 1] == s[kept_len(s) - 1]);
        }
    }
    lemma_trimmed_end(s, kept_len(s));
}

/// Trimming a text at its start drops the whitespace in front of the first
/// character that is none.
pub proof fn lemma_lead_len(s: Seq<char>)
    ensures
        0 <= lead_len(s) <= s.len(),
        lead_len(s) < s.len() ==> !is_blank(s[lead_len(s)]),
        forall|k: int| 0 <= k < lead_len(s) ==> is_blank(#[trigger] s[k]),
        trimmed_start(s) == s.subrange(lead_len(s), s.len() as int),
    decreases s.len(),
{
    if s.len() > 0 && is_blank(s[0]) {
        let rest = s.drop_first();
        lemma_lead_len(rest);
        assert forall|k: int| 0 <= k < lead_len(s) implies is_blank(#[trigger] s[k]) by {
            if k > 0 {
                assert(rest[k - 1] == s[k]);
            }
        }
        if lead_len(s) < s.len() {
            assert(rest[lead_len(rest)] == s[lead_len(s)]);
        }
    }
    lemma_trimmed_start(s, lead_len(s));
}

/// Behind a text that ends in a character that is no whitespace, trimming
/// at the end trims what follows.
pub proof fn lemma_trimmed_end_behind(a: Seq<char>, z: Seq<char>)
    requires
        a.len() > 0,
        !is_blank(a.last()),
    ensures
        trimmed_end(a + z) == a + trimmed_end(z),
{
    lemma_kept_len(z);
    let k = kept_len(z);
    let all = a + z;
    assert forall|i: int| a.len() + k <= i < all.len() implies
        is_blank(#[trigger] all[i]) by {
        assert(all[i] == z[i - a.len()]);
    }
    if k > 0 {
        assert(all[a.len() + k - 1] == z[k - 1]);
    } else {
        assert(all[a.len() - 1] == a.last());
    }
    lemma_trimmed_end(all, a.len() + k);
    assert(all.subrange(0, a.len() + k) =~= a + z.subrange(0, k));
}

/// Behind a text, trimming at the end trims what follows, where that holds
/// more than whitespace.
pub proof fn lemma_trimmed_end_in_front(a: Seq<char>, z: Seq<char>)
    requires
        kept_len(z) > 0,
    ensures
        trimmed_end(a + z) == a + trimmed_end(z),
{
    lemma_kept_len(z);
    let k = kept_len(z);
    let all = a + z;
    assert forall|i: int| a.len() + k <= i < all.len() implies is_blank(#[trigger] all[i]) by {
        assert(all[i] == z[i - a.len()]);
    }
    assert(all[a.len() + k - 1] == z[k - 1]);
    lemma_trimmed_end(all, a.len() + k);
    assert(all.subrange(0, a.len() + k) =~= a + z.subrange(0, k));
}

/// Whitespace at the end of a text makes no difference to what trimming at
/// the end leaves.
pub proof fn lemma_trimmed_end_of_padded(y: Seq<char>, w: Seq<char>)
    requires
        forall|k: int| 0 <= k < w.len() ==> is_blank(#[trigger] w[k]),
    ensures
        trimmed_end(y + w) == trimmed_end(y),
{
    lemma_kept_len(y);
    let k = kept_len(y);
    let all = y + w;
    assert forall|i: int| k <= i < all.len() implies is_blank(#[trigger] all[i]) by {
        if i < y.len() {
            assert(all[i] == y[i]);
        } else {
            assert(all[i] == w[i - y.len()]);
        }
    }
    if k > 0 {
        assert(all[k - 1] == y[k - 1]);
    }
    lemma_trimmed_end(all, k);
    assert(all.subrange(0, k) =~= y.subrange(0, k));
}

/// Trimming a text that stands behind whitespace and was trimmed at the end
/// leaves what trimming the text leaves.
pub proof fn lemma_trimmed_of_padded(w: Seq<char>, b: Seq<char>)
    requires
        forall|k: int| 0 <= k < w.len() ==> is_blank(#[trigger] w[k]),
    ensures
        trimmed(trimmed_end(w + b)) == trimmed(b),
{
    lemma_kept_len(b);
    lemma_lead_len(b);
    let keep = kept_len(b);
    let skip = lead_len(b);
    let none = Seq::<char>::empty();
    let y = w + b;
    if keep == 0 {
        // nothing but whitespace
        assert forall|i: int| 0 <= i < y.len() implies is_blank(#[trigger] y[i]) by {
            if i < w.len() {
                assert(y[i] == w[i]);
            } else {
                assert(y[i] == b[i - w.len()]);
            }
        }
        lemma_trimmed_end(y, 0);
        assert(y.subrange(0, 0) =~= none);
        lemma_trimmed_start(none, 0);
        assert(none.subrange(0, 0) =~= none);
        lemma_trimmed_end(none, 0);
        assert(trimmed(none) == none);
        assert(skip == b.len());
        assert(b.subrange(skip, b.len() as int) =~= none);
        assert(trimmed(b) == none);
    } else {
        assert(skip < keep);
        let core = b.subrange(skip, keep);
        // the right-hand side
        let tail = b.subrange(skip, b.len() as int);
        assert forall|i: int| keep - skip <= i < tail.len() implies
            is_blank(#[trigger] tail[i]) by {
            assert(tail[i] == b[i + skip]);
        }
        assert(tail[keep - skip - 1] == b[keep - 1]);
        lemma_trimmed_end(tail, keep - skip);
        assert(tail.subrange(0, keep - skip) =~= core);
        assert(trimmed(b) == core);
        // the left-hand side
        assert forall|i: int| w.len() + keep <= i < y.len() implies
            is_blank(#[trigger] y[i]) by {
            assert(y[i] == b[i - w.len()]);
        }
        assert(y[w.len() + keep - 1] == b[keep - 1]);
        lemma_trimmed_end(y, w.len() + keep);
        let cut = y.subrange(0, w.len() + keep);
        assert forall|i: int| 0 <= i < w.len() + skip implies is_blank(#[trigger] cut[i]) by {
            if i < w.len() {
                assert(cut[i] == w[i]);
            } else {
                assert(cut[i] == b[i - w.len()]);
            }
        }
        assert(cut[w.len() + skip] == b[skip]);
        lemma_trimmed_start(cut, w.len() + skip);
        assert(cut.subrange(w.len() + skip, cut.len() as int) =~= core);
        assert(core[core.len() - 1] == b[keep - 1]);
        lemma_trimmed_end(core, core.len() as int);
        assert(core.subrange(0, core.len() as int) =~= core);
    }
}

/// The bytes of two texts, one behind the other, are the bytes of the one
/// and then those of the other.
pub proof fn lemma_encode_concat(a: Seq<char>, b: Seq<char>)
    ensures
        encode_utf8(a + b) == encode_utf8(a) + encode_utf8(b),
    decreases a.len(),
{
    if a.len() == 0 {
        assert(a + b =~= b);
        assert(encode_utf8(a) + encode_utf8(b) =~= encode_utf8(b));
    } else {
        lemma_encode_concat(a.drop_first(), b);
        assert((a + b).drop_first() =~= a.drop_first() + b);
        assert((a + b)[0] == a[0]);
        assert(encode_utf8(a + b) =~= encode_utf8(a) + encode_utf8(b));
    }
}

/// Two line feeds, as bytes.
pub(crate) proof fn lemma_gap_bytes()
    ensures
        "\n\n"@ == seq!['\n', '\n'],
        encode_utf8("\n\n"@) == seq![LINE_FEED, LINE_FEED],
{
    reveal_strlit("\n\n");
    let gap = "\n\n"@;
    assert(gap =~= seq!['\n', '\n']);
    assert(is_ascii_chars(gap));
    is_ascii_chars_encode_utf8(gap);
    assert(encode_utf8(gap) =~= seq![LINE_FEED, LINE_FEED]);
}

/// The bytes of a part of a text that starts with a line feed start with
/// one, and where every line of a body starts with the mark of a list
/// item, so does every line of what is written of it.
pub(crate) proof fn lemma_written_body(body: Seq<char>, keep: int)
    requires
        0 <= keep <= body.len() + 2,
        bullet_lines(encode_utf8(body)),
    ensures
        ({
            let r = encode_utf8((seq!['\n', '\n'] + body).subrange(0, keep));
            (r.len() == 0 || is_newline(r[0])) && bullet_lines(r)
        }),
{
    let gap = seq!['\n', '\n'];
    let all = gap + body;
    let tail = all.subrange(0, keep);
    let rest = all.subrange(keep, all.len() as int);
    let r = encode_utf8(tail);
    assert(is_ascii_chars(gap));
    is_ascii_chars_encode_utf8(gap);
    lemma_encode_concat(gap, body);
    let whole = encode_utf8(all);
    assert(whole =~= encode_utf8(gap) + encode_utf8(body));
    assert(tail + rest =~= all);
    lemma_encode_concat(tail, rest);
    assert forall|i: int| 0 <= i < r.len() implies r[i] == whole[i] by {
        assert(whole == r + encode_utf8(rest));
    }
    if keep > 0 {
        let one = seq![tail[0]];
        assert(tail =~= one + tail.drop_first());
        lemma_encode_concat(one, tail.drop_first());
        assert(is_ascii_chars(one));
        is_ascii_chars_encode_utf8(one);
        assert(r[0] == LINE_FEED);
    } else {
        assert(tail =~= Seq::<char>::empty());
    }
    let b = encode_utf8(body);
    assert forall|i: int| #[trigger] starts_line(r, i) implies is_bullet(r[i]) by {
        assert(r[i] == whole[i]);
        assert(whole[0] == LINE_FEED && whole[1] == LINE_FEED);
        assert(i >= 2);
        assert(whole[i] == b[i - 2]);
        if i > 2 {
            assert(r[i - 1] == whole[i - 1]);
            assert(whole[i - 1] == b[i - 3]);
        }
        assert(starts_line(b, i - 2));
    }
}

/// What is written when a backlinks section is put behind a text: the text
/// without the whitespace at its end, the heading and the body, with an
/// empty line between each two, and no whitespace at the end.
pub open spec fn section_text(front: Seq<char>, heading: Seq<char>, body: Seq<char>) -> Seq<char> {
    trimmed_end(
        trimmed_end(front) + "\n\n"@ + heading + "\n\n"@ + body + "\n\n"@ + Seq::<char>::empty(),
    )
}

/// The part of a note in front of its backlinks section: all of its
/// contents where it has none.
pub open spec fn section_front(note: NoteView) -> Seq<char> {
    match note.backlinks_start {
        Some(start) => byte_slice(note.file.content, 0, start as int),
        None => note.file.content,
    }
}

/// What follows the backlinks section of a note; nothing where the section
/// runs to the end of the note, or where the note has none.
pub open spec fn section_rest(note: NoteView) -> Seq<char> {
    match note.backlinks_end {
        Some(end) => byte_slice(note.file.content, end as int, note.bytes().len() as int),
        None => seq![],
    }
}

/// Where nothing but whitespace follows the section of a note, a section
/// is written as at the end of what stands in front of it, and what is
/// saved of the note without its section is what stands in front of it,
/// without the whitespace at its end, and a line feed.
pub proof fn lemma_text_at_end(note: NoteView, heading: Seq<char>, body: Seq<char>)
    requires
        runs_to_end(note),
        note.backlinks_end is Some ==> note.backlinks_start is Some,
    ensures
        note.with_backlinks(heading, body) == section_text(section_front(note), heading, body),
        saved_text(note.without_backlinks()) == trimmed_end(section_front(note)).push('\n'),
{
    let front = section_front(note);
    let rest = section_rest(note);
    let none = Seq::<char>::empty();
    if note.backlinks_end is None {
        lemma_with_backlinks_at_end(note, heading, body);
        let bytes = note.bytes();
        assert(note.without_backlinks() =~= front) by {
            assert(bytes.subrange(bytes.len() as int, bytes.len() as int) =~= Seq::<u8>::empty());
            assert(decode_utf8(Seq::<u8>::empty()) =~= none);
        }
    } else {
        lemma_kept_len(rest);
        let before = trimmed_end(front) + "\n\n"@ + heading + "\n\n"@ + body + "\n\n"@;
        lemma_trimmed_end_of_padded(before, rest);
        assert(before + none =~= before);
        lemma_trimmed_end_of_padded(front, rest);
        assert(note.without_backlinks() == front + rest);
    }
}

/// Whether nothing but whitespace follows the backlinks section of a note,
/// as where the section runs to the end of the note, or the note has none.
pub open spec fn runs_to_end(note: NoteView) -> bool {
    trimmed_end(section_rest(note)).len() == 0
}

/// Where nothing follows the backlinks section of a note, a new section is
/// put behind the part in front of the old one.
pub proof fn lemma_with_backlinks_at_end(note: NoteView, heading: Seq<char>, body: Seq<char>)
    requires
        note.backlinks_end is None,
    ensures
        note.with_backlinks(heading, body) == section_text(section_front(note), heading, body),
{
    let bytes = note.bytes();
    assert(bytes.subrange(bytes.len() as int, bytes.len() as int) =~= Seq::<u8>::empty());
    assert(decode_utf8(Seq::<u8>::empty()) =~= Seq::<char>::empty());
}

/// What is written when a backlinks section is put behind a text: the text
/// without the whitespace at its end, an empty line, the heading, and the
/// body behind an empty line, without the whitespace at its end.
pub(crate) proof fn lemma_written_text(front: Seq<char>, heading: Seq<char>, body: Seq<char>)
    requires
        heading.len() > 0,
        !is_blank(heading.last()) || trimmed_end(body).len() > 0,
    ensures
        section_text(front, heading, body) == trimmed_end(front) + seq!['\n', '\n'] + heading
            + trimmed_end(seq!['\n', '\n'] + body),
        encode_utf8(section_text(front, heading, body)) == encode_utf8(trimmed_end(front)) + seq![
            LINE_FEED,
            LINE_FEED,
        ] + encode_utf8(heading) + encode_utf8(trimmed_end(seq!['\n', '\n'] + body)),
{
    lemma_gap_bytes();
    let gap = seq!['\n', '\n'];
    let none = Seq::<char>::empty();
    let kept = trimmed_end(front);
    let written = section_text(front, heading, body);
    let before = kept + gap + heading;
    let behind = gap + body + gap;
    assert(kept + gap + heading + gap + body + gap + none =~= before + behind);
    assert(before.last() == heading.last());
    assert(behind =~= (gap + body) + gap);
    lemma_trimmed_end_of_padded(gap + body, gap);
    let tail = trimmed_end(gap + body);
    if is_blank(heading.last()) {
        lemma_kept_len(body);
        assert(trimmed_end(body).len() == kept_len(body));
        lemma_trimmed_end_in_front(gap, body);
        assert(tail.len() == 2 + trimmed_end(body).len());
        lemma_kept_len(behind);
        assert(trimmed_end(behind) == tail);
        assert(tail.len() == kept_len(behind));
        lemma_trimmed_end_in_front(before, behind);
    } else {
        lemma_trimmed_end_behind(before, behind);
    }
    assert(written == before + tail);
    lemma_encode_concat(before, tail);
    lemma_encode_concat(kept + gap, heading);
    lemma_encode_concat(kept, gap);
}

/// The body of a backlinks section that runs to the end of a note is what
/// stands behind the heading, trimmed.
pub(crate) proof fn lemma_body_at_the_end(note: NoteView, p: Seq<u8>, tail: Seq<char>)
    requires
        note.bytes() == p + seq![LINE_FEED, LINE_FEED] + encode_utf8(note.backlinks_heading) + encode_utf8(tail),
        note.bytes().len() <= usize::MAX,
        note.backlinks_start == Some((p.len() + 2) as usize),
        note.backlinks_end is None,
    ensures
        note.backlinks_body() == Some(trimmed(tail)),
{
    broadcast use encode_utf8_decode_utf8;

    let h = encode_utf8(note.backlinks_heading);
    let r = encode_utf8(tail);
    let t = note.bytes();
    let off: int = p.len() as int + 2;
    assert(t.subrange(off + h.len(), t.len() as int) =~= r);
    assert(byte_slice(note.file.content, off + h.len(), note.region_end()) == tail);
}

/// The note that is made of contents in which a section stands at the end,
/// behind a part `p` in which the parser takes the heading for the heading,
/// has what stands behind the heading, trimmed, for its backlinks body.
pub(crate) proof fn lemma_note_with_section(
    cfg: ParserView,
    file: FileView,
    p: Seq<u8>,
    tail: Seq<char>,
)
    requires
        encode_utf8(cfg.backlinks_heading).len() > 0,
        forall|k: int|
            0 <= k < encode_utf8(cfg.backlinks_heading).len() ==> !is_newline(
                #[trigger] encode_utf8(cfg.backlinks_heading)[k],
            ),
        encode_utf8(file.content) == p + seq![LINE_FEED, LINE_FEED] + encode_utf8(
            cfg.backlinks_heading,
        ) + encode_utf8(tail),
        encode_utf8(file.content).len() <= usize::MAX,
        encode_utf8(tail).len() == 0 || is_newline(encode_utf8(tail)[0]),
        bullet_lines(encode_utf8(tail)),
        takes_heading(cfg, final_state(cfg, p), encode_utf8(cfg.backlinks_heading)),
    ensures
        note_of(cfg, file).backlinks_body() == Some(trimmed(tail)),
        parsed(cfg, encode_utf8(file.content)) == (NoteDataView {
            backlinks_start: Some((p.len() + 2) as usize),
            backlinks_end: None,
            ..parsed(cfg, p)
        }),
{
    lemma_section_is_found(cfg, p, encode_utf8(tail));
    let note = note_of(cfg, file);
    assert(note.backlinks_start == Some((p.len() + 2) as usize));
    assert(note.backlinks_end is None);
    assert(note.backlinks_heading == cfg.backlinks_heading);
    lemma_body_at_the_end(note, p, tail);
}

/// A backlinks section that is added to a note is found again: where a note
/// has no backlinks section, and one is written behind its contents with
/// the heading of the parser and a body whose lines all start with the mark
/// of a list item, parsing the new contents gives a note whose backlinks
/// body is that body, trimmed.
///
/// This holds where the heading is one line; where the body holds more than
/// whitespace or the heading does not end in whitespace, for else the
/// whitespace at the end of the heading is cut with the end of the text;
/// where the parser, having read the contents up to the whitespace at their
/// end, takes the heading for the heading, which it does not inside front
/// matter or a code block that was never closed; and where the new contents
/// are no longer than a string can be.
pub proof fn lemma_new_backlinks_are_found(cfg: ParserView, file: FileView, body: Seq<char>)
    requires
        note_of(cfg, file).backlinks_start is None,
        cfg.backlinks_heading.len() > 0,
        !is_blank(cfg.backlinks_heading.last()) || trimmed_end(body).len() > 0,
        forall|k: int|
            0 <= k < encode_utf8(cfg.backlinks_heading).len() ==> !is_newline(
                #[trigger] encode_utf8(cfg.backlinks_heading)[k],
            ),
        takes_heading(
            cfg,
            final_state(cfg, encode_utf8(trimmed_end(file.content))),
            encode_utf8(cfg.backlinks_heading),
        ),
        bullet_lines(encode_utf8(body)),
        encode_utf8(note_of(cfg, file).with_backlinks(cfg.backlinks_heading, body)).len() <= usize::MAX,
    ensures
        note_of(
            cfg,
            FileView {
                content: note_of(cfg, file).with_backlinks(cfg.backlinks_heading, body),
                ..file
            },
        ).backlinks_body() == Some(trimmed(body)),
{
    let note = note_of(cfg, file);
    let heading = cfg.backlinks_heading;
    let gap = seq!['\n', '\n'];
    let written = note.with_backlinks(heading, body);
    let tail = trimmed_end(gap + body);
    let p = encode_utf8(trimmed_end(file.content));
    assert(written == section_text(file.content, heading, body));
    lemma_written_text(file.content, heading, body);
    lemma_kept_len(gap + body);
    lemma_written_body(body, kept_len(gap + body));
    lemma_note_with_section(cfg, FileView { content: written, ..file }, p, tail);
    assert forall|k: int| 0 <= k < gap.len() implies is_blank(#[trigger] gap[k]) by {}
    lemma_trimmed_of_padded(gap, body);
}

/// Writing the backlinks section of a note a second time changes nothing:
/// where a section is written at the end of a note, and the note that is
/// made of the new contents gets the same section again, the contents stay
/// as they are.
///
/// This holds where the heading is one line; where the body holds more than
/// whitespace or the heading does not end in whitespace; where nothing but
/// whitespace follows the section that the note has, if it has one; where
/// the parser, having read what stands in front of the section, takes the
/// heading for the heading; where every line of the body starts with the
/// mark of a list item; and where the new contents are no longer than a
/// string can be.
pub proof fn lemma_rewriting_changes_nothing(cfg: ParserView, file: FileView, body: Seq<char>)
    requires
        cfg.backlinks_heading.len() > 0,
        !is_blank(cfg.backlinks_heading.last()) || trimmed_end(body).len() > 0,
        forall|k: int|
            0 <= k < encode_utf8(cfg.backlinks_heading).len() ==> !is_newline(
                #[trigger] encode_utf8(cfg.backlinks_heading)[k],
            ),
        note_of(cfg, file).well_formed(),
        runs_to_end(note_of(cfg, file)),
        takes_heading(
            cfg,
            final_state(cfg, encode_utf8(trimmed_end(section_front(note_of(cfg, file))))),
            encode_utf8(cfg.backlinks_heading),
        ),
        bullet_lines(encode_utf8(body)),
        encode_utf8(note_of(cfg, file).with_backlinks(cfg.backlinks_heading, body)).len() <= usize::MAX,
    ensures
        ({
            let written = note_of(cfg, file).with_backlinks(cfg.backlinks_heading, body);
            note_of(cfg, FileView { content: written, ..file }).with_backlinks(
                cfg.backlinks_heading,
                body,
            ) == written
        }),
{
    broadcast use encode_utf8_decode_utf8;

    let note = note_of(cfg, file);
    let heading = cfg.backlinks_heading;
    let gap = seq!['\n', '\n'];
    let front = section_front(note);
    let kept = trimmed_end(front);
    let p = encode_utf8(kept);
    let tail = trimmed_end(gap + body);
    let written = note.with_backlinks(heading, body);
    lemma_text_at_end(note, heading, body);
    lemma_written_text(front, heading, body);
    lemma_kept_len(gap + body);
    lemma_written_body(body, kept_len(gap + body));
    let again = note_of(cfg, FileView { content: written, ..file });
    lemma_note_with_section(cfg, FileView { content: written, ..file }, p, tail);
    // what stands in front of the new section
    lemma_gap_bytes();
    lemma_encode_concat(kept, gap);
    let t = encode_utf8(written);
    let off: int = p.len() as int + 2;
    assert(t.subrange(0, off) =~= encode_utf8(kept + gap));
    assert(section_front(again) == kept + gap);
    assert forall|k: int| 0 <= k < gap.len() implies is_blank(#[trigger] gap[k]) by {}
    lemma_trimmed_end_of_padded(kept, gap);
    lemma_kept_len(front);
    let cut = front.subrange(0, kept_len(front));
    if cut.len() > 0 {
        assert(cut[cut.len() - 1] == front[kept_len(front) - 1]);
    }
    lemma_trimmed_end(cut, cut.len() as int);
    assert(cut.subrange(0, cut.len() as int) =~= cut);
    assert(trimmed_end(kept + gap) == kept);
    lemma_with_backlinks_at_end(again, heading, body);
    assert(section_text(kept + gap, heading, body) == section_text(front, heading, body));
}

} // verus!
