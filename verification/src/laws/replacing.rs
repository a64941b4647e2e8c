//! What holds of a backlinks section that was written in place of one that
//! other text follows: parsing the note again finds the new section where
//! the old one stood, and what follows it as before.
use crate::lines::has_bom;
use crate::mdparse::{lines, parsed, run, step, NoteDataView, ParseState, ParserView};
use crate::laws::regions::{
    lemma_lines_rising, lemma_lines_split_at_line, lemma_run_in_step, lemma_section_and_rest,
};
use crate::laws::section::{
    bullet_lines, final_state, is_bullet, lemma_bom_of_prefix, lemma_lines_are_lines,
    lemma_lines_of_items, lemma_lines_split, lemma_run_in_prefix, lemma_section_heading_line,
    lemma_section_run, takes_heading,
};
use crate::laws::shifting::{
    alike, lemma_lines_before_final_newlines, lemma_lines_moved, lemma_run_moved,
    lemma_run_on_first, lemma_run_on_split, moved, run_on,
};
use crate::text::{is_newline, starts_with_run, HYPHEN, LINE_FEED};
use vstd::prelude::*;
use vstd::utf8::*;

verus! {

/// The lines of what follows a section are the lines of its part up to the
/// newlines at its end, moved to where it stands.
pub proof fn lemma_rest_lines(t: Seq<u8>, e: int, kb: Seq<u8>, rest: Seq<u8>)
    requires
        0 <= e <= t.len(),
        t.subrange(e, t.len() as int) == kb + rest,
        forall|k: int| 0 <= k < rest.len() ==> is_newline(#[trigger] rest[k]),
    ensures
        lines(t, e) == moved(lines(kb, 0), e),
        forall|j: int|
            0 <= j < lines(kb, 0).len() ==> 0 <= (#[trigger] lines(kb, 0)[j]).0 < lines(kb, 0)[j].1
                <= kb.len(),
{
    lemma_lines_moved(t, e, 0);
    lemma_lines_before_final_newlines(kb, rest);
    assert forall|j: int| 0 <= j < lines(kb, 0).len() implies 0 <= (#[trigger] lines(kb, 0)[j]).0
        < lines(kb, 0)[j].1 <= kb.len() by {
        lemma_lines_are_lines(kb, 0, j);
    }
}

/// The lines of a text from the heading of a section on: the lines of the
/// part in front, the heading, and the lines behind the heading.
proof fn lemma_head_lines(p: Seq<u8>, h: Seq<u8>, r: Seq<u8>)
    requires
        h.len() > 0,
        forall|k: int| 0 <= k < h.len() ==> !is_newline(#[trigger] h[k]),
        r.len() > 0,
        is_newline(r[0]),
    ensures
        ({
            let u = p + seq![LINE_FEED, LINE_FEED] + h + r;
            let off = p.len() as int + 2;
            let stop = off + h.len();
            let bom = if has_bom(p) {
                3int
            } else {
                0int
            };
            &&& has_bom(u) == has_bom(p)
            &&& u.subrange(off, stop) == h
            &&& lines(u, bom) == lines(p, bom).push((off, stop)) + lines(u, stop)
        }),
{
    let gap = seq![LINE_FEED, LINE_FEED];
    let u = p + gap + h + r;
    let off: int = p.len() as int + 2;
    let stop: int = off + h.len();
    let bom = if has_bom(p) {
        3int
    } else {
        0int
    };
    let tail = gap + h + r;
    assert(u =~= p + tail);
    assert(tail[0] == gap[0]);
    lemma_bom_of_prefix(p, tail);
    lemma_lines_split(p, tail, bom);
    lemma_section_heading_line(p, h, r);
    assert(lines(u, bom) =~= lines(p, bom).push((off, stop)) + lines(u, stop));
}

/// The lines of a text from the end of a heading on, where list items and
/// then other text follow: lines that all start with the mark of a list
/// item, and the lines of that text, moved to where it stands.
proof fn lemma_items_and_rest(u: Seq<u8>, stop: int, g: Seq<u8>, kb: Seq<u8>)
    requires
        0 <= stop,
        u.len() == stop + g.len() + kb.len() + 1,
        u.subrange(stop, u.len() as int) == g + kb + seq![LINE_FEED],
        g.len() > 0,
        is_newline(g[0]),
        is_newline(g[g.len() - 1]),
        bullet_lines(g),
    ensures
        ({
            let behind = stop + g.len();
            let items = lines(u.subrange(0, behind), stop);
            &&& lines(u, stop) == items + moved(lines(kb, 0), behind)
            &&& forall|k: int|
                0 <= k < items.len() ==> 0 <= (#[trigger] items[k]).0 < items[k].1 <= u.len()
                    && is_bullet(u[items[k].0])
        }),
{
    let feed = seq![LINE_FEED];
    let behind: int = stop + g.len();
    let x = u.subrange(0, behind);
    let y = u.subrange(behind, u.len() as int);
    let from = u.subrange(stop, u.len() as int);
    assert(u =~= x + y);
    assert forall|i: int| 0 <= i < g.len() implies #[trigger] x[stop + i] == g[i] by {
        assert(from[i] == u[stop + i]);
    }
    assert(x[stop + (g.len() - 1)] == g[g.len() - 1]);
    lemma_lines_split_at_line(x, y, stop);
    let items = lines(x, stop);
    assert forall|k: int| 0 <= k < items.len() implies 0 <= (#[trigger] items[k]).0 < items[k].1
        <= u.len() && is_bullet(u[items[k].0]) by {
        lemma_lines_of_items(x, stop, g, k);
        assert(x[items[k].0] == u[items[k].0]);
    }
    lemma_lines_moved(u, behind, 0);
    assert(y =~= kb + feed) by {
        assert forall|i: int| 0 <= i < y.len() implies y[i] == (kb + feed)[i] by {
            assert(y[i] == from[g.len() + i]);
        }
    }
    assert forall|k: int| 0 <= k < feed.len() implies is_newline(#[trigger] feed[k]) by {}
    lemma_lines_before_final_newlines(kb, feed);
}

/// The lines of a text in which a section stands between a part in front
/// and a part behind: the lines of the part in front, the heading, lines
/// that all start with the mark of a list item, and the lines of the part
/// behind, moved to where it stands.
pub proof fn lemma_replaced_lines(p: Seq<u8>, h: Seq<u8>, g: Seq<u8>, kb: Seq<u8>)
    requires
        h.len() > 0,
        forall|k: int| 0 <= k < h.len() ==> !is_newline(#[trigger] h[k]),
        g.len() > 0,
        is_newline(g[0]),
        is_newline(g[g.len() - 1]),
        bullet_lines(g),
    ensures
        ({
            let u = p + seq![LINE_FEED, LINE_FEED] + h + g + kb + seq![LINE_FEED];
            let off = p.len() as int + 2;
            let stop = off + h.len();
            let behind = stop + g.len();
            let bom = if has_bom(p) {
                3int
            } else {
                0int
            };
            let items = lines(u.subrange(0, behind), stop);
            &&& has_bom(u) == has_bom(p)
            &&& u.subrange(off, stop) == h
            &&& lines(u, bom) == lines(p, bom).push((off, stop)) + items + moved(
                lines(kb, 0),
                behind,
            )
            &&& forall|k: int|
                0 <= k < items.len() ==> 0 <= (#[trigger] items[k]).0 < items[k].1 <= u.len()
                    && is_bullet(u[items[k].0])
        }),
{
    let gap = seq![LINE_FEED, LINE_FEED];
    let feed = seq![LINE_FEED];
    let u = p + gap + h + g + kb + feed;
    let off: int = p.len() as int + 2;
    let stop: int = off + h.len();
    let behind: int = stop + g.len();
    let bom = if has_bom(p) {
        3int
    } else {
        0int
    };
    let r = g + kb + feed;
    assert(u =~= p + gap + h + r);
    assert(r[0] == g[0]);
    lemma_head_lines(p, h, r);
    assert(u.subrange(stop, u.len() as int) =~= r);
    lemma_items_and_rest(u, stop, g, kb);
    let items = lines(u.subrange(0, behind), stop);
    assert(lines(p, bom).push((off, stop)) + (items + moved(lines(kb, 0), behind)) =~= lines(
        p,
        bom,
    ).push((off, stop)) + items + moved(lines(kb, 0), behind));
}

/// What the parser finds in the text behind a section does not depend on
/// where the section stands: where a text with a closed section and a text
/// with a new section hold the same part behind their sections, and the
/// parser found the same in front of the sections, it finds the same in the
/// two texts, with the new section closed where the part behind it starts.
proof fn lemma_rest_is_read_alike(
    cfg: ParserView,
    t: Seq<u8>,
    u: Seq<u8>,
    kb: Seq<u8>,
    e: int,
    behind: int,
    old_open: NoteDataView,
    new_open: NoteDataView,
)
    requires
        t.len() <= usize::MAX,
        u.len() <= usize::MAX,
        0 <= e,
        e + kb.len() <= t.len(),
        0 <= behind,
        behind + kb.len() <= u.len(),
        forall|i: int| 0 <= i < kb.len() ==> #[trigger] t[e + i] == kb[i],
        forall|i: int| 0 <= i < kb.len() ==> #[trigger] u[behind + i] == kb[i],
        forall|j: int|
            0 <= j < lines(kb, 0).len() ==> 0 <= (#[trigger] lines(kb, 0)[j]).0 < lines(kb, 0)[j].1
                <= kb.len(),
    ensures
        alike(
            run_on(cfg, t, ParseState::BackLinks, old_open, moved(lines(kb, 0), e)).1,
            run_on(cfg, u, ParseState::BackLinks, new_open, moved(lines(kb, 0), behind)).1,
            e,
            behind - e,
            old_open,
            new_open,
        ),
{
    let base = lines(kb, 0);
    let ls = moved(base, e);
    let by = behind - e;
    assert(moved(ls, by) =~= moved(base, behind));
    assert forall|j: int| 0 <= j < ls.len() implies e <= (#[trigger] ls[j]).0 <= ls[j].1 <= t.len()
        && 0 <= ls[j].0 + by && ls[j].1 + by <= u.len() && u.subrange(ls[j].0 + by, ls[j].1 + by)
        == t.subrange(ls[j].0, ls[j].1) by {
        let a = base[j].0;
        let b = base[j].1;
        assert(ls[j] == (a + e, b + e));
        let in_new = u.subrange(behind + a, behind + b);
        let in_old = t.subrange(e + a, e + b);
        assert forall|i: int| 0 <= i < b - a implies #[trigger] in_new[i] == in_old[i] by {
            assert(u[behind + (a + i)] == kb[a + i]);
            assert(t[e + (a + i)] == kb[a + i]);
        }
        assert(in_new =~= in_old);
    }
    lemma_run_moved(cfg, t, u, ParseState::BackLinks, old_open, new_open, ls, e, by);
}

/// A backlinks section that is written in place of one that other text
/// follows is found where the old one stood: where the new text holds the
/// heading behind an empty line, then list items between empty lines, then
/// the text that followed the old section, the parser finds in the new text
/// the section from the heading up to that text; and besides it finds what
/// it found in the old text, as far as it found the same in front of the
/// two sections.
pub proof fn lemma_section_replaced(
    cfg: ParserView,
    t: Seq<u8>,
    p: Seq<u8>,
    g: Seq<u8>,
    kb: Seq<u8>,
    rest: Seq<u8>,
)
    requires
        t.len() <= usize::MAX,
        parsed(cfg, t).backlinks_start is Some,
        parsed(cfg, t).backlinks_end is Some,
        takes_heading(cfg, final_state(cfg, p), encode_utf8(cfg.backlinks_heading)),
        t.subrange(parsed(cfg, t).backlinks_end->0 as int, t.len() as int) == kb + rest,
        forall|k: int| 0 <= k < rest.len() ==> is_newline(#[trigger] rest[k]),
        encode_utf8(cfg.backlinks_heading).len() > 0,
        forall|k: int|
            0 <= k < encode_utf8(cfg.backlinks_heading).len() ==> !is_newline(
                #[trigger] encode_utf8(cfg.backlinks_heading)[k],
            ),
        g.len() > 0,
        is_newline(g[0]),
        is_newline(g[g.len() - 1]),
        bullet_lines(g),
        p.len() + 2 + encode_utf8(cfg.backlinks_heading).len() + g.len() + kb.len() + 1
            <= usize::MAX,
    ensures
        ({
            let u = p + seq![LINE_FEED, LINE_FEED] + encode_utf8(cfg.backlinks_heading) + g + kb
                + seq![LINE_FEED];
            let found = parsed(cfg, u);
            let s = parsed(cfg, t).backlinks_start->0 as int;
            &&& found.backlinks_start == Some((p.len() + 2) as usize)
            &&& found.backlinks_end == Some(
                (p.len() + 2 + encode_utf8(cfg.backlinks_heading).len() + g.len()) as usize,
            )
            &&& parsed(cfg, p).titles == parsed(cfg, t.subrange(0, s)).titles ==> found.titles
                == parsed(cfg, t).titles
            &&& parsed(cfg, p).ids == parsed(cfg, t.subrange(0, s)).ids ==> found.ids == parsed(
                cfg,
                t,
            ).ids
            &&& parsed(cfg, p).links == parsed(cfg, t.subrange(0, s)).links ==> found.links
                == parsed(cfg, t).links
        }),
{
    let h = encode_utf8(cfg.backlinks_heading);
    let u = p + seq![LINE_FEED, LINE_FEED] + h + g + kb + seq![LINE_FEED];
    let s = parsed(cfg, t).backlinks_start->0 as int;
    let e = parsed(cfg, t).backlinks_end->0 as int;
    let off: int = p.len() as int + 2;
    let stop: int = off + h.len();
    let behind: int = stop + g.len();
    let bom = if has_bom(p) {
        3int
    } else {
        0int
    };
    // the old text
    lemma_section_and_rest(cfg, t);
    lemma_rest_lines(t, e, kb, rest);
    let x = t.subrange(0, s);
    let old_open = NoteDataView {
        backlinks_start: Some(s as usize),
        backlinks_end: None,
        ..parsed(cfg, x)
    };
    // the new text
    lemma_replaced_lines(p, h, g, kb);
    let first = lines(p, bom);
    let items = lines(u.subrange(0, behind), stop);
    let after = moved(lines(kb, 0), behind);
    let new_open = NoteDataView {
        backlinks_start: Some(off as usize),
        backlinks_end: None,
        ..parsed(cfg, p)
    };
    assert(run(cfg, u, first.push((off, stop)) + items) == (ParseState::BackLinks, new_open)) by {
        let tail = seq![LINE_FEED, LINE_FEED] + h + g + kb + seq![LINE_FEED];
        assert(u =~= p + tail);
        assert forall|k: int| 0 <= k < first.len() implies 0 <= (#[trigger] first[k]).0
            <= first[k].1 <= p.len() by {
            lemma_lines_are_lines(p, bom, k);
        }
        lemma_run_in_prefix(cfg, p, tail, first);
        lemma_section_run(cfg, u, first, off, stop, items);
    }
    lemma_run_on_split(cfg, u, first.push((off, stop)) + items, after);
    // what follows the sections
    let from = t.subrange(e, t.len() as int);
    assert(from.len() == t.len() - e);
    assert(from.len() == kb.len() + rest.len());
    assert forall|i: int| 0 <= i < kb.len() implies #[trigger] t[e + i] == kb[i] by {
        assert(from[i] == t[e + i]);
        assert(from[i] == kb[i]);
    }
    assert forall|i: int| 0 <= i < kb.len() implies #[trigger] u[behind + i] == kb[i] by {}
    lemma_rest_is_read_alike(cfg, t, u, kb, e, behind, old_open, new_open);
}

/// Whether the parser, in the given state, reads a line as a line of the
/// body: it is in the body, or at the start of a note whose first line does
/// not open front matter.
pub open spec fn reads_as_body(state: ParseState, line: Seq<u8>) -> bool {
    state is Regular || (state is Initial && !starts_with_run(line, HYPHEN, 3))
}

/// The first line behind a section that goes is read as it was read behind
/// the section, where the parser reads it as a line of the body: it finds
/// the same in it, but does not end a section there.
proof fn lemma_first_line_without_section(
    cfg: ParserView,
    state: ParseState,
    line: Seq<u8>,
    at: int,
    to: int,
    d: NoteDataView,
    s: usize,
)
    requires
        line.len() > 0,
        !is_bullet(line[0]),
        reads_as_body(state, line),
        0 <= at <= usize::MAX,
        0 <= to <= usize::MAX,
        s < at,
        d.backlinks_start is None,
        d.backlinks_end is None,
        step(
            cfg,
            ParseState::BackLinks,
            line,
            at,
            NoteDataView { backlinks_start: Some(s), backlinks_end: None, ..d },
        ).1.backlinks_start == Some(s),
    ensures
        ({
            let with_section = step(
                cfg,
                ParseState::BackLinks,
                line,
                at,
                NoteDataView { backlinks_start: Some(s), backlinks_end: None, ..d },
            );
            let without = step(cfg, state, line, to, d);
            &&& with_section.0 == without.0
            &&& with_section.1.titles == without.1.titles
            &&& with_section.1.ids == without.1.ids
            &&& with_section.1.links == without.1.links
            &&& with_section.1.tasks == without.1.tasks
            &&& with_section.1.backlinks_start == Some(s)
            &&& without.1.backlinks_start is None
            &&& without.1.backlinks_end is None
        }),
{
    reveal(step);
}

/// A backlinks section that is taken away from in front of other text is
/// gone: where no other section stands in front of it, the parser reads the
/// first line behind it as a line of the body, and the text without it
/// starts with a byte order mark only if the text did, the parser finds no
/// section in the text without it, and besides what it found in the text.
pub proof fn lemma_section_taken_out(cfg: ParserView, t: Seq<u8>, kb: Seq<u8>, rest: Seq<u8>)
    requires
        t.len() <= usize::MAX,
        parsed(cfg, t).backlinks_start is Some,
        parsed(cfg, t).backlinks_end is Some,
        parsed(cfg, t.subrange(0, parsed(cfg, t).backlinks_start->0 as int)).backlinks_start
            is None,
        t.subrange(parsed(cfg, t).backlinks_end->0 as int, t.len() as int) == kb + rest,
        forall|k: int| 0 <= k < rest.len() ==> is_newline(#[trigger] rest[k]),
        kb.len() > 0,
        reads_as_body(
            final_state(cfg, t.subrange(0, parsed(cfg, t).backlinks_start->0 as int)),
            kb.subrange(0, lines(kb, 0)[0].1),
        ),
        parsed(cfg, t).backlinks_start->0 == 0 ==> !has_bom(kb),
    ensures
        ({
            let u = t.subrange(0, parsed(cfg, t).backlinks_start->0 as int) + kb + seq![
                LINE_FEED,
            ];
            let found = parsed(cfg, u);
            &&& found.backlinks_start is None
            &&& found.titles == parsed(cfg, t).titles
            &&& found.ids == parsed(cfg, t).ids
            &&& found.links == parsed(cfg, t).links
        }),
{
    let s = parsed(cfg, t).backlinks_start->0 as int;
    let e = parsed(cfg, t).backlinks_end->0 as int;
    let x = t.subrange(0, s);
    let feed = seq![LINE_FEED];
    let u = x + kb + feed;
    let y = kb + feed;
    assert(u =~= x + y);
    let base = lines(kb, 0);
    let bom = if has_bom(t) {
        3int
    } else {
        0int
    };
    // the old text
    lemma_section_and_rest(cfg, t);
    lemma_rest_lines(t, e, kb, rest);
    let from = t.subrange(e, t.len() as int);
    assert(from.len() == t.len() - e);
    assert forall|i: int| 0 <= i < kb.len() implies #[trigger] t[e + i] == kb[i] by {
        assert(from[i] == t[e + i]);
        assert(from[i] == kb[i]);
    }
    let before = lines(t, e);
    assert(before[0] == (base[0].0 + e, base[0].1 + e));
    assert(base[0].0 == 0);
    let stop = base[0].1;
    let old_open = NoteDataView {
        backlinks_start: Some(s as usize),
        backlinks_end: None,
        ..parsed(cfg, x)
    };
    // the new text starts with a byte order mark only if the old one did
    assert(has_bom(u) == has_bom(t) && has_bom(x) == has_bom(t)) by {
        if s >= 3 {
            assert(u[0] == t[0] && u[1] == t[1] && u[2] == t[2]);
            assert(x[0] == t[0] && x[1] == t[1] && x[2] == t[2]);
        } else if s > 0 {
            assert(!has_bom(t));
            assert(u[s - 1] == t[s - 1]);
            assert(is_newline(t[s - 1]));
        } else {
            assert(!has_bom(t));
            if kb.len() >= 3 {
                assert(u[0] == kb[0] && u[1] == kb[1] && u[2] == kb[2]);
            } else {
                assert(u[kb.len() as int] == LINE_FEED);
            }
        }
    }
    // its lines are the lines in front of the section and the lines behind
    if s > bom {
        assert(x[x.len() - 1] == t[s - 1]);
    }
    lemma_lines_split_at_line(x, y, bom);
    lemma_lines_moved(u, s, 0);
    assert(u.subrange(s, u.len() as int) =~= y);
    assert forall|k: int| 0 <= k < feed.len() implies is_newline(#[trigger] feed[k]) by {}
    lemma_lines_before_final_newlines(kb, feed);
    let first = lines(x, bom);
    let behind = moved(base, s);
    assert(lines(u, bom) == first + behind);
    assert forall|k: int| 0 <= k < first.len() implies 0 <= (#[trigger] first[k]).0 <= first[k].1
        <= x.len() by {
        lemma_lines_are_lines(x, bom, k);
    }
    lemma_run_in_prefix(cfg, x, y, first);
    lemma_run_on_split(cfg, u, first, behind);
    let state = final_state(cfg, x);
    let d = parsed(cfg, x);
    lemma_lines_rising(x, bom);
    lemma_run_in_step(cfg, x, first);
    assert(d.backlinks_end is None);
    // the first line behind the section
    let line = kb.subrange(0, stop);
    assert(t.subrange(e, e + stop) =~= line);
    assert(u.subrange(s, s + stop) =~= line);
    assert(line[0] == t[e + 0]);
    lemma_first_line_without_section(cfg, state, line, e, s, d, s as usize);
    lemma_run_on_first(cfg, t, ParseState::BackLinks, old_open, before);
    lemma_run_on_first(cfg, u, state, d, behind);
    let (old_state, old_found) = step(cfg, ParseState::BackLinks, line, e, old_open);
    let (new_state, new_found) = step(cfg, state, line, s, d);
    // the lines behind it
    let more = before.drop_first();
    let by = s - e;
    assert(behind.drop_first() =~= moved(more, by));
    assert forall|j: int| 0 <= j < more.len() implies e <= (#[trigger] more[j]).0 <= more[j].1
        <= t.len() && 0 <= more[j].0 + by && more[j].1 + by <= u.len() && u.subrange(
        more[j].0 + by,
        more[j].1 + by,
    ) == t.subrange(more[j].0, more[j].1) by {
        let a = base[j + 1].0;
        let b = base[j + 1].1;
        assert(more[j] == before[j + 1]);
        assert(before[j + 1] == (a + e, b + e));
        let in_new = u.subrange(s + a, s + b);
        let in_old = t.subrange(e + a, e + b);
        assert forall|i: int| 0 <= i < b - a implies #[trigger] in_new[i] == in_old[i] by {
            assert(u[s + (a + i)] == kb[a + i]);
            assert(t[e + (a + i)] == kb[a + i]);
        }
        assert(in_new =~= in_old);
    }
    lemma_run_moved(cfg, t, u, old_state, old_found, new_found, more, e, by);
}

} // verus!
