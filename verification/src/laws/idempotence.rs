//! Bringing the backlinks sections up to date twice: a second pass finds
//! nothing to do, and a section that is written in place a second time
//! stays as it is.
use crate::collection::{
    backlink_line, indexed, inserted, lemma_indexed_slots, lemma_position, listed, position,
    sorted_slots, CollectionView,
};
use crate::laws::graph::lemma_sorted_slots;
use crate::lines::has_bom;
use crate::link::LinkKey;
use crate::mdparse::{lines, parsed, NoteDataView, ParserView};
use crate::note::{note_of, saved_text, FileView, MetaView, NoteView};
use crate::laws::regions::{lemma_section_and_rest, lemma_section_front};
use crate::laws::replacing::{
    lemma_section_replaced, lemma_section_taken_out, reads_as_body,
};
use crate::laws::section::{
    bullet_lines, final_state, is_bullet, kept_len, lead_len, lemma_encode_concat,
    lemma_first_text_is, lemma_gap_bytes, lemma_kept_len, lemma_lead_len, lemma_lines_are_lines,
    lemma_lines_split, lemma_note_with_section, lemma_run_in_prefix, lemma_text_at_end,
    lemma_trimmed_end_in_front,
    lemma_trimmed_end_of_padded,
    lemma_trimmed_of_padded, lemma_written_body, lemma_written_text,
    runs_to_end, section_front, section_rest, section_text, starts_line, takes_heading,
};
use crate::text::{
    byte_slice, is_blank, is_newline, lemma_trimmed_end, lemma_trimmed_start, trimmed, trimmed_end,
    trimmed_start, LINE_FEED,
};
use vstd::prelude::*;
use vstd::seq_lib::*;
use vstd::utf8::*;

verus! {

/// Newlines at the end of a text make no difference to what the parser
/// finds in it.
pub proof fn lemma_parse_ignores_final_newlines(cfg: ParserView, x: Seq<u8>, y: Seq<u8>)
    requires
        forall|k: int| 0 <= k < y.len() ==> is_newline(#[trigger] y[k]),
    ensures
        parsed(cfg, x + y) == parsed(cfg, x),
        final_state(cfg, x + y) == final_state(cfg, x),
{
    let t = x + y;
    let bom = if has_bom(x) {
        3int
    } else {
        0int
    };
    assert(has_bom(t) == has_bom(x)) by {
        if x.len() >= 3 {
            assert(t[0] == x[0] && t[1] == x[1] && t[2] == x[2]);
        } else if t.len() >= 3 {
            assert(t[x.len() as int] == y[0]);
        }
    }
    if y.len() > 0 {
        assert(is_newline(y[0]));
    }
    lemma_lines_split(x, y, bom);
    assert forall|k: int| x.len() <= k < t.len() implies is_newline(#[trigger] t[k]) by {
        assert(t[k] == y[k - x.len()]);
    }
    lemma_first_text_is(t, x.len() as int, t.len() as int);
    assert(lines(t, x.len() as int) =~= Seq::<(int, int)>::empty());
    let first = lines(x, bom);
    assert(lines(t, bom) =~= first);
    assert forall|k: int| 0 <= k < first.len() implies 0 <= (#[trigger] first[k]).0 <= first[k].1
        <= x.len() by {
        lemma_lines_are_lines(x, bom, k);
    }
    lemma_run_in_prefix(cfg, x, y, first);
}

/// Whitespace at the end of a text makes no difference to what trimming
/// leaves of it.
pub proof fn lemma_trimmed_of_padded_end(y: Seq<char>, w: Seq<char>)
    requires
        forall|k: int| 0 <= k < w.len() ==> is_blank(#[trigger] w[k]),
    ensures
        trimmed(y + w) == trimmed(y),
{
    lemma_lead_len(y);
    let skip = lead_len(y);
    let all = y + w;
    let none = Seq::<char>::empty();
    if skip == y.len() {
        assert forall|i: int| 0 <= i < all.len() implies is_blank(#[trigger] all[i]) by {
            if i < y.len() {
                assert(all[i] == y[i]);
            } else {
                assert(all[i] == w[i - y.len()]);
            }
        }
        lemma_trimmed_start(all, all.len() as int);
        assert(all.subrange(all.len() as int, all.len() as int) =~= none);
        assert(y.subrange(skip, y.len() as int) =~= none);
    } else {
        assert forall|i: int| 0 <= i < skip implies is_blank(#[trigger] all[i]) by {
            assert(all[i] == y[i]);
        }
        assert(all[skip] == y[skip]);
        lemma_trimmed_start(all, skip);
        assert(all.subrange(skip, all.len() as int) =~= y.subrange(skip, y.len() as int) + w);
        lemma_trimmed_end_of_padded(y.subrange(skip, y.len() as int), w);
    }
}

/// A text that trimming leaves as it is, and that is not empty, has no
/// whitespace at its end.
pub proof fn lemma_trimmed_text_ends_in_text(s: Seq<char>)
    requires
        trimmed(s) == s,
        s.len() > 0,
    ensures
        !is_blank(s.last()),
        !is_blank(s[0]),
{
    lemma_lead_len(s);
    lemma_kept_len(trimmed_start(s));
    let rest = s.subrange(lead_len(s), s.len() as int);
    assert(trimmed(s).len() <= rest.len());
    assert(lead_len(s) == 0);
    assert(rest =~= s);
    assert(kept_len(s) == s.len());
}

/// Whether the backlinks heading is one line.
pub open spec fn is_heading_line(cfg: ParserView) -> bool {
    &&& cfg.backlinks_heading.len() > 0
    &&& forall|k: int|
        0 <= k < encode_utf8(cfg.backlinks_heading).len() ==> !is_newline(
            #[trigger] encode_utf8(cfg.backlinks_heading)[k],
        )
}

/// The contents that bring the backlinks section of a note up to the body
/// that it should have: with the section added or replaced, or without it
/// where the body is empty.
pub open spec fn updated_text(cfg: ParserView, note: NoteView, wanted: Seq<char>) -> Seq<char> {
    if wanted.len() > 0 {
        note.with_backlinks(cfg.backlinks_heading, wanted)
    } else {
        note.without_backlinks()
    }
}

/// The body of the backlinks section of a note; empty where it has none.
pub open spec fn body_of(note: NoteView) -> Seq<char> {
    match note.backlinks_body() {
        Some(body) => body,
        None => seq![],
    }
}

/// Whether nothing but line breaks stands behind the last text of a text.
pub open spec fn ends_in_line_breaks(s: Seq<char>) -> bool {
    forall|k: int|
        encode_utf8(trimmed_end(s)).len() <= k < encode_utf8(s).len() ==> is_newline(
            #[trigger] encode_utf8(s)[k],
        )
}

/// Whether a section can be taken away from in front of the text that
/// follows it: the parser, having read what stands in front of the section,
/// reads the first line behind it as a line of the body; and where the
/// section stands at the very start of the note, what follows it does not
/// start with a byte order mark.
pub open spec fn gives_way(cfg: ParserView, note: NoteView) -> bool {
    let front = encode_utf8(section_front(note));
    let rest = encode_utf8(trimmed_end(section_rest(note)));
    &&& reads_as_body(final_state(cfg, front), rest.subrange(0, lines(rest, 0)[0].1))
    &&& note.backlinks_start == Some(0usize) ==> !has_bom(rest)
}

/// Whether the parser finds the same titles, identifiers and links in two
/// texts.
pub open spec fn same_findings(a: NoteDataView, b: NoteDataView) -> bool {
    a.titles == b.titles && a.ids == b.ids && a.links == b.links
}

/// Whether the whitespace at the end of a text can go: the parser finds the
/// same titles, identifiers and links in the text without it, and no
/// section that it did not find in the text.
pub open spec fn trims_cleanly(cfg: ParserView, s: Seq<char>) -> bool {
    let kept = parsed(cfg, encode_utf8(trimmed_end(s)));
    let whole = parsed(cfg, encode_utf8(s));
    same_findings(kept, whole) && (whole.backlinks_start is None ==> kept.backlinks_start
        is None)
}

/// Whether the section of a note stays where it is when the note is saved
/// as it is: in what is written, the parser finds the section where it
/// found it in the note.
pub open spec fn holds_section(cfg: ParserView, note: NoteView) -> bool {
    let saved = encode_utf8(saved_text(note.file.content));
    &&& saved.len() <= usize::MAX
    &&& parsed(cfg, saved).backlinks_start == note.backlinks_start
    &&& parsed(cfg, saved).backlinks_end == note.backlinks_end
}

/// Whether a note can be saved as it is: in what is written the parser
/// finds the titles, identifiers and links of the note, and its section
/// where it stood.
pub open spec fn saves_cleanly(cfg: ParserView, note: NoteView) -> bool {
    holds_section(cfg, note) && same_findings(
        parsed(cfg, encode_utf8(saved_text(note.file.content))),
        parsed(cfg, note.bytes()),
    )
}

/// Whether the backlinks section of a note can be brought up to a body and
/// be found again as it was written. The whitespace at the end of what
/// stands in front of the section can go, unless the section goes from in
/// front of other text; a note with text behind its section can be saved as
/// it is, and in the whitespace behind a section the parser finds nothing;
/// a body that is not empty consists of list items and has no whitespace at
/// its ends, and the parser, having read what stands in front of the
/// section, takes the heading for the heading; and where the body is empty,
/// no other section stands in front of the one that goes, which gives way
/// to the text that follows it.
pub open spec fn takes_update(cfg: ParserView, note: NoteView, wanted: Seq<char>) -> bool {
    let kept = encode_utf8(trimmed_end(section_front(note)));
    let front = encode_utf8(section_front(note));
    &&& note.bytes().len() <= usize::MAX
    &&& wanted.len() > 0 || runs_to_end(note) ==> trims_cleanly(cfg, section_front(note))
    &&& if runs_to_end(note) {
        note.backlinks_end is Some ==> same_findings(parsed(cfg, front), parsed(cfg, note.bytes()))
    } else {
        saves_cleanly(cfg, note)
    }
    &&& wanted.len() > 0 ==> takes_heading(
        cfg,
        final_state(cfg, kept),
        encode_utf8(cfg.backlinks_heading),
    ) && bullet_lines(encode_utf8(wanted)) && trimmed(wanted) == wanted && encode_utf8(
        saved_text(note.with_backlinks(cfg.backlinks_heading, wanted)),
    ).len() <= usize::MAX
    &&& wanted.len() == 0 ==> parsed(cfg, front).backlinks_start is None && (!runs_to_end(note)
        ==> gives_way(cfg, note))
}

/// The whitespace at the end of a text that ends in line breaks can go.
pub proof fn lemma_line_breaks_trim_cleanly(cfg: ParserView, s: Seq<char>)
    requires
        ends_in_line_breaks(s),
    ensures
        trims_cleanly(cfg, s),
{
    lemma_bytes_of_trimmed(s);
    let kept = encode_utf8(trimmed_end(s));
    let end = encode_utf8(s.subrange(kept_len(s), s.len() as int));
    assert forall|k: int| 0 <= k < end.len() implies is_newline(#[trigger] end[k]) by {
        assert(encode_utf8(s)[kept.len() + k] == end[k]);
    }
    lemma_parse_ignores_final_newlines(cfg, kept, end);
}

/// A note that ends in line breaks can be saved as it is.
pub proof fn lemma_line_breaks_save_cleanly(cfg: ParserView, file: FileView)
    requires
        ends_in_line_breaks(file.content),
        encode_utf8(saved_text(file.content)).len() <= usize::MAX,
    ensures
        saves_cleanly(cfg, note_of(cfg, file)),
{
    let s = file.content;
    lemma_bytes_of_trimmed(s);
    let kept = encode_utf8(trimmed_end(s));
    let end = encode_utf8(s.subrange(kept_len(s), s.len() as int));
    assert forall|k: int| 0 <= k < end.len() implies is_newline(#[trigger] end[k]) by {
        assert(encode_utf8(s)[kept.len() + k] == end[k]);
    }
    lemma_parse_ignores_final_newlines(cfg, kept, end);
    let feed = seq!['\n'];
    assert(saved_text(s) =~= trimmed_end(s) + feed);
    lemma_encode_concat(trimmed_end(s), feed);
    assert(is_ascii_chars(feed));
    is_ascii_chars_encode_utf8(feed);
    lemma_parse_ignores_final_newlines(cfg, kept, encode_utf8(feed));
}

/// What is saved when a backlinks section is put behind a text: the text
/// without the whitespace at its end, an empty line, the heading, an empty
/// line, the body, and a line feed.
proof fn lemma_saved_text(front: Seq<char>, heading: Seq<char>, body: Seq<char>)
    requires
        heading.len() > 0,
        trimmed(body) == body,
        body.len() > 0,
    ensures
        saved_text(section_text(front, heading, body)) == trimmed_end(front) + seq!['\n', '\n']
            + heading + (seq!['\n', '\n'] + body + seq!['\n']),
        encode_utf8(saved_text(section_text(front, heading, body))) == encode_utf8(
            trimmed_end(front),
        ) + seq![LINE_FEED, LINE_FEED] + encode_utf8(heading) + encode_utf8(
            seq!['\n', '\n'] + body + seq!['\n'],
        ),
        trimmed(seq!['\n', '\n'] + body + seq!['\n']) == body,
{
    lemma_gap_bytes();
    let gap = seq!['\n', '\n'];
    let feed = seq!['\n'];
    let kept = trimmed_end(front);
    let written = section_text(front, heading, body);
    lemma_trimmed_text_ends_in_text(body);
    lemma_kept_len(body);
    lemma_written_text(front, heading, body);
    let padded = gap + body;
    assert(padded[padded.len() - 1] == body.last());
    lemma_trimmed_end(padded, padded.len() as int);
    assert(padded.subrange(0, padded.len() as int) =~= padded);
    assert(written == kept + gap + heading + padded);
    assert(written[written.len() - 1] == body.last());
    lemma_trimmed_end(written, written.len() as int);
    assert(written.subrange(0, written.len() as int) =~= written);
    let saved = saved_text(written);
    let before = kept + gap + heading;
    assert(saved =~= before + (padded + feed));
    lemma_encode_concat(before, padded + feed);
    lemma_encode_concat(kept + gap, heading);
    lemma_encode_concat(kept, gap);
    assert forall|k: int| 0 <= k < feed.len() implies is_blank(#[trigger] feed[k]) by {}
    assert forall|k: int| 0 <= k < gap.len() implies is_blank(#[trigger] gap[k]) by {}
    lemma_trimmed_of_padded_end(padded, feed);
    lemma_trimmed_of_padded(gap, body);
}

/// The bytes of the body as it is saved start with a line feed, and each of
/// its lines starts with the mark of a list item.
proof fn lemma_saved_body(body: Seq<char>)
    requires
        bullet_lines(encode_utf8(body)),
    ensures
        ({
            let r = encode_utf8(seq!['\n', '\n'] + body + seq!['\n']);
            r.len() > 0 && is_newline(r[0]) && bullet_lines(r)
        }),
{
    let gap = seq!['\n', '\n'];
    let feed = seq!['\n'];
    let padded = gap + body;
    lemma_written_body(body, padded.len() as int);
    assert(padded.subrange(0, padded.len() as int) =~= padded);
    let r = encode_utf8(padded);
    lemma_encode_concat(padded, feed);
    assert(is_ascii_chars(feed));
    is_ascii_chars_encode_utf8(feed);
    let all = encode_utf8(padded + feed);
    assert(all == r + encode_utf8(feed));
    lemma_encode_concat(gap, body);
    assert(is_ascii_chars(gap));
    is_ascii_chars_encode_utf8(gap);
    assert(r.len() >= 2);
    assert(all[0] == r[0]);
    assert forall|i: int| #[trigger] starts_line(all, i) implies is_bullet(all[i]) by {
        if i < r.len() {
            assert(all[i] == r[i]);
            if i > 0 {
                assert(all[i - 1] == r[i - 1]);
            }
            assert(starts_line(r, i));
        } else {
            assert(all[i] == encode_utf8(feed)[i - r.len()]);
        }
    }
}

/// The bytes of a text are those of its part without the whitespace at its
/// end, and then those of that whitespace.
proof fn lemma_bytes_of_trimmed(s: Seq<char>)
    ensures
        encode_utf8(s) == encode_utf8(trimmed_end(s)) + encode_utf8(
            s.subrange(kept_len(s), s.len() as int),
        ),
{
    lemma_kept_len(s);
    assert(s =~= trimmed_end(s) + s.subrange(kept_len(s), s.len() as int));
    lemma_encode_concat(trimmed_end(s), s.subrange(kept_len(s), s.len() as int));
}

/// What the parser finds in a note with nothing but whitespace behind its
/// section, it finds in the part in front of the section without the
/// whitespace at its end.
proof fn lemma_front_of_note(cfg: ParserView, file: FileView, wanted: Seq<char>)
    requires
        note_of(cfg, file).well_formed(),
        runs_to_end(note_of(cfg, file)),
        takes_update(cfg, note_of(cfg, file), wanted),
    ensures
        ({
            let found = parsed(cfg, encode_utf8(file.content));
            let kept = encode_utf8(trimmed_end(section_front(note_of(cfg, file))));
            &&& same_findings(parsed(cfg, kept), found)
            &&& wanted.len() == 0 ==> parsed(cfg, kept).backlinks_start is None
        }),
{
    broadcast use encode_utf8_valid_utf8;

    let note = note_of(cfg, file);
    let t = encode_utf8(file.content);
    let front = encode_utf8(section_front(note));
    if note.backlinks_end is None {
        match note.backlinks_start {
            Some(start) => {
                lemma_section_front(cfg, t);
                let x = t.subrange(0, start as int);
                valid_utf8_split(t, start as int);
                decode_utf8_encode_utf8(x);
                assert(front == x);
            },
            None => {},
        }
    }
}

/// The bytes of the body as it is saved between other text start and end
/// with a line feed, and each of its lines starts with the mark of a list
/// item.
proof fn lemma_padded_body(body: Seq<char>)
    requires
        bullet_lines(encode_utf8(body)),
    ensures
        ({
            let r = encode_utf8(seq!['\n', '\n'] + body + seq!['\n', '\n']);
            r.len() > 0 && is_newline(r[0]) && is_newline(r[r.len() - 1]) && bullet_lines(r)
        }),
{
    let gap = seq!['\n', '\n'];
    let padded = gap + body;
    lemma_written_body(body, padded.len() as int);
    assert(padded.subrange(0, padded.len() as int) =~= padded);
    let r = encode_utf8(padded);
    lemma_encode_concat(padded, gap);
    assert(is_ascii_chars(gap));
    is_ascii_chars_encode_utf8(gap);
    let all = encode_utf8(padded + gap);
    assert(all == r + encode_utf8(gap));
    lemma_encode_concat(gap, body);
    assert(r.len() >= 2);
    assert(all[0] == r[0]);
    assert(all[all.len() - 1] == encode_utf8(gap)[1]);
    assert forall|i: int| #[trigger] starts_line(all, i) implies is_bullet(all[i]) by {
        if i < r.len() {
            assert(all[i] == r[i]);
            if i > 0 {
                assert(all[i - 1] == r[i - 1]);
            }
            assert(starts_line(r, i));
        } else {
            assert(all[i] == encode_utf8(gap)[i - r.len()]);
        }
    }
}

/// What is saved when a backlinks section is put between two texts: the
/// first without the whitespace at its end, an empty line, the heading, the
/// body between empty lines, the second without the whitespace at its end,
/// and a line feed.
proof fn lemma_replaced_text(front: Seq<char>, heading: Seq<char>, body: Seq<char>, rest: Seq<char>)
    requires
        trimmed(body) == body,
        body.len() > 0,
        kept_len(rest) > 0,
    ensures
        ({
            let written = trimmed_end(
                trimmed_end(front) + "\n\n"@ + heading + "\n\n"@ + body + "\n\n"@ + rest,
            );
            &&& encode_utf8(saved_text(written)) == encode_utf8(trimmed_end(front)) + seq![
                LINE_FEED,
                LINE_FEED,
            ] + encode_utf8(heading) + encode_utf8(seq!['\n', '\n'] + body + seq!['\n', '\n'])
                + encode_utf8(trimmed_end(rest)) + seq![LINE_FEED]
            &&& trimmed(seq!['\n', '\n'] + body + seq!['\n', '\n']) == body
        }),
{
    lemma_gap_bytes();
    let gap = seq!['\n', '\n'];
    let feed = seq!['\n'];
    let kept = trimmed_end(front);
    let middle = gap + body + gap;
    let a = kept + gap + heading + middle;
    assert(kept + gap + heading + gap + body + gap + rest =~= a + rest);
    lemma_trimmed_end_in_front(a, rest);
    let written = a + trimmed_end(rest);
    lemma_kept_len(rest);
    let tail = trimmed_end(rest);
    assert(tail[tail.len() - 1] == rest[kept_len(rest) - 1]);
    assert(written[written.len() - 1] == tail[tail.len() - 1]);
    lemma_trimmed_end(written, written.len() as int);
    assert(written.subrange(0, written.len() as int) =~= written);
    let saved = saved_text(written);
    assert(saved =~= a + tail + feed);
    lemma_encode_concat(a + tail, feed);
    lemma_encode_concat(a, tail);
    lemma_encode_concat(kept + gap + heading, middle);
    lemma_encode_concat(kept + gap, heading);
    lemma_encode_concat(kept, gap);
    assert(is_ascii_chars(feed));
    is_ascii_chars_encode_utf8(feed);
    assert(encode_utf8(feed) =~= seq![LINE_FEED]);
    assert forall|k: int| 0 <= k < gap.len() implies is_blank(#[trigger] gap[k]) by {}
    lemma_trimmed_text_ends_in_text(body);
    let padded = gap + body;
    assert(padded[padded.len() - 1] == body.last());
    lemma_trimmed_end(padded, padded.len() as int);
    assert(padded.subrange(0, padded.len() as int) =~= padded);
    assert(middle =~= padded + gap);
    lemma_trimmed_of_padded_end(padded, gap);
    lemma_trimmed_of_padded(gap, body);
}

/// The parts of a note with text behind its section, and of what is saved
/// of the note as it is: what is saved is the note up to that text, the
/// text without the whitespace at its end, and a line feed.
proof fn lemma_saved_note(cfg: ParserView, file: FileView)
    requires
        note_of(cfg, file).well_formed(),
        note_of(cfg, file).backlinks_start is Some,
        note_of(cfg, file).backlinks_end is Some,
        note_of(cfg, file).bytes().len() <= usize::MAX,
        !runs_to_end(note_of(cfg, file)),
    ensures
        ({
            let note = note_of(cfg, file);
            let t = encode_utf8(file.content);
            let s = note.backlinks_start->0 as int;
            let e = note.backlinks_end->0 as int;
            let kb = encode_utf8(trimmed_end(section_rest(note)));
            let saved = encode_utf8(saved_text(file.content));
            &&& 0 <= s < e < t.len()
            &&& kept_len(section_rest(note)) > 0
            &&& encode_utf8(section_front(note)) == t.subrange(0, s)
            &&& saved == t.subrange(0, e) + kb + seq![LINE_FEED]
            &&& saved.subrange(0, s) == t.subrange(0, s)
            &&& saved.subrange(e, saved.len() as int) == kb + seq![LINE_FEED]
        }),
{
    broadcast use encode_utf8_valid_utf8, encode_utf8_decode_utf8;

    let note = note_of(cfg, file);
    let t = encode_utf8(file.content);
    let s = note.backlinks_start->0 as int;
    let e = note.backlinks_end->0 as int;
    let front = section_front(note);
    let rest = section_rest(note);
    let kb = encode_utf8(trimmed_end(rest));
    let feed = seq!['\n'];
    let saved = encode_utf8(saved_text(file.content));
    lemma_section_and_rest(cfg, t);
    let x = t.subrange(0, s);
    valid_utf8_split(t, s);
    decode_utf8_encode_utf8(x);
    assert(encode_utf8(front) == x);
    let m = t.subrange(0, e);
    let y = t.subrange(e, t.len() as int);
    valid_utf8_split(t, e);
    decode_utf8_encode_utf8(m);
    decode_utf8_encode_utf8(y);
    assert(encode_utf8(rest) == y);
    let head = decode_utf8(m);
    lemma_encode_concat(head, rest);
    assert(m + y =~= t);
    assert(decode_utf8(encode_utf8(head + rest)) == decode_utf8(encode_utf8(file.content)));
    assert(file.content == head + rest);
    assert(is_ascii_chars(feed));
    is_ascii_chars_encode_utf8(feed);
    assert(encode_utf8(feed) =~= seq![LINE_FEED]);
    lemma_kept_len(rest);
    lemma_trimmed_end_in_front(head, rest);
    assert(saved_text(file.content) =~= head + trimmed_end(rest) + feed);
    lemma_encode_concat(head + trimmed_end(rest), feed);
    lemma_encode_concat(head, trimmed_end(rest));
    assert(saved == m + kb + seq![LINE_FEED]);
    assert(saved.subrange(0, s) =~= x);
    assert(saved.subrange(e, saved.len() as int) =~= kb + seq![LINE_FEED]);
}

/// A backlinks section that is written in place of one that other text
/// follows, and saved, is found again as it was written, and changes
/// nothing else.
proof fn lemma_saved_replacement(cfg: ParserView, file: FileView, wanted: Seq<char>)
    requires
        is_heading_line(cfg),
        note_of(cfg, file).well_formed(),
        note_of(cfg, file).backlinks_start is Some,
        note_of(cfg, file).backlinks_end is Some,
        !runs_to_end(note_of(cfg, file)),
        wanted.len() > 0,
        takes_update(cfg, note_of(cfg, file), wanted),
    ensures
        ({
            let note = note_of(cfg, file);
            let again = note_of(
                cfg,
                FileView { content: saved_text(updated_text(cfg, note, wanted)), ..file },
            );
            &&& again.title == note.title
            &&& again.id == note.id
            &&& again.links == note.links
            &&& body_of(again) == wanted
        }),
{
    broadcast use encode_utf8_valid_utf8, encode_utf8_decode_utf8;

    let note = note_of(cfg, file);
    let heading = cfg.backlinks_heading;
    let front = section_front(note);
    let rest = section_rest(note);
    let p = encode_utf8(trimmed_end(front));
    let kb = encode_utf8(trimmed_end(rest));
    let g = encode_utf8(seq!['\n', '\n'] + wanted + seq!['\n', '\n']);
    let kept = encode_utf8(saved_text(file.content));
    lemma_saved_note(cfg, file);
    // the new contents
    assert(note.with_backlinks(heading, wanted) == trimmed_end(
        trimmed_end(front) + "\n\n"@ + heading + "\n\n"@ + wanted + "\n\n"@ + rest,
    ));
    lemma_replaced_text(front, heading, wanted, rest);
    lemma_padded_body(wanted);
    let feed = seq![LINE_FEED];
    assert forall|k: int| 0 <= k < feed.len() implies is_newline(#[trigger] feed[k]) by {}
    lemma_section_replaced(cfg, kept, p, g, kb, feed);
    let saved = saved_text(note.with_backlinks(heading, wanted));
    let u = encode_utf8(saved);
    let again = note_of(cfg, FileView { content: saved, ..file });
    let h = encode_utf8(heading);
    let stop: int = p.len() as int + 2 + h.len();
    let behind: int = stop + g.len();
    assert(again.backlinks_start == Some((p.len() + 2) as usize));
    assert(again.backlinks_end == Some(behind as usize));
    assert(u.subrange(stop, behind) =~= g);
    assert(byte_slice(saved, stop, again.region_end()) == seq!['\n', '\n'] + wanted + seq![
        '\n',
        '\n',
    ]);
}

/// A backlinks section that is brought up to a body and saved is found
/// again as it was written, and changes nothing that the indexes are made
/// of: the note that is made of the saved contents has the title,
/// identifier and links of the note, and the body that was written.
pub proof fn lemma_saved_update(cfg: ParserView, file: FileView, wanted: Seq<char>)
    requires
        is_heading_line(cfg),
        note_of(cfg, file).well_formed(),
        takes_update(cfg, note_of(cfg, file), wanted),
    ensures
        ({
            let note = note_of(cfg, file);
            let again = note_of(
                cfg,
                FileView { content: saved_text(updated_text(cfg, note, wanted)), ..file },
            );
            &&& again.title == note.title
            &&& again.id == note.id
            &&& again.links == note.links
            &&& body_of(again) == wanted
        }),
{
    let note = note_of(cfg, file);
    let heading = cfg.backlinks_heading;
    let text = section_front(note);
    let p = encode_utf8(trimmed_end(text));
    if !runs_to_end(note) {
        assert(note.backlinks_end is Some);
        assert(note.backlinks_start is Some);
        if wanted.len() > 0 {
            lemma_saved_replacement(cfg, file, wanted);
        } else {
            lemma_saved_removal(cfg, file);
        }
    } else {
        lemma_front_of_note(cfg, file, wanted);
        lemma_text_at_end(note, heading, wanted);
        if wanted.len() > 0 {
            let tail = seq!['\n', '\n'] + wanted + seq!['\n'];
            lemma_saved_text(text, heading, wanted);
            lemma_saved_body(wanted);
            let saved = saved_text(note.with_backlinks(heading, wanted));
            lemma_note_with_section(cfg, FileView { content: saved, ..file }, p, tail);
        } else {
            let feed = seq!['\n'];
            let saved = saved_text(note.without_backlinks());
            assert(saved =~= trimmed_end(text) + feed);
            lemma_encode_concat(trimmed_end(text), feed);
            assert(is_ascii_chars(feed));
            is_ascii_chars_encode_utf8(feed);
            lemma_parse_ignores_final_newlines(cfg, p, encode_utf8(feed));
        }
    }
}

/// A backlinks section that is taken away from in front of other text, and
/// the note saved, is gone, and nothing else that the indexes are made of
/// has changed.
proof fn lemma_saved_removal(cfg: ParserView, file: FileView)
    requires
        note_of(cfg, file).well_formed(),
        note_of(cfg, file).backlinks_start is Some,
        note_of(cfg, file).backlinks_end is Some,
        !runs_to_end(note_of(cfg, file)),
        takes_update(cfg, note_of(cfg, file), Seq::<char>::empty()),
    ensures
        ({
            let note = note_of(cfg, file);
            let again = note_of(
                cfg,
                FileView { content: saved_text(note.without_backlinks()), ..file },
            );
            &&& again.title == note.title
            &&& again.id == note.id
            &&& again.links == note.links
            &&& again.backlinks_body() is None
        }),
{
    broadcast use encode_utf8_valid_utf8, encode_utf8_decode_utf8;

    let note = note_of(cfg, file);
    let front = section_front(note);
    let rest = section_rest(note);
    let kb = encode_utf8(trimmed_end(rest));
    let feed = seq!['\n'];
    let kept = encode_utf8(saved_text(file.content));
    lemma_saved_note(cfg, file);
    lemma_kept_len(rest);
    assert(kb.len() > 0) by {
        let tail = trimmed_end(rest);
        assert(tail.len() > 0);
        assert(tail =~= seq![tail[0]] + tail.drop_first());
        lemma_encode_concat(seq![tail[0]], tail.drop_first());
        assert(encode_utf8(seq![tail[0]]).len() > 0) by {
            reveal_with_fuel(encode_utf8, 2);
        }
    }
    // what is saved
    assert(note.without_backlinks() == front + rest);
    lemma_trimmed_end_in_front(front, rest);
    let saved = saved_text(front + rest);
    assert(saved =~= front + trimmed_end(rest) + feed);
    lemma_encode_concat(front + trimmed_end(rest), feed);
    lemma_encode_concat(front, trimmed_end(rest));
    assert(is_ascii_chars(feed));
    is_ascii_chars_encode_utf8(feed);
    assert(encode_utf8(feed) =~= seq![LINE_FEED]);
    let line_feed = seq![LINE_FEED];
    assert forall|k: int| 0 <= k < line_feed.len() implies is_newline(
        #[trigger] line_feed[k],
    ) by {}
    lemma_section_taken_out(cfg, kept, kb, line_feed);
}

/// Trimming a text at its end a second time changes nothing.
proof fn lemma_trimmed_end_twice(s: Seq<char>)
    ensures
        trimmed_end(trimmed_end(s)) == trimmed_end(s),
        kept_len(trimmed_end(s)) == trimmed_end(s).len(),
{
    lemma_kept_len(s);
    let cut = trimmed_end(s);
    if cut.len() > 0 {
        assert(cut.last() == s[kept_len(s) - 1]);
    }
    lemma_trimmed_end(cut, cut.len() as int);
    assert(cut.subrange(0, cut.len() as int) =~= cut);
}

/// Writing the backlinks section of a note in place a second time changes
/// nothing: where a section is written in place of one that other text
/// follows, and the note that is made of the new contents gets the same
/// section again, the contents stay as they are.
///
/// This holds where the heading is one line; where the section of the note
/// stays where it is when the note is saved as it is, as it does in a note
/// that ends in line breaks; where the parser, having read what stands in
/// front of the section without the whitespace at its end, takes the
/// heading for the heading; where every line of the body starts with the
/// mark of a list item; and where the new contents with a line feed are no
/// longer than a string can be.
pub proof fn lemma_rewriting_in_place_changes_nothing(
    cfg: ParserView,
    file: FileView,
    body: Seq<char>,
)
    requires
        is_heading_line(cfg),
        note_of(cfg, file).well_formed(),
        note_of(cfg, file).bytes().len() <= usize::MAX,
        !runs_to_end(note_of(cfg, file)),
        holds_section(cfg, note_of(cfg, file)),
        takes_heading(
            cfg,
            final_state(cfg, encode_utf8(trimmed_end(section_front(note_of(cfg, file))))),
            encode_utf8(cfg.backlinks_heading),
        ),
        bullet_lines(encode_utf8(body)),
        encode_utf8(note_of(cfg, file).with_backlinks(cfg.backlinks_heading, body)).len()
            < usize::MAX,
    ensures
        ({
            let written = note_of(cfg, file).with_backlinks(cfg.backlinks_heading, body);
            note_of(cfg, FileView { content: written, ..file }).with_backlinks(
                cfg.backlinks_heading,
                body,
            ) == written
        }),
{
    broadcast use encode_utf8_valid_utf8, encode_utf8_decode_utf8;

    let note = note_of(cfg, file);
    let heading = cfg.backlinks_heading;
    let gap = seq!['\n', '\n'];
    let front = section_front(note);
    let rest = section_rest(note);
    let kept = trimmed_end(front);
    let tail = trimmed_end(rest);
    let middle = gap + body + gap;
    let p = encode_utf8(kept);
    let h = encode_utf8(heading);
    let g = encode_utf8(middle);
    let kb = encode_utf8(tail);
    let feed = seq![LINE_FEED];
    assert(note.backlinks_end is Some);
    assert(note.backlinks_start is Some);
    // the first writing
    let before = kept + gap + heading + middle;
    let written = note.with_backlinks(heading, body);
    lemma_gap_bytes();
    assert(kept + "\n\n"@ + heading + "\n\n"@ + body + "\n\n"@ + rest =~= before + rest);
    lemma_kept_len(rest);
    lemma_trimmed_end_in_front(before, rest);
    assert(written == before + tail);
    lemma_encode_concat(before, tail);
    lemma_encode_concat(kept + gap + heading, middle);
    lemma_encode_concat(kept + gap, heading);
    lemma_encode_concat(kept, gap);
    let u = encode_utf8(written);
    assert(u == p + seq![LINE_FEED, LINE_FEED] + h + g + kb);
    // where the parser finds the section in it
    lemma_saved_note(cfg, file);
    lemma_padded_body(body);
    assert forall|k: int| 0 <= k < feed.len() implies is_newline(#[trigger] feed[k]) by {}
    lemma_section_replaced(cfg, encode_utf8(saved_text(file.content)), p, g, kb, feed);
    lemma_parse_ignores_final_newlines(cfg, u, feed);
    let again = note_of(cfg, FileView { content: written, ..file });
    let off: int = p.len() as int + 2;
    let behind: int = off + h.len() + g.len();
    assert(again.backlinks_start == Some(off as usize));
    assert(again.backlinks_end == Some(behind as usize));
    // the second writing
    assert(u.subrange(0, off) =~= encode_utf8(kept + gap));
    assert(section_front(again) == kept + gap);
    assert(u.subrange(behind, u.len() as int) =~= kb);
    assert(section_rest(again) == tail);
    assert forall|k: int| 0 <= k < gap.len() implies is_blank(#[trigger] gap[k]) by {}
    lemma_trimmed_end_of_padded(kept, gap);
    lemma_trimmed_end_twice(front);
    lemma_trimmed_end_twice(rest);
    assert(trimmed_end(kept + gap) == kept);
    assert(kept + "\n\n"@ + heading + "\n\n"@ + body + "\n\n"@ + tail =~= before + tail);
    lemma_trimmed_end_in_front(before, tail);
}

/// Whether two lists of notes agree in what the indexes and the listing are
/// made of: file stems, identifiers, links and titles.
pub open spec fn same_graph(a: Seq<NoteView>, b: Seq<NoteView>) -> bool {
    &&& a.len() == b.len()
    &&& forall|s: int|
        0 <= s < a.len() ==> (#[trigger] a[s]).file.stem == b[s].file.stem && a[s].id == b[s].id
            && a[s].links == b[s].links && a[s].title == b[s].title
}

/// Notes that agree in file stems, identifiers and links have the same
/// indexes.
pub proof fn lemma_same_indexes(a: Seq<NoteView>, b: Seq<NoteView>)
    requires
        same_graph(a, b),
    ensures
        indexed(a) == indexed(b),
    decreases a.len(),
{
    if a.len() > 0 {
        let fa = a.drop_last();
        let fb = b.drop_last();
        assert forall|s: int| 0 <= s < fa.len() implies
            (#[trigger] fa[s]).file.stem == fb[s].file.stem
            && fa[s].id == fb[s].id && fa[s].links == fb[s].links && fa[s].title == fb[s].title by {
            assert(fa[s] == a[s] && fb[s] == b[s]);
        }
        lemma_same_indexes(fa, fb);
        assert(a[a.len() - 1] == a.last());
        assert(b[b.len() - 1] == b.last());
    }
}

/// Notes that agree in titles and file stems go to the same place in the
/// same sorted list.
pub proof fn lemma_same_inserted(
    a: Seq<NoteView>,
    b: Seq<NoteView>,
    sorted: Seq<usize>,
    slot: usize,
)
    requires
        same_graph(a, b),
        slot < a.len(),
        forall|k: int| 0 <= k < sorted.len() ==> (#[trigger] sorted[k]) < a.len(),
    ensures
        inserted(a, sorted, slot) == inserted(b, sorted, slot),
    decreases sorted.len(),
{
    if sorted.len() > 0 {
        let rest = sorted.drop_first();
        assert forall|k: int| 0 <= k < rest.len() implies (#[trigger] rest[k]) < a.len() by {
            assert(rest[k] == sorted[k + 1]);
        }
        lemma_same_inserted(a, b, rest, slot);
        assert(sorted[0] < a.len());
        assert(a[slot as int].title == b[slot as int].title);
        assert(a[sorted[0] as int].title == b[sorted[0] as int].title);
    }
}

/// Notes that agree in titles and file stems are listed in the same order.
pub proof fn lemma_same_order(a: Seq<NoteView>, b: Seq<NoteView>, slots: Seq<usize>)
    requires
        same_graph(a, b),
        forall|k: int| 0 <= k < slots.len() ==> (#[trigger] slots[k]) < a.len(),
    ensures
        sorted_slots(a, slots) == sorted_slots(b, slots),
        forall|k: int|
            0 <= k < sorted_slots(a, slots).len()
                ==> (#[trigger] sorted_slots(a, slots)[k]) < a.len(),
    decreases slots.len(),
{
    broadcast use group_to_multiset_ensures;

    if slots.len() > 0 {
        let front = slots.drop_last();
        assert forall|k: int| 0 <= k < front.len() implies (#[trigger] front[k]) < a.len() by {
            assert(front[k] == slots[k]);
        }
        lemma_same_order(a, b, front);
        assert(slots[slots.len() - 1] == slots.last());
        lemma_same_inserted(a, b, sorted_slots(a, front), slots.last());
    }
    lemma_sorted_slots(a, slots);
    let out = sorted_slots(a, slots);
    assert forall|k: int| 0 <= k < out.len() implies (#[trigger] out[k]) < a.len() by {
        assert(out.to_multiset().contains(out[k]));
        assert(slots.to_multiset().contains(out[k]));
        let j = choose|j: int| 0 <= j < slots.len() && slots[j] == out[k];
        assert(slots[j] < a.len());
    }
}

/// In collections whose notes agree in file stems, identifiers, links and
/// titles, each note should have the same backlinks body.
pub proof fn lemma_same_wanted_body(v: CollectionView, w: CollectionView, slot: usize)
    requires
        same_graph(v.notes, w.notes),
        v.notes.len() <= usize::MAX,
        slot < v.notes.len(),
    ensures
        v.wanted_body(slot) == w.wanted_body(slot),
        v.sorted() == w.sorted(),
        forall|k: int| 0 <= k < v.sorted().len() ==> (#[trigger] v.sorted()[k]) < v.notes.len(),
{
    lemma_same_indexes(v.notes, w.notes);
    lemma_indexed_slots(v.notes);
    let incoming = v.incoming(slot);
    assert(incoming == w.incoming(slot));
    let note = v.notes[slot as int];
    let name = LinkKey::FileName(note.file.stem);
    lemma_position(v.backlinks(), name);
    match note.id {
        Some(id) => {
            lemma_position(v.backlinks(), LinkKey::Id(id));
        },
        None => {},
    }
    assert forall|k: int| 0 <= k < incoming.len() implies
        (#[trigger] incoming[k]) < v.notes.len() by {
        let first = v.referrers(name);
        if k < first.len() {
            assert(incoming[k] == first[k]);
            assert(v.backlinks()[position(v.backlinks(), name)].1[k] < v.notes.len());
        } else {
            let id = note.id->0;
            assert(incoming[k] == v.referrers(LinkKey::Id(id))[k - first.len()]);
            assert(v.backlinks()[position(v.backlinks(), LinkKey::Id(id))].1[k - first.len()]
                < v.notes.len());
        }
    }
    lemma_same_order(v.notes, w.notes, incoming);
    let order = sorted_slots(v.notes, incoming);
    assert(order.map_values(|s: usize| backlink_line(v.notes[s as int])) =~= order.map_values(
        |s: usize| backlink_line(w.notes[s as int]),
    ));
    lemma_listed_slots(v);
    lemma_same_order(v.notes, w.notes, listed(v.index()));
}

/// The notes that a collection lists are notes of the collection.
pub proof fn lemma_listed_slots(v: CollectionView)
    requires
        v.notes.len() <= usize::MAX,
    ensures
        forall|k: int| 0 <= k < listed(v.index()).len()
            ==> (#[trigger] listed(v.index())[k]) < v.notes.len(),
{
    lemma_indexed_slots(v.notes);
    lemma_listed_of(v.index(), v.notes.len() as int);
}

/// The slots that an index lists are among those it names.
pub proof fn lemma_listed_of(index: Seq<(LinkKey, usize)>, count: int)
    requires
        forall|k: int| 0 <= k < index.len() ==> (#[trigger] index[k]).1 < count,
    ensures
        forall|k: int| 0 <= k < listed(index).len() ==> (#[trigger] listed(index)[k]) < count,
    decreases index.len(),
{
    if index.len() > 0 {
        let front = index.drop_last();
        assert forall|k: int| 0 <= k < front.len() implies (#[trigger] front[k]).1 < count by {
            assert(front[k] == index[k]);
        }
        lemma_listed_of(front, count);
        assert(index[index.len() - 1] == index.last());
        let out = listed(index);
        let before = listed(front);
        assert forall|k: int| 0 <= k < out.len() implies (#[trigger] out[k]) < count by {
            if k < before.len() {
                assert(out[k] == before[k]);
            }
        }
    }
}

/// Where every note has the backlinks body that it should have, no note is
/// out of date.
pub proof fn lemma_nothing_outdated(v: CollectionView, slots: Seq<usize>)
    requires
        forall|k: int|
            0 <= k < slots.len() ==> v.current_body(#[trigger] slots[k]) == v.wanted_body(slots[k]),
    ensures
        v.outdated(slots) == Seq::<usize>::empty(),
    decreases slots.len(),
{
    if slots.len() > 0 {
        let front = slots.drop_last();
        assert forall|k: int| 0 <= k < front.len() implies v.current_body(#[trigger] front[k])
            == v.wanted_body(front[k]) by {
            assert(front[k] == slots[k]);
        }
        lemma_nothing_outdated(v, front);
        assert(slots[slots.len() - 1] == slots.last());
    }
}

/// Whether bringing the backlinks sections up to date changes a note: it is
/// listed, and its backlinks body is not the one it should have.
pub open spec fn is_outdated(v: CollectionView, slot: usize) -> bool {
    v.sorted().contains(slot) && v.current_body(slot) != v.wanted_body(slot)
}

/// The collection that is read after one pass has brought the backlinks
/// sections up to date and every note that it changed was saved.
pub open spec fn after_update(v: CollectionView) -> CollectionView {
    CollectionView {
        cfg: v.cfg,
        notes: Seq::new(
            v.notes.len(),
            |s: int|
                if is_outdated(v, s as usize) {
                    note_of(
                        v.cfg,
                        FileView {
                            content: saved_text(v.updated_contents(s as usize)),
                            ..v.notes[s].file
                        },
                    )
                } else {
                    v.notes[s]
                },
        ),
    }
}

/// A second pass finds nothing to do: in a collection in which every note
/// that is out of date takes the section that it should have, the
/// collection that is read after the first pass, when every note that it
/// changed was saved, has no note out of date.
///
/// What it takes for a note to take its section, [`takes_update`] says. A
/// note does not take it where it ends inside front matter or inside a code
/// block that was never closed: there the parser does not see what is
/// written behind. Nor does it where the whitespace that saving cuts from
/// the end of a line changes what the identifier pattern finds in that
/// line: the note then has another identifier after the first pass, and the
/// notes that it links to are out of date again. A note that ends in line
/// breaks keeps what it has ([`lemma_line_breaks_trim_cleanly`],
/// [`lemma_line_breaks_save_cleanly`]).
///
/// This holds where the heading is one line.
pub proof fn lemma_second_pass_finds_nothing(v: CollectionView)
    requires
        v.valid(),
        v.notes.len() <= usize::MAX,
        is_heading_line(v.cfg),
        forall|s: usize|
            s < v.notes.len() && #[trigger] is_outdated(v, s) ==> takes_update(
                v.cfg,
                v.notes[s as int],
                v.wanted_body(s),
            ),
    ensures
        after_update(v).updates() == Seq::<(MetaView, Seq<char>)>::empty(),
{
    let w = after_update(v);
    assert forall|s: int| 0 <= s < v.notes.len() implies (#[trigger] v.notes[s]).file.stem
        == w.notes[s].file.stem && v.notes[s].id == w.notes[s].id && v.notes[s].links
        == w.notes[s].links && v.notes[s].title == w.notes[s].title && (is_outdated(v, s as usize)
        ==> body_of(w.notes[s]) == v.wanted_body(s as usize)) by {
        if is_outdated(v, s as usize) {
            lemma_note_after_update(v, s as usize);
        }
    }
    assert(same_graph(v.notes, w.notes));
    if v.notes.len() > 0 {
        lemma_same_wanted_body(v, w, 0);
    } else {
        lemma_same_indexes(v.notes, w.notes);
    }
    assert(v.sorted() == w.sorted());
    let slots = w.sorted();
    assert forall|k: int| 0 <= k < slots.len() implies w.current_body(#[trigger] slots[k])
        == w.wanted_body(slots[k]) by {
        let s = slots[k];
        assert(v.sorted().contains(s));
        assert(s < v.notes.len());
        lemma_same_wanted_body(v, w, s);
    }
    lemma_nothing_outdated(w, slots);
    assert(w.updates() =~= Seq::<(MetaView, Seq<char>)>::empty());
}

/// What becomes of a note that is out of date when its new contents are
/// saved and read again.
proof fn lemma_note_after_update(v: CollectionView, slot: usize)
    requires
        v.valid(),
        slot < v.notes.len(),
        is_heading_line(v.cfg),
        is_outdated(v, slot),
        takes_update(v.cfg, v.notes[slot as int], v.wanted_body(slot)),
    ensures
        ({
            let note = v.notes[slot as int];
            let again = after_update(v).notes[slot as int];
            &&& again.file.stem == note.file.stem
            &&& again.title == note.title
            &&& again.id == note.id
            &&& again.links == note.links
            &&& body_of(again) == v.wanted_body(slot)
        }),
{
    let note = v.notes[slot as int];
    assert(note == note_of(v.cfg, note.file));
    assert(v.updated_contents(slot) == updated_text(v.cfg, note, v.wanted_body(slot)));
    lemma_saved_update(v.cfg, note.file, v.wanted_body(slot));
}

} // verus!
