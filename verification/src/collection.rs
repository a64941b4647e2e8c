//! The note collection: every note of a directory, the index that resolves a
//! link to a note, and the reverse index from a link to the notes that hold
//! it.
//!
//! Notes live in slots, in the order in which they were read, and the
//! indexes name them by slot. A collection never touches the disk: what is
//! to be written comes back as a list of updates, and a renaming is entered
//! when the file has been renamed.
use crate::link::{LinkKey, WikiLink};
use crate::mdparse::{keys, texts, NoteParser, ParserView};
use crate::note::{
    cleaned, note_of, wikilink_text, FileView, MetaView, Note, NoteFile, NoteMeta, NoteView,
};
use crate::text::{
    bytes_equal, bytes_less, lex_less, lowercase, replace, replaced, str_equal, to_lowercase,
};
use vstd::prelude::*;
use vstd::string::*;
use vstd::utf8::*;

verus! {

/// The two indexes of a collection, and the identifiers that more than one
/// note claimed. Notes are named by their slot: their place in the
/// collection.
pub struct IndexView {
    /// For a link, the note it resolves to. No two entries address the same
    /// note: their links differ by more than case.
    pub index: Seq<(LinkKey, usize)>,
    /// For a link, the notes that hold it, in the order of their slots.
    pub backlinks: Seq<(LinkKey, Seq<usize>)>,
    /// Each pair is a note that took an identifier over and the note that
    /// had it before.
    pub collisions: Seq<(usize, usize)>,
}

/// The place of the first entry whose link addresses the same note as `key`,
/// or the number of entries where there is none.
pub open spec fn position<V>(entries: Seq<(LinkKey, V)>, key: LinkKey) -> int
    decreases entries.len(),
{
    if entries.len() == 0 {
        0
    } else if entries[0].0.folded() == key.folded() {
        0
    } else {
        1 + position(entries.drop_first(), key)
    }
}

/// Whether an entry for the link exists.
pub open spec fn has_key<V>(entries: Seq<(LinkKey, V)>, key: LinkKey) -> bool {
    position(entries, key) < entries.len()
}

/// The index without the entries of one note.
pub open spec fn without_slot(index: Seq<(LinkKey, usize)>, slot: usize) -> Seq<(LinkKey, usize)>
    decreases index.len(),
{
    if index.len() == 0 {
        seq![]
    } else {
        let rest = without_slot(index.drop_last(), slot);
        if index.last().1 == slot {
            rest
        } else {
            rest.push(index.last())
        }
    }
}

/// The index with one more note. A note that had the same file name before
/// leaves the index, since it can no longer be reached by that name; an
/// identifier that another note had goes to the new note, which is recorded
/// as a collision; and the new note is entered under its file name.
pub open spec fn with_note_indexed(
    index: Seq<(LinkKey, usize)>,
    collisions: Seq<(usize, usize)>,
    stem: Seq<char>,
    id: Option<Seq<char>>,
    slot: usize,
) -> (Seq<(LinkKey, usize)>, Seq<(usize, usize)>) {
    let name = LinkKey::FileName(stem);
    let p = position(index, name);
    let cleared = if p < index.len() {
        without_slot(index, index[p].1)
    } else {
        index
    };
    let (with_id, collided) = match id {
        Some(i) => {
            let q = position(cleared, LinkKey::Id(i));
            if q < cleared.len() {
                (cleared.update(q, (cleared[q].0, slot)), collisions.push((slot, cleared[q].1)))
            } else {
                (cleared.push((LinkKey::Id(i), slot)), collisions)
            }
        },
        None => (cleared, collisions),
    };
    (with_id.push((name, slot)), collided)
}

/// The reverse index with one more note that holds the link.
pub open spec fn with_referrer(backlinks: Seq<(LinkKey, Seq<usize>)>, link: LinkKey, slot: usize) -> Seq<
    (LinkKey, Seq<usize>),
> {
    let p = position(backlinks, link);
    if p < backlinks.len() {
        backlinks.update(p, (backlinks[p].0, backlinks[p].1.push(slot)))
    } else {
        backlinks.push((link, seq![slot]))
    }
}

/// The reverse index with one note entered under each of its links.
pub open spec fn with_referrers(backlinks: Seq<(LinkKey, Seq<usize>)>, links: Seq<LinkKey>, slot: usize) -> Seq<
    (LinkKey, Seq<usize>),
>
    decreases links.len(),
{
    if links.len() == 0 {
        backlinks
    } else {
        with_referrer(with_referrers(backlinks, links.drop_last(), slot), links.last(), slot)
    }
}

/// The indexes of a sequence of notes: each note is entered in turn, a later
/// one winning over an earlier one where both claim a name.
pub open spec fn indexed(notes: Seq<NoteView>) -> IndexView
    decreases notes.len(),
{
    if notes.len() == 0 {
        IndexView { index: seq![], backlinks: seq![], collisions: seq![] }
    } else {
        let before = indexed(notes.drop_last());
        let note = notes.last();
        let slot = (notes.len() - 1) as usize;
        let (index, collisions) = with_note_indexed(
            before.index,
            before.collisions,
            note.file.stem,
            note.id,
            slot,
        );
        IndexView { index, backlinks: with_referrers(before.backlinks, note.links, slot), collisions }
    }
}

/// `position` is the least place at which an entry for the link stands.
pub proof fn lemma_position<V>(entries: Seq<(LinkKey, V)>, key: LinkKey)
    ensures
        0 <= position(entries, key) <= entries.len(),
        position(entries, key) < entries.len() ==> entries[position(entries, key)].0.folded()
            == key.folded(),
        forall|k: int|
            0 <= k < position(entries, key) ==> (#[trigger] entries[k]).0.folded() != key.folded(),
    decreases entries.len(),
{
    if entries.len() > 0 && entries[0].0.folded() != key.folded() {
        let rest = entries.drop_first();
        lemma_position(rest, key);
        assert forall|k: int| 0 <= k < position(entries, key) implies
            (#[trigger] entries[k]).0.folded()
            != key.folded() by {
            if k > 0 {
                assert(entries[k] == rest[k - 1]);
            }
        }
    }
}

/// The place of the first entry for a link is the place at which one stands
/// with none before it.
pub proof fn lemma_position_is<V>(entries: Seq<(LinkKey, V)>, key: LinkKey, p: int)
    requires
        0 <= p <= entries.len(),
        p < entries.len() ==> entries[p].0.folded() == key.folded(),
        forall|k: int| 0 <= k < p ==> (#[trigger] entries[k]).0.folded() != key.folded(),
    ensures
        position(entries, key) == p,
{
    lemma_position(entries, key);
}

/// An entry of an index: a link, its text in lower case, by which it is
/// found, and what the index holds for it.
struct Entry<V> {
    key: WikiLink,
    folded: String,
    held: V,
}

/// Whether every entry holds the text of its link in lower case.
spec fn folded_keys<V>(entries: Seq<Entry<V>>) -> bool {
    forall|k: int|
        0 <= k < entries.len() ==> (#[trigger] entries[k]).folded@ == lowercase(
            entries[k].key@.text(),
        )
}

/// The entries of an index as values.
spec fn index_entries(index: Seq<Entry<usize>>) -> Seq<(LinkKey, usize)> {
    index.map_values(|e: Entry<usize>| (e.key@, e.held))
}

/// The entries of a reverse index as values.
spec fn referrer_entries(backlinks: Seq<Entry<Vec<usize>>>) -> Seq<
    (LinkKey, Seq<usize>),
> {
    backlinks.map_values(|e: Entry<Vec<usize>>| (e.key@, e.held@))
}

/// The notes of an arena as values.
pub open spec fn note_views(notes: Seq<Note>) -> Seq<NoteView> {
    notes.map_values(|n: Note| n@)
}

/// The text of a link in lower case.
fn folded_text(key: &WikiLink) -> (r: String)
    ensures
        r@ == lowercase(key@.text()),
{
    to_lowercase(key.text())
}

/// Whether two links address the same note, given their texts in lower
/// case.
fn same_target(a: &WikiLink, a_folded: &str, b: &WikiLink, b_folded: &str) -> (r: bool)
    requires
        a_folded@ == lowercase(a@.text()),
        b_folded@ == lowercase(b@.text()),
    ensures
        r == (a@.folded() == b@.folded()),
{
    a.is_id() == b.is_id() && str_equal(a_folded, b_folded)
}

/// Finds the first entry for a link: the place of the first entry whose
/// link addresses the same note, or the number of entries where there is
/// none.
fn find_entry<V>(entries: &Vec<Entry<V>>, key: &WikiLink, folded: &str) -> (r: usize)
    requires
        folded_keys(entries@),
        folded@ == lowercase(key@.text()),
    ensures
        r <= entries@.len(),
        r < entries@.len() ==> entries@[r as int].key@.folded() == key@.folded(),
        forall|j: int| 0 <= j < r ==> (#[trigger] entries@[j]).key@.folded() != key@.folded(),
{
    let mut k: usize = 0;
    while k < entries.len()
        invariant
            k <= entries@.len(),
            folded_keys(entries@),
            folded@ == lowercase(key@.text()),
            forall|j: int| 0 <= j < k ==> (#[trigger] entries@[j]).key@.folded() != key@.folded(),
        decreases entries.len() - k,
    {
        if same_target(&entries[k].key, entries[k].folded.as_str(), key, folded) {
            return k;
        }
        k += 1;
    }
    k
}

/// Finds the entry of the index that a link resolves to.
fn find_in_index(index: &Vec<Entry<usize>>, key: &WikiLink, folded: &str) -> (r: usize)
    requires
        folded_keys(index@),
        folded@ == lowercase(key@.text()),
    ensures
        r == position(index_entries(index@), key@),
        r <= index@.len(),
{
    let r = find_entry(index, key, folded);
    proof {
        assert forall|j: int| 0 <= j < index@.len() implies (#[trigger] index_entries(
            index@,
        )[j]).0 == index@[j].key@ by {}
        lemma_position_is(index_entries(index@), key@, r as int);
    }
    r
}

/// Finds the entry of the reverse index for a link.
fn find_in_backlinks(backlinks: &Vec<Entry<Vec<usize>>>, key: &WikiLink, folded: &str) -> (r:
    usize)
    requires
        folded_keys(backlinks@),
        folded@ == lowercase(key@.text()),
    ensures
        r == position(referrer_entries(backlinks@), key@),
        r <= backlinks@.len(),
{
    let r = find_entry(backlinks, key, folded);
    proof {
        assert forall|j: int| 0 <= j < backlinks@.len() implies (#[trigger] referrer_entries(
            backlinks@,
        )[j]).0 == backlinks@[j].key@ by {}
        lemma_position_is(referrer_entries(backlinks@), key@, r as int);
    }
    r
}

/// Drops the entries of one note from the index.
fn remove_slot(index: &Vec<Entry<usize>>, slot: usize) -> (r: Vec<Entry<usize>>)
    requires
        folded_keys(index@),
    ensures
        index_entries(r@) == without_slot(index_entries(index@), slot),
        folded_keys(r@),
{
    let mut kept: Vec<Entry<usize>> = Vec::new();
    let mut k: usize = 0;
    assert(index_entries(index@).subrange(0, 0) =~= Seq::<(LinkKey, usize)>::empty());
    assert(index_entries(kept@) =~= Seq::<(LinkKey, usize)>::empty());
    while k < index.len()
        invariant
            k <= index@.len(),
            folded_keys(index@),
            folded_keys(kept@),
            index_entries(kept@) == without_slot(index_entries(index@).subrange(0, k as int), slot),
        decreases index.len() - k,
    {
        proof {
            let upto = index_entries(index@).subrange(0, k + 1);
            assert(upto.drop_last() =~= index_entries(index@).subrange(0, k as int));
            assert(upto.last() == (index@[k as int].key@, index@[k as int].held));
        }
        if index[k].held != slot {
            let ghost before = kept@;
            kept.push(
                Entry {
                    key: index[k].key.clone(),
                    folded: index[k].folded.clone(),
                    held: index[k].held,
                },
            );
            assert(index_entries(kept@) =~= index_entries(before).push(
                (index@[k as int].key@, index@[k as int].held),
            ));
        }
        k += 1;
    }
    assert(index_entries(index@).subrange(0, index@.len() as int) =~= index_entries(index@));
    kept
}

/// Enters a note in the index.
fn index_note(
    index: Vec<Entry<usize>>,
    collisions: &mut Vec<(usize, usize)>,
    note: &Note,
    slot: usize,
) -> (r: Vec<Entry<usize>>)
    requires
        folded_keys(index@),
    ensures
        (index_entries(r@), final(collisions)@) == with_note_indexed(
            index_entries(index@),
            old(collisions)@,
            note@.file.stem,
            note@.id,
            slot,
        ),
        folded_keys(r@),
{
    let name = note.get_filename_link();
    let name_folded = folded_text(&name);
    let p = find_in_index(&index, &name, name_folded.as_str());
    let mut cleared = if p < index.len() {
        assert(index_entries(index@)[p as int].1 == index@[p as int].held);
        remove_slot(&index, index[p].held)
    } else {
        index
    };
    match note.id() {
        Some(id) => {
            let key = WikiLink::Id(id.clone());
            let key_folded = folded_text(&key);
            let q = find_in_index(&cleared, &key, key_folded.as_str());
            let ghost before = cleared@;
            if q < cleared.len() {
                let earlier = cleared[q].held;
                let entry = &mut cleared[q];
                entry.held = slot;
                collisions.push((slot, earlier));
                assert(index_entries(cleared@) =~= index_entries(before).update(
                    q as int,
                    (index_entries(before)[q as int].0, slot),
                ));
            } else {
                cleared.push(Entry { key, folded: key_folded, held: slot });
                assert(index_entries(cleared@) =~= index_entries(before).push((key@, slot)));
            }
        },
        None => {},
    }
    let ghost before = cleared@;
    cleared.push(Entry { key: name, folded: name_folded, held: slot });
    assert(index_entries(cleared@) =~= index_entries(before).push((name@, slot)));
    cleared
}

/// Enters a note in the reverse index under each of its links.
fn add_referrers(backlinks: &mut Vec<Entry<Vec<usize>>>, note: &Note, slot: usize)
    requires
        folded_keys(old(backlinks)@),
    ensures
        referrer_entries(final(backlinks)@) == with_referrers(
            referrer_entries(old(backlinks)@),
            note@.links,
            slot,
        ),
        folded_keys(final(backlinks)@),
{
    let links = note.links();
    let mut k: usize = 0;
    assert(keys(links@).subrange(0, 0) =~= Seq::<LinkKey>::empty());
    while k < links.len()
        invariant
            k <= links@.len(),
            keys(links@) == note@.links,
            folded_keys(backlinks@),
            referrer_entries(backlinks@) == with_referrers(
                referrer_entries(old(backlinks)@),
                keys(links@).subrange(0, k as int),
                slot,
            ),
        decreases links.len() - k,
    {
        let link = &links[k];
        proof {
            let upto = keys(links@).subrange(0, k + 1);
            assert(upto.drop_last() =~= keys(links@).subrange(0, k as int));
            assert(upto.last() == link@);
        }
        let folded = folded_text(link);
        let p = find_in_backlinks(backlinks, link, folded.as_str());
        let ghost before = backlinks@;
        if p < backlinks.len() {
            let entry = &mut backlinks[p];
            entry.held.push(slot);
            assert(referrer_entries(backlinks@) =~= referrer_entries(before).update(
                p as int,
                (
                    referrer_entries(before)[p as int].0,
                    referrer_entries(before)[p as int].1.push(slot),
                ),
            ));
        } else {
            let mut list: Vec<usize> = Vec::new();
            list.push(slot);
            backlinks.push(Entry { key: link.clone(), folded, held: list });
            assert(list@ =~= seq![slot]);
            assert(referrer_entries(backlinks@)
                =~= referrer_entries(before).push((link@, seq![slot])));
        }
        k += 1;
    }
    assert(keys(links@).subrange(0, links@.len() as int) =~= keys(links@));
}

/// Whether one note is listed before another: by title without regard to
/// case, and by file stem where the titles are the same. Texts are ordered
/// as their UTF-8 bytes are.
pub open spec fn sorts_before(a: NoteView, b: NoteView) -> bool {
    let ta = encode_utf8(lowercase(a.title));
    let tb = encode_utf8(lowercase(b.title));
    lex_less(ta, tb) || (ta == tb && lex_less(encode_utf8(a.file.stem), encode_utf8(b.file.stem)))
}

/// The notes of an index: the slots entered under a file name, in the order
/// of the entries.
pub open spec fn listed(index: Seq<(LinkKey, usize)>) -> Seq<usize>
    decreases index.len(),
{
    if index.len() == 0 {
        seq![]
    } else if index.last().0 is FileName {
        listed(index.drop_last()).push(index.last().1)
    } else {
        listed(index.drop_last())
    }
}

/// A sorted list of slots with one more: it goes in front of the first note
/// that it is listed before.
pub open spec fn inserted(notes: Seq<NoteView>, sorted: Seq<usize>, slot: usize) -> Seq<usize>
    decreases sorted.len(),
{
    if sorted.len() == 0 {
        seq![slot]
    } else if sorts_before(notes[slot as int], notes[sorted[0] as int]) {
        seq![slot] + sorted
    } else {
        seq![sorted[0]] + inserted(notes, sorted.drop_first(), slot)
    }
}

/// The slots in the order in which their notes are listed; notes that are
/// alike in title and stem keep their order.
pub open spec fn sorted_slots(notes: Seq<NoteView>, slots: Seq<usize>) -> Seq<usize>
    decreases slots.len(),
{
    if slots.len() == 0 {
        seq![]
    } else {
        inserted(notes, sorted_slots(notes, slots.drop_last()), slots.last())
    }
}

/// The descriptions of a list of notes as values.
pub open spec fn meta_views(metas: Seq<NoteMeta>) -> Seq<MetaView> {
    metas.map_values(|m: NoteMeta| m@)
}

/// The file name that a note should have: its identifier, where it has one,
/// and its title, cleaned.
pub open spec fn canonical_stem(note: NoteView) -> Seq<char> {
    match note.id {
        Some(id) => cleaned(id + " "@ + note.title),
        None => cleaned(note.title),
    }
}

/// Whether the file name of a note differs, by more than case, from the one
/// it should have.
pub open spec fn is_mismatched(note: NoteView) -> bool {
    lowercase(note.file.stem) != lowercase(canonical_stem(note))
}

/// The line that stands for a note in a backlinks section.
pub open spec fn backlink_line(note: NoteView) -> Seq<char> {
    "- "@ + wikilink_text(note.id, note.title, note.file.stem)
}

/// The lines without a line that repeats the one before it.
pub open spec fn deduped(lines: Seq<Seq<char>>) -> Seq<Seq<char>>
    decreases lines.len(),
{
    if lines.len() == 0 {
        seq![]
    } else {
        let before = deduped(lines.drop_last());
        if before.len() > 0 && before.last() == lines.last() {
            before
        } else {
            before.push(lines.last())
        }
    }
}

/// The lines one after the other, with the separator between each two.
pub open spec fn joined(lines: Seq<Seq<char>>, separator: Seq<char>) -> Seq<char>
    decreases lines.len(),
{
    if lines.len() == 0 {
        seq![]
    } else if lines.len() == 1 {
        lines[0]
    } else {
        joined(lines.drop_last(), separator) + separator + lines.last()
    }
}

/// A note and the contents that it is to be saved with.
#[derive(Debug)]
pub struct NoteUpdate {
    pub note: NoteMeta,
    pub contents: String,
}

/// The updates of a list as values.
pub open spec fn update_views(updates: Seq<NoteUpdate>) -> Seq<(MetaView, Seq<char>)> {
    updates.map_values(|u: NoteUpdate| (u.note@, u.contents@))
}

/// How a link to a file name is written.
pub open spec fn link_form(stem: Seq<char>) -> Seq<char> {
    "[["@ + stem + "]]"@
}

/// The note whose contents have every `from` replaced by `to`.
pub open spec fn with_text_replaced(cfg: ParserView, note: NoteView, from: Seq<char>, to: Seq<char>) -> NoteView {
    note_of(cfg, FileView { content: replaced(note.file.content, from, to), ..note.file })
}

/// The notes after `from` has been replaced by `to` in the notes of the
/// given slots, one after the other.
pub open spec fn relinked(
    cfg: ParserView,
    notes: Seq<NoteView>,
    refs: Seq<usize>,
    from: Seq<char>,
    to: Seq<char>,
) -> Seq<NoteView>
    decreases refs.len(),
{
    if refs.len() == 0 {
        notes
    } else {
        let before = relinked(cfg, notes, refs.drop_last(), from, to);
        let r = refs.last() as int;
        if r < before.len() {
            before.update(r, with_text_replaced(cfg, before[r], from, to))
        } else {
            before
        }
    }
}

/// What that replacement writes: each note whose contents it changes, with
/// its new contents.
pub open spec fn relink_updates(
    cfg: ParserView,
    notes: Seq<NoteView>,
    refs: Seq<usize>,
    from: Seq<char>,
    to: Seq<char>,
) -> Seq<(MetaView, Seq<char>)>
    decreases refs.len(),
{
    if refs.len() == 0 {
        seq![]
    } else {
        let before = relinked(cfg, notes, refs.drop_last(), from, to);
        let updates = relink_updates(cfg, notes, refs.drop_last(), from, to);
        let r = refs.last() as int;
        if r < before.len() && replaced(before[r].file.content, from, to) != before[r].file.content {
            updates.push(
                (
                    with_text_replaced(cfg, before[r], from, to).meta(),
                    replaced(before[r].file.content, from, to),
                ),
            )
        } else {
            updates
        }
    }
}

/// Replacing text in some notes leaves as many notes, each made by the
/// parser and well formed.
pub proof fn lemma_relinked_len(
    cfg: ParserView,
    notes: Seq<NoteView>,
    refs: Seq<usize>,
    from: Seq<char>,
    to: Seq<char>,
)
    ensures
        relinked(cfg, notes, refs, from, to).len() == notes.len(),
    decreases refs.len(),
{
    if refs.len() > 0 {
        lemma_relinked_len(cfg, notes, refs.drop_last(), from, to);
    }
}

/// Whether every slot that the indexes name is below `count`.
pub open spec fn slots_below(ix: IndexView, count: int) -> bool {
    &&& forall|k: int| 0 <= k < ix.index.len() ==> (#[trigger] ix.index[k]).1 < count
    &&& forall|k: int, j: int|
        0 <= k < ix.backlinks.len() && 0 <= j < ix.backlinks[k].1.len() ==> (
        #[trigger] ix.backlinks[k].1[j]) < count
    &&& forall|k: int|
        0 <= k < ix.collisions.len() ==> (#[trigger] ix.collisions[k]).0 < count
            && ix.collisions[k].1 < count
}

/// What is left of an index without a note was in it before, and names
/// another note.
pub proof fn lemma_without_slot(index: Seq<(LinkKey, usize)>, slot: usize)
    ensures
        forall|k: int|
            0 <= k < without_slot(index, slot).len() ==> (#[trigger] without_slot(index, slot)[k]).1
                != slot && index.contains(without_slot(index, slot)[k]),
        forall|j: int|
            0 <= j < index.len() && (#[trigger] index[j]).1 != slot ==> without_slot(
                index,
                slot,
            ).contains(index[j]),
    decreases index.len(),
{
    if index.len() > 0 {
        let front = index.drop_last();
        lemma_without_slot(front, slot);
        let rest = without_slot(front, slot);
        let all = without_slot(index, slot);
        assert forall|k: int| 0 <= k < all.len() implies (#[trigger] all[k]).1 != slot
            && index.contains(all[k]) by {
            if k < rest.len() {
                assert(all[k] == rest[k]);
                let j = choose|j: int| 0 <= j < front.len() && front[j] == rest[k];
                assert(index[j] == rest[k]);
            } else {
                assert(all[k] == index.last());
                assert(index[index.len() - 1] == index.last());
            }
        }
        assert forall|j: int| 0 <= j < index.len() && (#[trigger] index[j]).1 != slot implies
            all.contains(
            index[j],
        ) by {
            if j < front.len() {
                assert(front[j] == index[j]);
                let k = choose|k: int| 0 <= k < rest.len() && rest[k] == front[j];
                assert(all[k] == index[j]);
            } else {
                assert(all[all.len() - 1] == index[j]);
            }
        }
    }
}

/// Entering a note under its links names no slot but its own.
pub proof fn lemma_with_referrers_slots(
    backlinks: Seq<(LinkKey, Seq<usize>)>,
    links: Seq<LinkKey>,
    slot: usize,
    count: int,
)
    requires
        slot < count,
        forall|k: int, j: int|
            0 <= k < backlinks.len() && 0 <= j < backlinks[k].1.len()
                ==> (#[trigger] backlinks[k].1[j])
                < count,
    ensures
        forall|k: int, j: int|
            0 <= k < with_referrers(backlinks, links, slot).len() && 0 <= j < with_referrers(
                backlinks,
                links,
                slot,
            )[k].1.len() ==> (#[trigger] with_referrers(backlinks, links, slot)[k].1[j]) < count,
    decreases links.len(),
{
    if links.len() > 0 {
        lemma_with_referrers_slots(backlinks, links.drop_last(), slot, count);
        lemma_position(with_referrers(backlinks, links.drop_last(), slot), links.last());
    }
}

/// The indexes of a sequence of notes name only slots of that sequence.
pub proof fn lemma_indexed_slots(notes: Seq<NoteView>)
    requires
        notes.len() <= usize::MAX,
    ensures
        slots_below(indexed(notes), notes.len() as int),
    decreases notes.len(),
{
    if notes.len() > 0 {
        let before = indexed(notes.drop_last());
        lemma_indexed_slots(notes.drop_last());
        let note = notes.last();
        let slot = (notes.len() - 1) as usize;
        let count = notes.len() as int;
        lemma_with_referrers_slots(before.backlinks, note.links, slot, count);
        let name = LinkKey::FileName(note.file.stem);
        let p = position(before.index, name);
        lemma_position(before.index, name);
        let cleared = if p < before.index.len() {
            without_slot(before.index, before.index[p].1)
        } else {
            before.index
        };
        if p < before.index.len() {
            lemma_without_slot(before.index, before.index[p].1);
        }
        assert forall|k: int| 0 <= k < cleared.len() implies
            (#[trigger] cleared[k]).1 < count - 1 by {
            if p < before.index.len() {
                let j = choose|j: int| 0 <= j < before.index.len() && before.index[j] == cleared[k];
                assert(before.index[j].1 < count - 1);
            }
        }
        match note.id {
            Some(i) => {
                lemma_position(cleared, LinkKey::Id(i));
            },
            None => {},
        }
    }
}

/// Where a slot goes in a sorted list: in front of the first note that it
/// is listed before.
pub proof fn lemma_inserted_at(notes: Seq<NoteView>, sorted: Seq<usize>, slot: usize, p: int)
    requires
        0 <= p <= sorted.len(),
        forall|j: int|
            0 <= j < p ==> !sorts_before(notes[slot as int], notes[(#[trigger] sorted[j]) as int]),
        p < sorted.len() ==> sorts_before(notes[slot as int], notes[sorted[p] as int]),
    ensures
        inserted(notes, sorted, slot) == sorted.insert(p, slot),
    decreases sorted.len(),
{
    if sorted.len() == 0 {
        assert(sorted.insert(0, slot) =~= seq![slot]);
    } else if p == 0 {
        assert(sorted.insert(0, slot) =~= seq![slot] + sorted);
    } else {
        let rest = sorted.drop_first();
        assert forall|j: int| 0 <= j < p - 1 implies !sorts_before(
            notes[slot as int],
            notes[(#[trigger] rest[j]) as int],
        ) by {
            assert(rest[j] == sorted[j + 1]);
        }
        lemma_inserted_at(notes, rest, slot, p - 1);
        assert(sorted.insert(p, slot) =~= seq![sorted[0]] + rest.insert(p - 1, slot));
    }
}

/// The pairs of a description and a list of texts as values.
pub open spec fn task_views(found: Seq<(NoteMeta, Vec<String>)>) -> Seq<(MetaView, Seq<Seq<char>>)> {
    found.map_values(|e: (NoteMeta, Vec<String>)| (e.0@, texts(e.1@)))
}

/// The pairs of a description and a text as values.
pub open spec fn rename_views(found: Seq<(NoteMeta, String)>) -> Seq<(MetaView, Seq<char>)> {
    found.map_values(|e: (NoteMeta, String)| (e.0@, e.1@))
}

/// The pairs of a link and a list of descriptions as values.
pub open spec fn broken_views(found: Seq<(WikiLink, Vec<NoteMeta>)>) -> Seq<(LinkKey, Seq<MetaView>)> {
    found.map_values(|e: (WikiLink, Vec<NoteMeta>)| (e.0@, meta_views(e.1@)))
}

/// A collection as a value: the configuration of its parser and its notes,
/// each in its slot. The indexes are a function of the notes.
pub struct CollectionView {
    pub cfg: ParserView,
    pub notes: Seq<NoteView>,
}

/// The values of a list of files.
pub open spec fn file_views(files: Seq<NoteFile>) -> Seq<FileView> {
    files.map_values(|f: NoteFile| f@)
}

/// The notes that a parser makes of a list of files.
pub open spec fn notes_of(cfg: ParserView, files: Seq<FileView>) -> Seq<NoteView> {
    files.map_values(|f: FileView| note_of(cfg, f))
}

impl CollectionView {
    /// Every note is what the parser of the collection makes of its file,
    /// and is well formed.
    pub open spec fn valid(self) -> bool {
        forall|k: int|
            0 <= k < self.notes.len() ==> (#[trigger] self.notes[k]) == note_of(
                self.cfg,
                self.notes[k].file,
            ) && self.notes[k].well_formed()
    }

    /// The index from links to notes.
    pub open spec fn index(self) -> Seq<(LinkKey, usize)> {
        indexed(self.notes).index
    }

    /// The index from links to the notes that hold them.
    pub open spec fn backlinks(self) -> Seq<(LinkKey, Seq<usize>)> {
        indexed(self.notes).backlinks
    }

    /// The slot of the note that a link resolves to.
    pub open spec fn resolve(self, key: LinkKey) -> Option<usize> {
        if has_key(self.index(), key) {
            Some(self.index()[position(self.index(), key)].1)
        } else {
            None
        }
    }

    /// The slots of the notes that hold a link.
    pub open spec fn referrers(self, key: LinkKey) -> Seq<usize> {
        if has_key(self.backlinks(), key) {
            self.backlinks()[position(self.backlinks(), key)].1
        } else {
            seq![]
        }
    }

    /// The slots of the notes of the collection, in the order in which they
    /// are listed.
    pub open spec fn sorted(self) -> Seq<usize> {
        sorted_slots(self.notes, listed(self.index()))
    }

    /// Whether a note links to any other.
    pub open spec fn has_outgoing(self, slot: usize) -> bool {
        self.notes[slot as int].links.len() > 0
    }

    /// Whether a note that was read from this path links to any other.
    pub open spec fn links_from(self, path: Seq<char>) -> bool {
        exists|slot: int|
            0 <= slot < self.notes.len() && (#[trigger] self.notes[slot]).file.path == path
                && self.notes[slot].links.len() > 0
    }

    /// Whether any note holds a link to this one, by file name or by
    /// identifier.
    pub open spec fn has_incoming(self, slot: usize) -> bool {
        let note = self.notes[slot as int];
        has_key(self.backlinks(), LinkKey::FileName(note.file.stem)) || (note.id matches Some(id)
            && has_key(self.backlinks(), LinkKey::Id(id)))
    }

    /// The slots of the notes that hold a link to this one: those that link
    /// to its file name, then those that link to its identifier.
    pub open spec fn incoming(self, slot: usize) -> Seq<usize> {
        let note = self.notes[slot as int];
        self.referrers(LinkKey::FileName(note.file.stem)) + (match note.id {
            Some(id) => self.referrers(LinkKey::Id(id)),
            None => seq![],
        })
    }

    /// A source links to other notes, and none links to it.
    pub open spec fn is_source(self, slot: usize) -> bool {
        self.has_outgoing(slot) && !self.has_incoming(slot)
    }

    /// A sink links to no note, and others link to it.
    pub open spec fn is_sink(self, slot: usize) -> bool {
        !self.has_outgoing(slot) && self.has_incoming(slot)
    }

    /// An isolated note links to no note, and none links to it.
    pub open spec fn is_isolated(self, slot: usize) -> bool {
        !self.has_outgoing(slot) && !self.has_incoming(slot)
    }

    /// Those of the slots whose notes have, or have not, outgoing and
    /// incoming links as asked, in order.
    pub open spec fn selection(self, slots: Seq<usize>, outgoing: bool, incoming: bool) -> Seq<usize>
        decreases slots.len(),
    {
        if slots.len() == 0 {
            seq![]
        } else {
            let before = self.selection(slots.drop_last(), outgoing, incoming);
            if self.has_outgoing(slots.last()) == outgoing && self.has_incoming(slots.last())
                == incoming {
                before.push(slots.last())
            } else {
                before
            }
        }
    }

    /// The descriptions of the notes in the given slots.
    pub open spec fn metas_of(self, slots: Seq<usize>) -> Seq<MetaView> {
        slots.map_values(|s: usize| self.notes[s as int].meta())
    }

    /// How many of the notes in the given slots have an identifier.
    pub open spec fn with_id(self, slots: Seq<usize>) -> nat
        decreases slots.len(),
    {
        if slots.len() == 0 {
            0
        } else if self.notes[slots.last() as int].id is Some {
            self.with_id(slots.drop_last()) + 1
        } else {
            self.with_id(slots.drop_last())
        }
    }

    /// Those of the slots whose notes have open tasks, in order.
    pub open spec fn tasked(self, slots: Seq<usize>) -> Seq<usize>
        decreases slots.len(),
    {
        if slots.len() == 0 {
            seq![]
        } else if self.notes[slots.last() as int].tasks.len() > 0 {
            self.tasked(slots.drop_last()).push(slots.last())
        } else {
            self.tasked(slots.drop_last())
        }
    }

    /// Those of the slots whose notes have another file name than they
    /// should, in order.
    pub open spec fn mismatched(self, slots: Seq<usize>) -> Seq<usize>
        decreases slots.len(),
    {
        if slots.len() == 0 {
            seq![]
        } else if is_mismatched(self.notes[slots.last() as int]) {
            self.mismatched(slots.drop_last()).push(slots.last())
        } else {
            self.mismatched(slots.drop_last())
        }
    }

    /// The lines of the backlinks section that a note should have: one for
    /// each note that links to it, in the order in which notes are listed,
    /// none twice in a row.
    pub open spec fn backlink_lines(self, slot: usize) -> Seq<Seq<char>> {
        deduped(
            sorted_slots(self.notes, self.incoming(slot)).map_values(
                |s: usize| backlink_line(self.notes[s as int]),
            ),
        )
    }

    /// The body of the backlinks section that a note should have.
    pub open spec fn wanted_body(self, slot: usize) -> Seq<char> {
        joined(self.backlink_lines(slot), "\n"@)
    }

    /// The body of the backlinks section that a note has; empty where it
    /// has no such section.
    pub open spec fn current_body(self, slot: usize) -> Seq<char> {
        match self.notes[slot as int].backlinks_body() {
            Some(body) => body,
            None => seq![],
        }
    }

    /// The contents that bring the backlinks section of a note up to date:
    /// with the section added or replaced, or without it where no note links
    /// to this one.
    pub open spec fn updated_contents(self, slot: usize) -> Seq<char> {
        if self.wanted_body(slot).len() > 0 {
            self.notes[slot as int].with_backlinks(self.cfg.backlinks_heading, self.wanted_body(slot))
        } else {
            self.notes[slot as int].without_backlinks()
        }
    }

    /// Those of the slots whose notes have another backlinks body than they
    /// should, in order.
    pub open spec fn outdated(self, slots: Seq<usize>) -> Seq<usize>
        decreases slots.len(),
    {
        if slots.len() == 0 {
            seq![]
        } else if self.current_body(slots.last()) != self.wanted_body(slots.last()) {
            self.outdated(slots.drop_last()).push(slots.last())
        } else {
            self.outdated(slots.drop_last())
        }
    }

    /// What bringing all backlinks sections up to date writes: for each
    /// note whose section is out of date, in the order in which notes are
    /// listed, its new contents.
    pub open spec fn updates(self) -> Seq<(MetaView, Seq<char>)> {
        self.outdated(self.sorted()).map_values(
            |s: usize| (self.notes[s as int].meta(), self.updated_contents(s)),
        )
    }

    /// Those of the slots whose notes have a backlinks section, in order.
    pub open spec fn sectioned(self, slots: Seq<usize>) -> Seq<usize>
        decreases slots.len(),
    {
        if slots.len() == 0 {
            seq![]
        } else if self.notes[slots.last() as int].backlinks_start is Some {
            self.sectioned(slots.drop_last()).push(slots.last())
        } else {
            self.sectioned(slots.drop_last())
        }
    }

    /// What removing all backlinks sections writes: for each note that has
    /// one, in the order in which notes are listed, its contents without it.
    pub open spec fn removals(self) -> Seq<(MetaView, Seq<char>)> {
        self.sectioned(self.sorted()).map_values(
            |s: usize| (self.notes[s as int].meta(), self.notes[s as int].without_backlinks()),
        )
    }

    /// The notes after the note in `slot` got a new path and stem, and the
    /// notes that link to its old file name got the link rewritten.
    pub open spec fn renamed(self, slot: usize, new_path: Seq<char>, new_stem: Seq<char>) -> Seq<NoteView> {
        let old_stem = self.notes[slot as int].file.stem;
        let linked = relinked(
            self.cfg,
            self.notes,
            self.referrers(LinkKey::FileName(old_stem)),
            link_form(old_stem),
            link_form(new_stem),
        );
        linked.update(
            slot as int,
            note_of(self.cfg, FileView { path: new_path, stem: new_stem, ..linked[slot as int].file }),
        )
    }

    /// What the renaming of the note in `slot` writes to the notes that link
    /// to its old file name.
    pub open spec fn rename_updates(self, slot: usize, new_stem: Seq<char>) -> Seq<(MetaView, Seq<char>)> {
        let old_stem = self.notes[slot as int].file.stem;
        relink_updates(
            self.cfg,
            self.notes,
            self.referrers(LinkKey::FileName(old_stem)),
            link_form(old_stem),
            link_form(new_stem),
        )
    }

    /// The notes with open tasks, each with its tasks, in the order in which
    /// notes are listed.
    pub open spec fn tasks(self) -> Seq<(MetaView, Seq<Seq<char>>)> {
        self.tasked(self.sorted()).map_values(
            |s: usize| (self.notes[s as int].meta(), self.notes[s as int].tasks),
        )
    }

    /// The notes whose file name is not the one they should have, each with
    /// that name, in the order in which notes are listed.
    pub open spec fn renames(self) -> Seq<(MetaView, Seq<char>)> {
        self.mismatched(self.sorted()).map_values(
            |s: usize| (self.notes[s as int].meta(), canonical_stem(self.notes[s as int])),
        )
    }

    /// The links that resolve to no note, each with the notes that hold it,
    /// in the order in which the links were first met.
    pub open spec fn broken_links(self) -> Seq<(LinkKey, Seq<MetaView>)> {
        self.broken(self.backlinks().len() as int).map_values(
            |p: int| (self.backlinks()[p].0, self.metas_of(self.backlinks()[p].1)),
        )
    }

    /// The places in the reverse index of the links that resolve to no
    /// note, in order.
    pub open spec fn broken(self, upto: int) -> Seq<int>
        decreases upto,
    {
        if upto <= 0 {
            seq![]
        } else if has_key(self.index(), self.backlinks()[upto - 1].0) {
            self.broken(upto - 1)
        } else {
            self.broken(upto - 1).push(upto - 1)
        }
    }
}

/// The notes of a directory with their indexes.
pub struct NoteCollection {
    parser: NoteParser,
    arena: Vec<Note>,
    /// Lookup for IDs and file names to all notes
    index: Vec<Entry<usize>>,
    /// Lookup for links, with the target as key
    backlinks: Vec<Entry<Vec<usize>>>,
    collisions: Vec<(usize, usize)>,
}

impl View for NoteCollection {
    type V = CollectionView;

    closed spec fn view(&self) -> CollectionView {
        CollectionView { cfg: self.parser@, notes: note_views(self.arena@) }
    }
}

impl NoteCollection {
    /// The notes are those of the parser, and the indexes are those of the
    /// notes.
    #[verifier::type_invariant]
    pub closed spec fn wf(&self) -> bool {
        &&& self@.valid()
        &&& folded_keys(self.index@)
        &&& folded_keys(self.backlinks@)
        &&& index_entries(self.index@) == indexed(self@.notes).index
        &&& referrer_entries(self.backlinks@) == indexed(self@.notes).backlinks
        &&& self.collisions@ == indexed(self@.notes).collisions
    }

    /// Builds the collection of the given files: each becomes a note, and
    /// the notes are indexed in the order given.
    pub fn collect_files(files: Vec<NoteFile>, parser: NoteParser) -> (r: NoteCollection)
        ensures
            r@.cfg == parser@,
            r@.notes == notes_of(parser@, file_views(files@)),
            r@.valid(),
    {
        let mut arena: Vec<Note> = Vec::new();
        let ghost all = file_views(files@);
        proof {
            assert(note_views(arena@) =~= notes_of(parser@, all.subrange(0, 0)));
        }
        for file in it: files
            invariant
                all == file_views(it.seq()),
                note_views(arena@) == notes_of(parser@, all.subrange(0, it.index() as int)),
                arena@.len() == it.index(),
                forall|k: int| 0 <= k < arena@.len() ==> (#[trigger] arena@[k])@.well_formed(),
        {
            let ghost before = arena@;
            let note = Note::new(file, &parser);
            arena.push(note);
            proof {
                assert(note_views(arena@) =~= note_views(before).push(note@));
                assert(all.subrange(0, it.index() + 1) =~= all.subrange(0, it.index() as int).push(
                    all[it.index() as int],
                ));
                assert(note_views(arena@) =~= notes_of(parser@, all.subrange(0, it.index() + 1)));
            }
        }
        proof {
            assert(all.subrange(0, all.len() as int) =~= all);
        }
        let (index, backlinks, collisions) = build_index(&arena);
        NoteCollection { parser, arena, index, backlinks, collisions }
    }

    /// Renames a note of the collection: the note that `note` describes gets
    /// the new path and stem, every note that links to its old file name
    /// gets the link rewritten, and the indexes follow. Returns the
    /// collection as it is then, and what is to be written to the notes
    /// whose contents changed; or the collection unchanged and `None` where
    /// it has no note of that file name.
    pub fn rename_note(self, note: &NoteMeta, new_path: &str, new_stem: &str) -> (r: (
        NoteCollection,
        Option<Vec<NoteUpdate>>,
    ))
        ensures
            r.0@.cfg == self@.cfg,
            r.0@.valid(),
            match self@.resolve(LinkKey::FileName(note@.stem)) {
                Some(slot) => {
                    &&& slot < self@.notes.len()
                    &&& r.0@.notes == self@.renamed(slot, new_path@, new_stem@)
                    &&& r.1 matches Some(updates) && update_views(updates@) == self@.rename_updates(
                        slot,
                        new_stem@,
                    )
                },
                None => r.1 is None && r.0@ == self@,
            },
    {
        self.recall_slots();
        proof {
            use_type_invariant(&self);
        }
        let name = WikiLink::FileName(note.stem.clone());
        let name_folded = folded_text(&name);
        let p = find_in_index(&self.index, &name, name_folded.as_str());
        if p >= self.index.len() {
            return (self, None);
        }
        assert(index_entries(self.index@)[p as int].1 == self.index@[p as int].held);
        let slot = self.index[p].held;
        let own = WikiLink::FileName(self.arena[slot].file().stem.clone());
        let own_folded = folded_text(&own);
        let q = find_in_backlinks(&self.backlinks, &own, own_folded.as_str());
        let mut refs: Vec<usize> = Vec::new();
        if q < self.backlinks.len() {
            assert(referrer_entries(self.backlinks@)[q as int].1 == self.backlinks@[q as int].held@);
            refs.extend_from_slice(self.backlinks[q].held.as_slice());
        }
        assert(refs@ =~= self@.referrers(own@));
        let mut old_link = String::new();
        old_link.append("[[");
        old_link.append(self.arena[slot].file().stem.as_str());
        old_link.append("]]");
        let mut new_link = String::new();
        new_link.append("[[");
        new_link.append(new_stem);
        new_link.append("]]");
        proof {
            assert(old_link@ =~= link_form(self@.notes[slot as int].file.stem));
            assert(new_link@ =~= link_form(new_stem@));
        }
        let ghost before = self@;
        let NoteCollection { parser, arena, index: _, backlinks: _, collisions: _ } = self;
        let mut arena = arena;
        let updates = apply_rename(
            &parser,
            &mut arena,
            slot,
            &refs,
            old_link.as_str(),
            new_link.as_str(),
            new_path,
            new_stem,
        );
        let (index, backlinks, collisions) = build_index(&arena);
        (NoteCollection { parser, arena, index, backlinks, collisions }, Some(updates))
    }

    /// The identifiers that more than one note claimed: for each, the note
    /// that has it now and the note that had it before.
    pub fn id_collisions(&self) -> (r: Vec<(NoteMeta, NoteMeta)>)
        ensures
            r@.len() == indexed(self@.notes).collisions.len(),
            forall|k: int|
                0 <= k < r@.len() ==> (#[trigger] r@[k]).0@ == self@.notes[indexed(
                    self@.notes,
                ).collisions[k].0 as int].meta() && r@[k].1@ == self@.notes[indexed(
                    self@.notes,
                ).collisions[k].1 as int].meta(),
    {
        self.recall_slots();
        proof {
            use_type_invariant(self);
        }
        let mut out: Vec<(NoteMeta, NoteMeta)> = Vec::new();
        let mut k: usize = 0;
        while k < self.collisions.len()
            invariant
                k <= self.collisions@.len(),
                self@.notes == note_views(self.arena@),
                self.collisions@ == indexed(self@.notes).collisions,
                slots_below(indexed(self@.notes), self@.notes.len() as int),
                out@.len() == k,
                forall|j: int|
                    0 <= j < k ==> (#[trigger] out@[j]).0@
                        == self@.notes[self.collisions@[j].0 as int].meta()
                        && out@[j].1@ == self@.notes[self.collisions@[j].1 as int].meta(),
            decreases self.collisions.len() - k,
        {
            let (later, earlier) = self.collisions[k];
            assert(indexed(self@.notes).collisions[k as int].0 < self@.notes.len());
            out.push((self.arena[later].get_meta(), self.arena[earlier].get_meta()));
            k += 1;
        }
        out
    }

    /// The parser that the notes were made with.
    pub fn parser(&self) -> (r: &NoteParser)
        ensures
            r@ == self@.cfg,
    {
        &self.parser
    }

    /// The number of slots: every note that was read has one, listed or
    /// not.
    pub fn slot_count(&self) -> (r: usize)
        ensures
            r == self@.notes.len(),
    {
        self.arena.len()
    }

    /// The note in a slot.
    pub fn note(&self, slot: usize) -> (r: Option<&Note>)
        ensures
            r is Some <==> slot < self@.notes.len(),
            r matches Some(n) ==> n@ == self@.notes[slot as int],
    {
        if slot < self.arena.len() {
            Some(&self.arena[slot])
        } else {
            None
        }
    }

    /// Recalls that the indexes name slots of this collection only.
    fn recall_slots(&self)
        ensures
            slots_below(indexed(self@.notes), self@.notes.len() as int),
            self@.notes == note_views(self.arena@),
            folded_keys(self.index@),
            folded_keys(self.backlinks@),
            index_entries(self.index@) == self@.index(),
            referrer_entries(self.backlinks@) == self@.backlinks(),
    {
        let count = self.arena.len();
        proof {
            use_type_invariant(self);
            assert(self@.notes.len() == count);
            lemma_indexed_slots(self@.notes);
        }
    }

    /// Where a note goes in a sorted list of slots.
    fn insert_position(&self, sorted: &Vec<usize>, slot: usize) -> (p: usize)
        requires
            slot < self@.notes.len(),
            forall|j: int| 0 <= j < sorted@.len() ==> (#[trigger] sorted@[j]) < self@.notes.len(),
        ensures
            p <= sorted@.len(),
            inserted(self@.notes, sorted@, slot) == sorted@.insert(p as int, slot),
    {
        let ghost notes = self@.notes;
        let mut p: usize = 0;
        while p < sorted.len() && !note_before(&self.arena[slot], &self.arena[sorted[p]])
            invariant
                p <= sorted@.len(),
                slot < self.arena@.len(),
                notes == note_views(self.arena@),
                forall|j: int| 0 <= j < sorted@.len() ==> (#[trigger] sorted@[j]) < notes.len(),
                forall|j: int|
                    0 <= j < p ==> !sorts_before(notes[slot as int], notes[(#[trigger] sorted@[j]) as int]),
            decreases sorted.len() - p,
        {
            p += 1;
        }
        proof {
            lemma_inserted_at(notes, sorted@, slot, p as int);
        }
        p
    }

    /// The slots in the order in which their notes are listed.
    fn sort_slots(&self, slots: &Vec<usize>) -> (r: Vec<usize>)
        requires
            forall|j: int| 0 <= j < slots@.len() ==> (#[trigger] slots@[j]) < self@.notes.len(),
        ensures
            r@ == sorted_slots(self@.notes, slots@),
            forall|k: int| 0 <= k < r@.len() ==> (#[trigger] r@[k]) < self@.notes.len(),
    {
        let ghost notes = self@.notes;
        let mut out: Vec<usize> = Vec::new();
        let mut k: usize = 0;
        assert(slots@.subrange(0, 0) =~= Seq::<usize>::empty());
        while k < slots.len()
            invariant
                k <= slots@.len(),
                notes == self@.notes,
                forall|j: int| 0 <= j < slots@.len() ==> (#[trigger] slots@[j]) < notes.len(),
                out@ == sorted_slots(notes, slots@.subrange(0, k as int)),
                forall|j: int| 0 <= j < out@.len() ==> (#[trigger] out@[j]) < notes.len(),
            decreases slots.len() - k,
        {
            let slot = slots[k];
            proof {
                let upto = slots@.subrange(0, k + 1);
                assert(upto.drop_last() =~= slots@.subrange(0, k as int));
                assert(upto.last() == slot);
            }
            let p = self.insert_position(&out, slot);
            out.insert(p, slot);
            k += 1;
        }
        assert(slots@.subrange(0, slots@.len() as int) =~= slots@);
        out
    }

    /// The slots of the notes of the collection, in the order of the index.
    fn listed_slots(&self) -> (r: Vec<usize>)
        ensures
            r@ == listed(self@.index()),
            forall|k: int| 0 <= k < r@.len() ==> (#[trigger] r@[k]) < self@.notes.len(),
    {
        self.recall_slots();
        let ghost entries = index_entries(self.index@);
        let mut out: Vec<usize> = Vec::new();
        let mut k: usize = 0;
        assert(entries.subrange(0, 0) =~= Seq::<(LinkKey, usize)>::empty());
        while k < self.index.len()
            invariant
                k <= self.index@.len(),
                entries == index_entries(self.index@),
                forall|j: int| 0 <= j < entries.len()
                    ==> (#[trigger] entries[j]).1 < self@.notes.len(),
                out@ == listed(entries.subrange(0, k as int)),
                forall|j: int| 0 <= j < out@.len() ==> (#[trigger] out@[j]) < self@.notes.len(),
            decreases self.index.len() - k,
        {
            proof {
                let upto = entries.subrange(0, k + 1);
                assert(upto.drop_last() =~= entries.subrange(0, k as int));
                assert(upto.last() == entries[k as int]);
                assert(entries[k as int] == (self.index@[k as int].key@, self.index@[k as int].held));
            }
            if !self.index[k].key.is_id() {
                out.push(self.index[k].held);
            }
            k += 1;
        }
        assert(entries.subrange(0, entries.len() as int) =~= entries);
        out
    }

    /// Get vector of notes, sorted by title
    pub fn get_sorted_notes(&self) -> (r: Vec<usize>)
        ensures
            r@ == self@.sorted(),
            forall|k: int| 0 <= k < r@.len() ==> (#[trigger] r@[k]) < self@.notes.len(),
    {
        let slots = self.listed_slots();
        self.sort_slots(&slots)
    }

    /// The number of notes in the collection.
    pub fn count(&self) -> (r: usize)
        ensures
            r == listed(self@.index()).len(),
    {
        self.listed_slots().len()
    }

    /// The number of notes that have an identifier.
    pub fn count_with_id(&self) -> (r: usize)
        ensures
            r == self@.with_id(self@.sorted()),
    {
        let sorted = self.get_sorted_notes();
        let mut n: usize = 0;
        let mut k: usize = 0;
        assert(sorted@.subrange(0, 0) =~= Seq::<usize>::empty());
        while k < sorted.len()
            invariant
                k <= sorted@.len(),
                forall|j: int| 0 <= j < sorted@.len()
                    ==> (#[trigger] sorted@[j]) < self@.notes.len(),
                self@.notes == note_views(self.arena@),
                n == self@.with_id(sorted@.subrange(0, k as int)),
                n <= k,
            decreases sorted.len() - k,
        {
            proof {
                let upto = sorted@.subrange(0, k + 1);
                assert(upto.drop_last() =~= sorted@.subrange(0, k as int));
                assert(upto.last() == sorted@[k as int]);
            }
            if self.arena[sorted[k]].id().is_some() {
                n += 1;
            }
            k += 1;
        }
        assert(sorted@.subrange(0, sorted@.len() as int) =~= sorted@);
        n
    }

    /// The descriptions of all notes, in the order in which they are listed.
    pub fn into_meta_vec(&self) -> (r: Vec<NoteMeta>)
        ensures
            meta_views(r@) == self@.metas_of(self@.sorted()),
    {
        let sorted = self.get_sorted_notes();
        self.metas(&sorted)
    }

    /// The descriptions of the notes in the given slots.
    fn metas(&self, slots: &Vec<usize>) -> (r: Vec<NoteMeta>)
        requires
            forall|j: int| 0 <= j < slots@.len() ==> (#[trigger] slots@[j]) < self@.notes.len(),
        ensures
            meta_views(r@) == self@.metas_of(slots@),
    {
        let mut out: Vec<NoteMeta> = Vec::new();
        let mut k: usize = 0;
        while k < slots.len()
            invariant
                k <= slots@.len(),
                forall|j: int| 0 <= j < slots@.len() ==> (#[trigger] slots@[j]) < self@.notes.len(),
                self@.notes == note_views(self.arena@),
                meta_views(out@) == self@.metas_of(slots@.subrange(0, k as int)),
            decreases slots.len() - k,
        {
            let ghost before = out@;
            out.push(self.arena[slots[k]].get_meta());
            assert(meta_views(out@)
                =~= meta_views(before).push(self@.notes[slots@[k as int] as int].meta()));
            assert(self@.metas_of(slots@.subrange(0, k + 1)) =~= self@.metas_of(
                slots@.subrange(0, k as int),
            ).push(self@.notes[slots@[k as int] as int].meta()));
            k += 1;
        }
        assert(slots@.subrange(0, slots@.len() as int) =~= slots@);
        out
    }

    /// Whether any note holds a link to the note in the slot.
    fn note_has_incoming_links(&self, slot: usize) -> (r: bool)
        requires
            slot < self@.notes.len(),
        ensures
            r == self@.has_incoming(slot),
    {
        self.recall_slots();
        let note = &self.arena[slot];
        let name = note.get_filename_link();
        let name_folded = folded_text(&name);
        if find_in_backlinks(&self.backlinks, &name, name_folded.as_str()) < self.backlinks.len() {
            return true;
        }
        match note.id() {
            Some(id) => {
                let key = WikiLink::Id(id.clone());
                let key_folded = folded_text(&key);
                find_in_backlinks(&self.backlinks, &key, key_folded.as_str()) < self.backlinks.len()
            },
            None => false,
        }
    }

    /// Get incoming links to note. Can contain duplicates!
    fn get_incoming_links(&self, slot: usize) -> (r: Vec<usize>)
        requires
            slot < self@.notes.len(),
        ensures
            r@ == self@.incoming(slot),
            forall|j: int| 0 <= j < r@.len() ==> (#[trigger] r@[j]) < self@.notes.len(),
    {
        self.recall_slots();
        let note = &self.arena[slot];
        let mut found: Vec<usize> = Vec::new();
        let name = note.get_filename_link();
        let name_folded = folded_text(&name);
        let p = find_in_backlinks(&self.backlinks, &name, name_folded.as_str());
        if p < self.backlinks.len() {
            assert(referrer_entries(self.backlinks@)[p as int].1 == self.backlinks@[p as int].held@);
            found.extend_from_slice(self.backlinks[p].held.as_slice());
        }
        assert(found@ =~= self@.referrers(name@));
        match note.id() {
            Some(id) => {
                let key = WikiLink::Id(id.clone());
                let key_folded = folded_text(&key);
                let q = find_in_backlinks(&self.backlinks, &key, key_folded.as_str());
                if q < self.backlinks.len() {
                    assert(referrer_entries(self.backlinks@)[q as int].1
                        == self.backlinks@[q as int].held@);
                    found.extend_from_slice(self.backlinks[q].held.as_slice());
                }
                assert(found@ =~= self@.referrers(name@) + self@.referrers(key@));
            },
            None => {
                assert(found@ =~= self@.referrers(name@) + Seq::<usize>::empty());
            },
        }
        found
    }

    /// The descriptions of the notes that have, or have not, outgoing and
    /// incoming links as asked.
    fn select(&self, outgoing: bool, incoming: bool) -> (r: Vec<NoteMeta>)
        ensures
            meta_views(r@) == self@.metas_of(self@.selection(self@.sorted(), outgoing, incoming)),
    {
        let sorted = self.get_sorted_notes();
        let mut out: Vec<NoteMeta> = Vec::new();
        let mut k: usize = 0;
        assert(sorted@.subrange(0, 0) =~= Seq::<usize>::empty());
        while k < sorted.len()
            invariant
                k <= sorted@.len(),
                forall|j: int| 0 <= j < sorted@.len()
                    ==> (#[trigger] sorted@[j]) < self@.notes.len(),
                self@.notes == note_views(self.arena@),
                meta_views(out@) == self@.metas_of(
                    self@.selection(sorted@.subrange(0, k as int), outgoing, incoming),
                ),
            decreases sorted.len() - k,
        {
            let slot = sorted[k];
            proof {
                let upto = sorted@.subrange(0, k + 1);
                assert(upto.drop_last() =~= sorted@.subrange(0, k as int));
                assert(upto.last() == slot);
            }
            if self.arena[slot].has_outgoing_links() == outgoing && self.note_has_incoming_links(slot)
                == incoming {
                let ghost before = out@;
                let ghost chosen = self@.selection(sorted@.subrange(0, k as int), outgoing, incoming);
                out.push(self.arena[slot].get_meta());
                assert(meta_views(out@)
                    =~= meta_views(before).push(self@.notes[slot as int].meta()));
                assert(self@.metas_of(chosen.push(slot)) =~= self@.metas_of(chosen).push(
                    self@.notes[slot as int].meta(),
                ));
            }
            k += 1;
        }
        assert(sorted@.subrange(0, sorted@.len() as int) =~= sorted@);
        out
    }

    /// Whether the note that is described links to other notes: the notes
    /// are told apart by their paths.
    pub fn has_links(&self, note: &NoteMeta) -> (r: bool)
        ensures
            r == self@.links_from(note@.path),
    {
        self.recall_slots();
        let count = self.arena.len();
        let mut slot: usize = 0;
        while slot < count
            invariant
                slot <= count,
                count == self.arena@.len(),
                self@.notes == note_views(self.arena@),
                forall|k: int|
                    0 <= k < slot ==> !((#[trigger] self@.notes[k]).file.path == note@.path
                        && self@.notes[k].links.len() > 0),
            decreases count - slot,
        {
            let held = &self.arena[slot];
            if held.has_outgoing_links() && str_equal(
                held.file().path.as_str(),
                note.path.as_str(),
            ) {
                assert(self@.notes[slot as int] == held@);
                return true;
            }
            slot += 1;
        }
        false
    }

    /// Get notes with no incoming links, but at least one outgoing
    pub fn get_sources(&self) -> (r: Vec<NoteMeta>)
        ensures
            meta_views(r@) == self@.metas_of(self@.selection(self@.sorted(), true, false)),
    {
        self.select(true, false)
    }

    /// Get notes with no outgoing links, but at least one incoming
    pub fn get_sinks(&self) -> (r: Vec<NoteMeta>)
        ensures
            meta_views(r@) == self@.metas_of(self@.selection(self@.sorted(), false, true)),
    {
        self.select(false, true)
    }

    /// Get notes with no incoming or outgoing links
    pub fn get_isolated(&self) -> (r: Vec<NoteMeta>)
        ensures
            meta_views(r@) == self@.metas_of(self@.selection(self@.sorted(), false, false)),
    {
        self.select(false, false)
    }

    /// The links that resolve to no note, each with the notes that hold it.
    pub fn get_broken_links(&self) -> (r: Vec<(WikiLink, Vec<NoteMeta>)>)
        ensures
            broken_views(r@) == self@.broken_links(),
    {
        self.recall_slots();
        let ghost entries = referrer_entries(self.backlinks@);
        let mut out: Vec<(WikiLink, Vec<NoteMeta>)> = Vec::new();
        let ghost mut places: Seq<int> = seq![];
        let mut p: usize = 0;
        assert(broken_views(out@) =~= places.map_values(
            |p: int| (self@.backlinks()[p].0, self@.metas_of(self@.backlinks()[p].1)),
        ));
        while p < self.backlinks.len()
            invariant
                p <= self.backlinks@.len(),
                self@.notes == note_views(self.arena@),
                entries == referrer_entries(self.backlinks@),
                entries == self@.backlinks(),
                folded_keys(self.index@),
                folded_keys(self.backlinks@),
                index_entries(self.index@) == self@.index(),
                slots_below(indexed(self@.notes), self@.notes.len() as int),
                places == self@.broken(p as int),
                broken_views(out@) == places.map_values(
                    |p: int| (self@.backlinks()[p].0, self@.metas_of(self@.backlinks()[p].1)),
                ),
            decreases self.backlinks.len() - p,
        {
            assert(entries[p as int]
                == (self.backlinks@[p as int].key@, self.backlinks@[p as int].held@));
            let entry = &self.backlinks[p];
            if find_in_index(&self.index, &entry.key, entry.folded.as_str()) >= self.index.len() {
                let ghost before = out@;
                assert forall|j: int| 0 <= j < entry.held@.len() implies (#[trigger] entry.held@[j])
                    < self@.notes.len() by {
                    assert(indexed(self@.notes).backlinks[p as int].1[j] < self@.notes.len());
                }
                let linkers = self.metas(&entry.held);
                out.push((entry.key.clone(), linkers));
                proof {
                    assert(broken_views(out@) =~= broken_views(before).push(
                        (entry.key@, self@.metas_of(entry.held@)),
                    ));
                    let wider = places.push(p as int);
                    assert(wider.map_values(
                        |p: int| (self@.backlinks()[p].0, self@.metas_of(self@.backlinks()[p].1)),
                    ) =~= places.map_values(
                        |p: int| (self@.backlinks()[p].0, self@.metas_of(self@.backlinks()[p].1)),
                    ).push((entry.key@, self@.metas_of(entry.held@))));
                    places = wider;
                }
            }
            p += 1;
        }
        out
    }

    /// The notes with open tasks, each with its tasks.
    pub fn get_tasks(&self) -> (r: Vec<(NoteMeta, Vec<String>)>)
        ensures
            task_views(r@) == self@.tasks(),
    {
        let sorted = self.get_sorted_notes();
        let mut out: Vec<(NoteMeta, Vec<String>)> = Vec::new();
        let ghost mut chosen: Seq<usize> = seq![];
        let mut k: usize = 0;
        assert(sorted@.subrange(0, 0) =~= Seq::<usize>::empty());
        assert(task_views(out@) =~= chosen.map_values(
            |s: usize| (self@.notes[s as int].meta(), self@.notes[s as int].tasks),
        ));
        while k < sorted.len()
            invariant
                k <= sorted@.len(),
                forall|j: int| 0 <= j < sorted@.len()
                    ==> (#[trigger] sorted@[j]) < self@.notes.len(),
                self@.notes == note_views(self.arena@),
                chosen == self@.tasked(sorted@.subrange(0, k as int)),
                task_views(out@) == chosen.map_values(
                    |s: usize| (self@.notes[s as int].meta(), self@.notes[s as int].tasks),
                ),
            decreases sorted.len() - k,
        {
            let slot = sorted[k];
            proof {
                let upto = sorted@.subrange(0, k + 1);
                assert(upto.drop_last() =~= sorted@.subrange(0, k as int));
                assert(upto.last() == slot);
            }
            let note = &self.arena[slot];
            if note.tasks().len() > 0 {
                let ghost before = out@;
                let tasks = copy_strings(note.tasks());
                out.push((note.get_meta(), tasks));
                proof {
                    assert(task_views(out@)
                        =~= task_views(before).push((note@.meta(), note@.tasks)));
                    let wider = chosen.push(slot);
                    assert(wider.map_values(
                        |s: usize| (self@.notes[s as int].meta(), self@.notes[s as int].tasks),
                    ) =~= chosen.map_values(
                        |s: usize| (self@.notes[s as int].meta(), self@.notes[s as int].tasks),
                    ).push((note@.meta(), note@.tasks)));
                    chosen = wider;
                }
            }
            k += 1;
        }
        assert(sorted@.subrange(0, sorted@.len() as int) =~= sorted@);
        out
    }

    /// The notes whose file name is not made of their identifier and title,
    /// each with the file name it should have.
    pub fn get_mismatched_filenames(&self) -> (r: Vec<(NoteMeta, String)>)
        ensures
            rename_views(r@) == self@.renames(),
    {
        let sorted = self.get_sorted_notes();
        let mut out: Vec<(NoteMeta, String)> = Vec::new();
        let ghost mut chosen: Seq<usize> = seq![];
        let mut k: usize = 0;
        assert(sorted@.subrange(0, 0) =~= Seq::<usize>::empty());
        assert(rename_views(out@) =~= chosen.map_values(
            |s: usize| (self@.notes[s as int].meta(), canonical_stem(self@.notes[s as int])),
        ));
        while k < sorted.len()
            invariant
                k <= sorted@.len(),
                forall|j: int| 0 <= j < sorted@.len()
                    ==> (#[trigger] sorted@[j]) < self@.notes.len(),
                self@.notes == note_views(self.arena@),
                chosen == self@.mismatched(sorted@.subrange(0, k as int)),
                rename_views(out@) == chosen.map_values(
                    |s: usize| (self@.notes[s as int].meta(), canonical_stem(self@.notes[s as int])),
                ),
            decreases sorted.len() - k,
        {
            let slot = sorted[k];
            proof {
                let upto = sorted@.subrange(0, k + 1);
                assert(upto.drop_last() =~= sorted@.subrange(0, k as int));
                assert(upto.last() == slot);
            }
            let note = &self.arena[slot];
            let new_filename = match note.id() {
                Some(id) => {
                    let mut full = id.clone();
                    full.append(" ");
                    full.append(note.title());
                    NoteFile::clean_filename(full.as_str())
                },
                None => NoteFile::clean_filename(note.title()),
            };
            let have = to_lowercase(note.file().stem.as_str());
            let want = to_lowercase(new_filename.as_str());
            if have != want {
                let ghost before = out@;
                out.push((note.get_meta(), new_filename));
                proof {
                    assert(rename_views(out@) =~= rename_views(before).push(
                        (note@.meta(), canonical_stem(note@)),
                    ));
                    let wider = chosen.push(slot);
                    assert(wider.map_values(
                        |s: usize| (self@.notes[s as int].meta(), canonical_stem(self@.notes[s as int])),
                    ) =~= chosen.map_values(
                        |s: usize| (self@.notes[s as int].meta(), canonical_stem(self@.notes[s as int])),
                    ).push((note@.meta(), canonical_stem(note@))));
                    chosen = wider;
                }
            }
            k += 1;
        }
        assert(sorted@.subrange(0, sorted@.len() as int) =~= sorted@);
        out
    }

    /// The lines of the backlinks section that the note in a slot should
    /// have, joined.
    fn wanted_backlinks(&self, slot: usize) -> (r: String)
        requires
            slot < self@.notes.len(),
        ensures
            r@ == self@.wanted_body(slot),
    {
        let incoming = self.get_incoming_links(slot);
        let sorted = self.sort_slots(&incoming);
        let ghost all = sorted@.map_values(|s: usize| backlink_line(self@.notes[s as int]));
        let mut section = String::new();
        let mut last: Option<String> = None;
        let ghost mut lines: Seq<Seq<char>> = seq![];
        let mut k: usize = 0;
        assert(all.subrange(0, 0) =~= Seq::<Seq<char>>::empty());
        while k < sorted.len()
            invariant
                k <= sorted@.len(),
                forall|j: int| 0 <= j < sorted@.len()
                    ==> (#[trigger] sorted@[j]) < self@.notes.len(),
                self@.notes == note_views(self.arena@),
                all == sorted@.map_values(|s: usize| backlink_line(self@.notes[s as int])),
                lines == deduped(all.subrange(0, k as int)),
                section@ == joined(lines, "\n"@),
                last is Some <==> lines.len() > 0,
                last matches Some(l) ==> l@ == lines.last(),
            decreases sorted.len() - k,
        {
            proof {
                let upto = all.subrange(0, k + 1);
                assert(upto.drop_last() =~= all.subrange(0, k as int));
                assert(upto.last() == all[k as int]);
            }
            let mut line = String::new();
            line.append("- ");
            line.append(self.arena[sorted[k]].get_wikilink_to().as_str());
            assert(line@ =~= backlink_line(self@.notes[sorted@[k as int] as int]));
            let repeated = match &last {
                Some(l) => str_equal(l.as_str(), line.as_str()),
                None => false,
            };
            if !repeated {
                let ghost before = lines;
                if last.is_some() {
                    section.append("\n");
                }
                section.append(line.as_str());
                proof {
                    lines = lines.push(line@);
                    assert(lines.drop_last() =~= before);
                    if before.len() == 0 {
                        assert(section@ =~= line@);
                    }
                }
                last = Some(line);
            }
            k += 1;
        }
        assert(all.subrange(0, all.len() as int) =~= all);
        section
    }

    /// What removing the backlinks sections writes: the contents, without
    /// the section, of every note that has one.
    pub fn remove_backlinks(&self) -> (r: Vec<NoteUpdate>)
        ensures
            update_views(r@) == self@.removals(),
    {
        let sorted = self.get_sorted_notes();
        let mut out: Vec<NoteUpdate> = Vec::new();
        let ghost mut chosen: Seq<usize> = seq![];
        let mut k: usize = 0;
        assert(sorted@.subrange(0, 0) =~= Seq::<usize>::empty());
        assert(update_views(out@) =~= chosen.map_values(
            |s: usize| (self@.notes[s as int].meta(), self@.notes[s as int].without_backlinks()),
        ));
        while k < sorted.len()
            invariant
                k <= sorted@.len(),
                forall|j: int| 0 <= j < sorted@.len()
                    ==> (#[trigger] sorted@[j]) < self@.notes.len(),
                self@.notes == note_views(self.arena@),
                chosen == self@.sectioned(sorted@.subrange(0, k as int)),
                update_views(out@) == chosen.map_values(
                    |s: usize| (self@.notes[s as int].meta(), self@.notes[s as int].without_backlinks()),
                ),
            decreases sorted.len() - k,
        {
            let slot = sorted[k];
            proof {
                let upto = sorted@.subrange(0, k + 1);
                assert(upto.drop_last() =~= sorted@.subrange(0, k as int));
                assert(upto.last() == slot);
            }
            let note = &self.arena[slot];
            if note.has_backlinks() {
                let ghost before = out@;
                out.push(
                    NoteUpdate { note: note.get_meta(), contents: note.get_contents_without_backlinks() },
                );
                proof {
                    assert(update_views(out@) =~= update_views(before).push(
                        (note@.meta(), note@.without_backlinks()),
                    ));
                    let wider = chosen.push(slot);
                    assert(wider.map_values(
                        |s: usize| (self@.notes[s as int].meta(), self@.notes[s as int].without_backlinks()),
                    ) =~= chosen.map_values(
                        |s: usize| (self@.notes[s as int].meta(), self@.notes[s as int].without_backlinks()),
                    ).push((note@.meta(), note@.without_backlinks())));
                    chosen = wider;
                }
            }
            k += 1;
        }
        assert(sorted@.subrange(0, sorted@.len() as int) =~= sorted@);
        out
    }

    /// What bringing the backlinks sections up to date writes: the new
    /// contents of every note whose section does not list the notes that
    /// link to it.
    pub fn update_backlinks(&self) -> (r: Vec<NoteUpdate>)
        ensures
            update_views(r@) == self@.updates(),
    {
        proof {
            use_type_invariant(self);
        }
        let sorted = self.get_sorted_notes();
        let mut out: Vec<NoteUpdate> = Vec::new();
        let ghost mut chosen: Seq<usize> = seq![];
        let mut k: usize = 0;
        assert(sorted@.subrange(0, 0) =~= Seq::<usize>::empty());
        assert(update_views(out@) =~= chosen.map_values(
            |s: usize| (self@.notes[s as int].meta(), self@.updated_contents(s)),
        ));
        while k < sorted.len()
            invariant
                k <= sorted@.len(),
                forall|j: int| 0 <= j < sorted@.len()
                    ==> (#[trigger] sorted@[j]) < self@.notes.len(),
                self@.notes == note_views(self.arena@),
                self@.cfg == self.parser@,
                chosen == self@.outdated(sorted@.subrange(0, k as int)),
                update_views(out@) == chosen.map_values(
                    |s: usize| (self@.notes[s as int].meta(), self@.updated_contents(s)),
                ),
            decreases sorted.len() - k,
        {
            let slot = sorted[k];
            proof {
                let upto = sorted@.subrange(0, k + 1);
                assert(upto.drop_last() =~= sorted@.subrange(0, k as int));
                assert(upto.last() == slot);
            }
            let note = &self.arena[slot];
            let new_section = self.wanted_backlinks(slot);
            let unchanged = match note.get_backlinks_section_without_heading() {
                Some(current) => str_equal(current.as_str(), new_section.as_str()),
                None => new_section.as_str().is_empty(),
            };
            proof {
                if note@.backlinks_body() is None {
                    assert(self@.current_body(slot) =~= Seq::<char>::empty());
                    assert(unchanged == (self@.current_body(slot) =~= new_section@));
                }
            }
            if !unchanged {
                let new_contents = if !new_section.as_str().is_empty() {
                    // Add or update backlinks
                    note.get_contents_with_new_backlinks(
                        self.parser.backlinks_heading(),
                        new_section.as_str(),
                    )
                } else {
                    // Remove backlinks
                    note.get_contents_without_backlinks()
                };
                let ghost before = out@;
                out.push(NoteUpdate { note: note.get_meta(), contents: new_contents });
                proof {
                    assert(update_views(out@) =~= update_views(before).push(
                        (note@.meta(), self@.updated_contents(slot)),
                    ));
                    let wider = chosen.push(slot);
                    assert(wider.map_values(
                        |s: usize| (self@.notes[s as int].meta(), self@.updated_contents(s)),
                    ) =~= chosen.map_values(
                        |s: usize| (self@.notes[s as int].meta(), self@.updated_contents(s)),
                    ).push((note@.meta(), self@.updated_contents(slot))));
                    chosen = wider;
                }
            }
            k += 1;
        }
        assert(sorted@.subrange(0, sorted@.len() as int) =~= sorted@);
        out
    }

    /// The number of links that occur in any note, counted once each.
    pub fn count_links(&self) -> (r: usize)
        ensures
            r == self@.backlinks().len(),
    {
        proof {
            use_type_invariant(self);
        }
        self.backlinks.len()
    }
}

/// Whether one note is listed before another.
fn note_before(a: &Note, b: &Note) -> (r: bool)
    ensures
        r == sorts_before(a@, b@),
{
    let ta = a.title_lower().as_bytes();
    let tb = b.title_lower().as_bytes();
    if bytes_less(ta, tb) {
        true
    } else if bytes_equal(ta, tb) {
        bytes_less(a.file().stem.as_str().as_bytes(), b.file().stem.as_str().as_bytes())
    } else {
        false
    }
}

/// A copy of a list of strings.
fn copy_strings(list: &Vec<String>) -> (r: Vec<String>)
    ensures
        texts(r@) == texts(list@),
{
    let mut out: Vec<String> = Vec::new();
    let mut k: usize = 0;
    while k < list.len()
        invariant
            k <= list@.len(),
            texts(out@) == texts(list@.subrange(0, k as int)),
        decreases list.len() - k,
    {
        let ghost before = out@;
        out.push(list[k].clone());
        assert(texts(out@) =~= texts(before).push(list@[k as int]@));
        assert(texts(list@.subrange(0, k + 1)) =~= texts(list@.subrange(0, k as int)).push(
            list@[k as int]@,
        ));
        k += 1;
    }
    assert(list@.subrange(0, list@.len() as int) =~= list@);
    out
}

/// Builds the indexes of the notes of an arena.
fn build_index(arena: &Vec<Note>) -> (r: (
    Vec<Entry<usize>>,
    Vec<Entry<Vec<usize>>>,
    Vec<(usize, usize)>,
))
    ensures
        folded_keys(r.0@),
        folded_keys(r.1@),
        index_entries(r.0@) == indexed(note_views(arena@)).index,
        referrer_entries(r.1@) == indexed(note_views(arena@)).backlinks,
        r.2@ == indexed(note_views(arena@)).collisions,
{
    let mut index: Vec<Entry<usize>> = Vec::new();
    let mut backlinks: Vec<Entry<Vec<usize>>> = Vec::new();
    let mut collisions: Vec<(usize, usize)> = Vec::new();
    let ghost notes = note_views(arena@);
    let mut k: usize = 0;
    proof {
        assert(index_entries(index@) =~= Seq::<(LinkKey, usize)>::empty());
        assert(referrer_entries(backlinks@) =~= Seq::<(LinkKey, Seq<usize>)>::empty());
        assert(notes.subrange(0, 0) =~= Seq::<NoteView>::empty());
    }
    while k < arena.len()
        invariant
            k <= arena@.len(),
            notes == note_views(arena@),
            folded_keys(index@),
            folded_keys(backlinks@),
            index_entries(index@) == indexed(notes.subrange(0, k as int)).index,
            referrer_entries(backlinks@) == indexed(notes.subrange(0, k as int)).backlinks,
            collisions@ == indexed(notes.subrange(0, k as int)).collisions,
        decreases arena.len() - k,
    {
        proof {
            let upto = notes.subrange(0, k + 1);
            assert(upto.drop_last() =~= notes.subrange(0, k as int));
            assert(upto.last() == arena@[k as int]@);
        }
        index = index_note(index, &mut collisions, &arena[k], k);
        add_referrers(&mut backlinks, &arena[k], k);
        k += 1;
    }
    assert(notes.subrange(0, notes.len() as int) =~= notes);
    (index, backlinks, collisions)
}

/// Carries out a renaming on the notes.
fn apply_rename(
    parser: &NoteParser,
    arena: &mut Vec<Note>,
    slot: usize,
    refs: &Vec<usize>,
    old_link: &str,
    new_link: &str,
    new_path: &str,
    new_stem: &str,
) -> (r: Vec<NoteUpdate>)
    requires
        slot < old(arena)@.len(),
        forall|k: int|
            0 <= k < old(arena)@.len() ==> (#[trigger] note_views(old(arena)@)[k]) == note_of(
                parser@,
                note_views(old(arena)@)[k].file,
            ) && note_views(old(arena)@)[k].well_formed(),
    ensures
        ({
            let linked = relinked(parser@, note_views(old(arena)@), refs@, old_link@, new_link@);
            note_views(final(arena)@) == linked.update(
                slot as int,
                note_of(
                    parser@,
                    FileView { path: new_path@, stem: new_stem@, ..linked[slot as int].file },
                ),
            )
        }),
        update_views(r@) == relink_updates(
            parser@,
            note_views(old(arena)@),
            refs@,
            old_link@,
            new_link@,
        ),
        forall|k: int|
            0 <= k < final(arena)@.len() ==> (#[trigger] note_views(final(arena)@)[k]) == note_of(
                parser@,
                note_views(final(arena)@)[k].file,
            ) && note_views(final(arena)@)[k].well_formed(),
{
    let ghost start = note_views(arena@);
    let mut updates: Vec<NoteUpdate> = Vec::new();
    let mut k: usize = 0;
    proof {
        assert(refs@.subrange(0, 0) =~= Seq::<usize>::empty());
        assert(update_views(updates@) =~= Seq::<(MetaView, Seq<char>)>::empty());
    }
    while k < refs.len()
        invariant
            k <= refs@.len(),
            arena@.len() == start.len(),
            note_views(arena@)
                == relinked(parser@, start, refs@.subrange(0, k as int), old_link@, new_link@),
            update_views(updates@) == relink_updates(
                parser@,
                start,
                refs@.subrange(0, k as int),
                old_link@,
                new_link@,
            ),
            forall|j: int|
                0 <= j < arena@.len() ==> (#[trigger] note_views(arena@)[j]) == note_of(
                    parser@,
                    note_views(arena@)[j].file,
                ) && note_views(arena@)[j].well_formed(),
        decreases refs.len() - k,
    {
        let r = refs[k];
        proof {
            let upto = refs@.subrange(0, k + 1);
            assert(upto.drop_last() =~= refs@.subrange(0, k as int));
            assert(upto.last() == r);
        }
        if r < arena.len() {
            let ghost before = arena@;
            let ghost had = note_views(arena@)[r as int];
            assert(had == arena@[r as int]@);
            let new_contents = replace(arena[r].file().content.as_str(), old_link, new_link);
            let changed = !str_equal(new_contents.as_str(), arena[r].file().content.as_str());
            let file = arena[r].file().replace_contents(new_contents.as_str());
            let note = Note::new(file, parser);
            assert(note@ == with_text_replaced(parser@, had, old_link@, new_link@));
            if changed {
                let ghost listed = updates@;
                updates.push(NoteUpdate { note: note.get_meta(), contents: new_contents });
                assert(update_views(updates@) =~= update_views(listed).push(
                    (note@.meta(), replaced(had.file.content, old_link@, new_link@)),
                ));
            }
            arena.set(r, note);
            assert(note_views(arena@) =~= note_views(before).update(r as int, note@));
        }
        k += 1;
    }
    assert(refs@.subrange(0, refs@.len() as int) =~= refs@);
    let ghost linked = note_views(arena@);
    let file = arena[slot].file().rename(new_path, new_stem);
    let note = Note::new(file, parser);
    arena.set(slot, note);
    assert(note_views(arena@) =~= linked.update(slot as int, note@));
    updates
}

} // verus!
