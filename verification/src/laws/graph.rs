//! What holds of every collection: the order in which notes are listed, the
//! classes that notes fall into, and the links that resolve to no note.
use crate::collection::{
    has_key, indexed, inserted, lemma_position, lemma_without_slot, listed, position, sorted_slots,
    sorts_before, with_note_indexed, with_referrer, with_referrers, without_slot, CollectionView,
};
use crate::link::LinkKey;
use crate::note::{has_link, is_self_link, NoteView};
use crate::text::{lex_less, lowercase};
use vstd::prelude::*;
use vstd::seq_lib::*;
use vstd::utf8::encode_utf8;

verus! {

/// No byte string stands before itself.
pub proof fn lemma_lex_less_irreflexive(a: Seq<u8>)
    ensures
        !lex_less(a, a),
    decreases a.len(),
{
    if a.len() > 0 {
        lemma_lex_less_irreflexive(a.drop_first());
    }
}

/// The order of byte strings is transitive.
pub proof fn lemma_lex_less_transitive(a: Seq<u8>, b: Seq<u8>, c: Seq<u8>)
    requires
        lex_less(a, b),
        lex_less(b, c),
    ensures
        lex_less(a, c),
    decreases a.len(),
{
    if a.len() > 0 && b.len() > 0 && c.len() > 0 && a[0] == b[0] && b[0] == c[0] {
        lemma_lex_less_transitive(a.drop_first(), b.drop_first(), c.drop_first());
    }
}

/// Of two different byte strings one stands before the other.
pub proof fn lemma_lex_less_total(a: Seq<u8>, b: Seq<u8>)
    ensures
        lex_less(a, b) || lex_less(b, a) || a == b,
    decreases a.len(),
{
    if a.len() > 0 && b.len() > 0 && a[0] == b[0] {
        lemma_lex_less_total(a.drop_first(), b.drop_first());
        if a.drop_first() == b.drop_first() {
            assert(a =~= seq![a[0]] + a.drop_first());
            assert(b =~= seq![b[0]] + b.drop_first());
        }
    } else if a.len() == 0 && b.len() == 0 {
        assert(a =~= b);
    }
}

/// The order in which notes are listed is transitive, and no note is listed
/// before itself.
pub proof fn lemma_sorts_before_transitive(a: NoteView, b: NoteView, c: NoteView)
    requires
        sorts_before(a, b),
        sorts_before(b, c),
    ensures
        sorts_before(a, c),
        !sorts_before(a, a),
{
    let ta = encode_utf8(lowercase(a.title));
    let tb = encode_utf8(lowercase(b.title));
    let tc = encode_utf8(lowercase(c.title));
    let sa = encode_utf8(a.file.stem);
    let sb = encode_utf8(b.file.stem);
    let sc = encode_utf8(c.file.stem);
    lemma_lex_less_irreflexive(ta);
    lemma_lex_less_irreflexive(sa);
    if lex_less(ta, tb) && lex_less(tb, tc) {
        lemma_lex_less_transitive(ta, tb, tc);
    } else if ta == tb && tb == tc {
        lemma_lex_less_transitive(sa, sb, sc);
    }
}

/// Whether no note of the list is listed before one that stands in front of
/// it.
pub open spec fn is_ordered(notes: Seq<NoteView>, slots: Seq<usize>) -> bool {
    forall|i: int, j: int|
        0 <= i < j < slots.len() ==> !sorts_before(
            notes[(#[trigger] slots[j]) as int],
            notes[(#[trigger] slots[i]) as int],
        )
}

/// Entering a slot in an ordered list leaves the list ordered, and adds the
/// slot and nothing else.
pub proof fn lemma_inserted(notes: Seq<NoteView>, sorted: Seq<usize>, slot: usize)
    requires
        is_ordered(notes, sorted),
    ensures
        is_ordered(notes, inserted(notes, sorted, slot)),
        inserted(notes, sorted, slot).to_multiset() == sorted.to_multiset().insert(slot),
        inserted(notes, sorted, slot).len() == sorted.len() + 1,
    decreases sorted.len(),
{
    broadcast use group_to_multiset_ensures;

    let out = inserted(notes, sorted, slot);
    if sorted.len() == 0 {
        assert(out =~= Seq::<usize>::empty().push(slot));
    } else if sorts_before(notes[slot as int], notes[sorted[0] as int]) {
        assert(out =~= sorted.insert(0, slot));
        assert forall|i: int, j: int| 0 <= i < j < out.len() implies !sorts_before(
            notes[(#[trigger] out[j]) as int],
            notes[(#[trigger] out[i]) as int],
        ) by {
            if i == 0 {
                assert(out[j] == sorted[j - 1]);
                if sorts_before(notes[out[j] as int], notes[slot as int]) {
                    lemma_sorts_before_transitive(
                        notes[out[j] as int],
                        notes[slot as int],
                        notes[sorted[0] as int],
                    );
                    if j - 1 > 0 {
                        assert(!sorts_before(notes[sorted[j - 1] as int], notes[sorted[0] as int]));
                    } else {
                        lemma_sorts_before_transitive(
                            notes[sorted[0] as int],
                            notes[slot as int],
                            notes[sorted[0] as int],
                        );
                    }
                }
            } else {
                assert(out[i] == sorted[i - 1] && out[j] == sorted[j - 1]);
            }
        }
    } else {
        let rest = sorted.drop_first();
        assert forall|i: int, j: int| 0 <= i < j < rest.len() implies !sorts_before(
            notes[(#[trigger] rest[j]) as int],
            notes[(#[trigger] rest[i]) as int],
        ) by {
            assert(rest[i] == sorted[i + 1] && rest[j] == sorted[j + 1]);
        }
        lemma_inserted(notes, rest, slot);
        let tail = inserted(notes, rest, slot);
        assert(out =~= tail.insert(0, sorted[0]));
        assert(sorted =~= rest.insert(0, sorted[0]));
        assert forall|i: int, j: int| 0 <= i < j < out.len() implies !sorts_before(
            notes[(#[trigger] out[j]) as int],
            notes[(#[trigger] out[i]) as int],
        ) by {
            if i == 0 {
                assert(out[j] == tail[j - 1]);
                assert(tail.to_multiset().contains(tail[j - 1]));
                if tail[j - 1] != slot {
                    assert(rest.to_multiset().contains(tail[j - 1]));
                    let k = choose|k: int| 0 <= k < rest.len() && rest[k] == tail[j - 1];
                    assert(sorted[k + 1] == rest[k]);
                }
            } else {
                assert(out[i] == tail[i - 1] && out[j] == tail[j - 1]);
            }
        }
    }
}

/// The notes of a list in the order in which they are listed: no note
/// stands behind one that it is listed before, and the list holds what it
/// held, each slot as often as before.
pub proof fn lemma_sorted_slots(notes: Seq<NoteView>, slots: Seq<usize>)
    ensures
        is_ordered(notes, sorted_slots(notes, slots)),
        sorted_slots(notes, slots).to_multiset() == slots.to_multiset(),
        sorted_slots(notes, slots).len() == slots.len(),
    decreases slots.len(),
{
    broadcast use group_to_multiset_ensures;

    if slots.len() > 0 {
        lemma_sorted_slots(notes, slots.drop_last());
        lemma_inserted(notes, sorted_slots(notes, slots.drop_last()), slots.last());
        assert(slots =~= slots.drop_last().push(slots.last()));
    } else {
        assert(slots =~= Seq::<usize>::empty());
    }
}

/// The notes of a collection are listed by title without regard to case,
/// and by file stem where titles are the same; every note of the collection
/// is listed, and none more often than the index names it.
pub proof fn lemma_listing_is_sorted(v: CollectionView)
    ensures
        is_ordered(v.notes, v.sorted()),
        v.sorted().to_multiset() == listed(v.index()).to_multiset(),
        v.sorted().len() == listed(v.index()).len(),
{
    lemma_sorted_slots(v.notes, listed(v.index()));
}

/// Whether some entry of the index names the slot under a file name.
pub open spec fn has_name_entry(index: Seq<(LinkKey, usize)>, slot: usize) -> bool {
    exists|j: int| 0 <= j < index.len() && (#[trigger] index[j]).0 is FileName && index[j].1 == slot
}

/// What holds of the index of a collection: no two entries address the same
/// note, every entry addresses the note that it names, and every note that
/// an entry names is also entered under its file name.
pub open spec fn index_ok(index: Seq<(LinkKey, usize)>, notes: Seq<NoteView>) -> bool {
    &&& forall|i: int, j: int|
        0 <= i < j < index.len()
            ==> (#[trigger] index[i]).0.folded() != (#[trigger] index[j]).0.folded()
    &&& forall|i: int|
        0 <= i < index.len() ==> (#[trigger] index[i]).1 < notes.len() && is_self_link(
            notes[index[i].1 as int].file.stem,
            notes[index[i].1 as int].id,
            index[i].0,
        )
    &&& forall|i: int| 0 <= i < index.len() ==> has_name_entry(index, (#[trigger] index[i]).1)
}

/// Taking a note out of the index leaves a sound index.
proof fn lemma_without_slot_ok(index: Seq<(LinkKey, usize)>, notes: Seq<NoteView>, slot: usize)
    requires
        index_ok(index, notes),
    ensures
        index_ok(without_slot(index, slot), notes),
{
    let out = without_slot(index, slot);
    lemma_without_slot(index, slot);
    lemma_without_slot_distinct(index, slot);
    assert forall|i: int| 0 <= i < out.len() implies has_name_entry(out, (#[trigger] out[i]).1) by {
        let k = choose|k: int| 0 <= k < index.len() && index[k] == out[i];
        assert(has_name_entry(index, index[k].1));
        let j = choose|j: int|
            0 <= j < index.len() && (#[trigger] index[j]).0 is FileName && index[j].1 == out[i].1;
        assert(out.contains(index[j]));
        let m = choose|m: int| 0 <= m < out.len() && out[m] == index[j];
        assert(out[m].0 is FileName && out[m].1 == out[i].1);
    }
    assert forall|i: int| 0 <= i < out.len() implies (#[trigger] out[i]).1 < notes.len()
        && is_self_link(notes[out[i].1 as int].file.stem, notes[out[i].1 as int].id, out[i].0) by {
        let k = choose|k: int| 0 <= k < index.len() && index[k] == out[i];
        assert(index[k].1 < notes.len());
    }
}

/// Taking a note out of an index without two entries for one link leaves no
/// two entries for one link.
proof fn lemma_without_slot_distinct(index: Seq<(LinkKey, usize)>, slot: usize)
    requires
        forall|i: int, j: int|
            0 <= i < j < index.len() ==> (#[trigger] index[i]).0.folded() != (
            #[trigger] index[j]).0.folded(),
    ensures
        forall|i: int, j: int|
            0 <= i < j < without_slot(index, slot).len() ==> (#[trigger] without_slot(
                index,
                slot,
            )[i]).0.folded() != (#[trigger] without_slot(index, slot)[j]).0.folded(),
    decreases index.len(),
{
    if index.len() > 0 {
        let front = index.drop_last();
        assert forall|i: int, j: int| 0 <= i < j < front.len() implies
            (#[trigger] front[i]).0.folded()
            != (#[trigger] front[j]).0.folded() by {
            assert(front[i] == index[i] && front[j] == index[j]);
        }
        lemma_without_slot_distinct(front, slot);
        lemma_without_slot(front, slot);
        let rest = without_slot(front, slot);
        let out = without_slot(index, slot);
        assert forall|i: int, j: int| 0 <= i < j < out.len() implies (#[trigger] out[i]).0.folded()
            != (#[trigger] out[j]).0.folded() by {
            if j < rest.len() {
                assert(out[i] == rest[i] && out[j] == rest[j]);
            } else {
                assert(out[j] == index.last());
                assert(out[i] == rest[i]);
                let k = choose|k: int| 0 <= k < front.len() && front[k] == rest[i];
                assert(index[k] == rest[i]);
                assert(index[index.len() - 1] == index.last());
            }
        }
    }
}

/// Entering a note leaves a sound index.
proof fn lemma_with_note_indexed_ok(
    index: Seq<(LinkKey, usize)>,
    collisions: Seq<(usize, usize)>,
    notes: Seq<NoteView>,
    note: NoteView,
)
    requires
        index_ok(index, notes),
        notes.len() < usize::MAX,
    ensures
        index_ok(
            with_note_indexed(index, collisions, note.file.stem, note.id, notes.len() as usize).0,
            notes.push(note),
        ),
{
    let slot = notes.len() as usize;
    let all = notes.push(note);
    let name = LinkKey::FileName(note.file.stem);
    let p = position(index, name);
    lemma_position(index, name);
    let cleared = if p < index.len() {
        without_slot(index, index[p].1)
    } else {
        index
    };
    if p < index.len() {
        lemma_without_slot_ok(index, notes, index[p].1);
        lemma_without_slot(index, index[p].1);
    }
    assert(index_ok(cleared, notes));
    // no entry that is left addresses the new note by its file name
    assert forall|k: int| 0 <= k < cleared.len() implies (#[trigger] cleared[k]).0.folded()
        != name.folded() by {
        if p < index.len() {
            let i = choose|i: int| 0 <= i < index.len() && index[i] == cleared[k];
            if i < p {
            } else if i == p {
                assert(cleared[k].1 != index[p].1);
            } else {
                assert(index[p].0.folded() != index[i].0.folded());
            }
        }
    }
    let with_id = match note.id {
        Some(i) => {
            let q = position(cleared, LinkKey::Id(i));
            if q < cleared.len() {
                cleared.update(q, (cleared[q].0, slot))
            } else {
                cleared.push((LinkKey::Id(i), slot))
            }
        },
        None => cleared,
    };
    match note.id {
        Some(i) => {
            lemma_position(cleared, LinkKey::Id(i));
        },
        None => {},
    }
    let out = with_id.push((name, slot));
    assert(out == with_note_indexed(index, collisions, note.file.stem, note.id, slot).0);
    assert forall|a: int, b: int| 0 <= a < b < out.len() implies (#[trigger] out[a]).0.folded() != (
    #[trigger] out[b]).0.folded() by {
        if b < cleared.len() {
            assert(out[a].0 == cleared[a].0 && out[b].0 == cleared[b].0);
        } else if b < with_id.len() {
            assert(out[a].0 == cleared[a].0);
        } else if a < cleared.len() {
            assert(out[a].0 == cleared[a].0);
        }
    }
    assert forall|a: int| 0 <= a < out.len() implies
        (#[trigger] out[a]).1 < all.len() && is_self_link(
        all[out[a].1 as int].file.stem,
        all[out[a].1 as int].id,
        out[a].0,
    ) by {
        if a < cleared.len() {
            if out[a].1 != slot {
                assert(out[a] == cleared[a]);
                assert(all[out[a].1 as int] == notes[out[a].1 as int]);
            } else {
                assert(out[a].0 == cleared[a].0);
            }
        }
    }
    assert forall|a: int| 0 <= a < out.len() implies has_name_entry(out, (#[trigger] out[a]).1) by {
        if out[a].1 == slot {
            assert(out[out.len() - 1].0 is FileName && out[out.len() - 1].1 == slot);
        } else {
            assert(out[a] == cleared[a]);
            assert(has_name_entry(cleared, cleared[a].1));
            let j = choose|j: int|
                0 <= j < cleared.len() && (#[trigger] cleared[j]).0 is FileName && cleared[j].1
                    == cleared[a].1;
            assert(out[j] == cleared[j]);
        }
    }
}

/// The index of a collection is sound: no two entries address the same
/// note, every entry addresses the note that it names, and every note that
/// the index names is entered under its own file name.
pub proof fn lemma_index_is_sound(notes: Seq<NoteView>)
    requires
        notes.len() <= usize::MAX,
    ensures
        index_ok(indexed(notes).index, notes),
    decreases notes.len(),
{
    if notes.len() > 0 {
        let before = notes.drop_last();
        lemma_index_is_sound(before);
        lemma_with_note_indexed_ok(
            indexed(before).index,
            indexed(before).collisions,
            before,
            notes.last(),
        );
        assert(before.push(notes.last()) =~= notes);
    }
}

/// Every note that a link resolves to is reached by its own file name: the
/// link made of its file stem resolves to it.
pub proof fn lemma_indexed_notes_are_reachable(v: CollectionView, key: LinkKey)
    requires
        v.notes.len() <= usize::MAX,
        v.resolve(key) is Some,
    ensures
        v.resolve(key).unwrap() < v.notes.len(),
        is_self_link(
            v.notes[v.resolve(key).unwrap() as int].file.stem,
            v.notes[v.resolve(key).unwrap() as int].id,
            key,
        ),
        v.resolve(LinkKey::FileName(v.notes[v.resolve(key).unwrap() as int].file.stem))
            == v.resolve(key),
{
    let index = v.index();
    lemma_index_is_sound(v.notes);
    lemma_position(index, key);
    let p = position(index, key);
    let slot = index[p].1;
    assert(has_name_entry(index, index[p].1));
    let j = choose|j: int| 0 <= j < index.len() && (#[trigger] index[j]).0 is FileName && index[j].1 == slot;
    let name = LinkKey::FileName(v.notes[slot as int].file.stem);
    assert(index[j].0.folded() == name.folded());
    lemma_position(index, name);
    let q = position(index, name);
    if q < j {
        assert(index[q].0.folded() != index[j].0.folded());
    }
}

/// A selection holds the slots asked for and no others.
pub proof fn lemma_selection(
    v: CollectionView,
    slots: Seq<usize>,
    outgoing: bool,
    incoming: bool,
    s: usize,
)
    ensures
        v.selection(slots, outgoing, incoming).contains(s) <==> slots.contains(s) && v.has_outgoing(s)
            == outgoing && v.has_incoming(s) == incoming,
    decreases slots.len(),
{
    if slots.len() > 0 {
        let front = slots.drop_last();
        lemma_selection(v, front, outgoing, incoming, s);
        let chosen = v.selection(slots, outgoing, incoming);
        let before = v.selection(front, outgoing, incoming);
        if chosen.contains(s) {
            let k = choose|k: int| 0 <= k < chosen.len() && chosen[k] == s;
            if k < before.len() {
                assert(before[k] == s);
                assert(before.contains(s));
                let j = choose|j: int| 0 <= j < front.len() && front[j] == s;
                assert(slots[j] == s);
            } else {
                assert(slots[slots.len() - 1] == s);
            }
        }
        if slots.contains(s) && v.has_outgoing(s) == outgoing && v.has_incoming(s) == incoming {
            let j = choose|j: int| 0 <= j < slots.len() && slots[j] == s;
            if j < front.len() {
                assert(front[j] == s);
                assert(front.contains(s));
                let k = choose|k: int| 0 <= k < before.len() && before[k] == s;
                assert(chosen[k] == s);
            } else {
                assert(chosen[chosen.len() - 1] == s);
            }
        }
    }
}

/// Sources, sinks and isolated notes are three classes that share no note,
/// and a listed note is in none of them exactly when it has both outgoing
/// and incoming links.
pub proof fn lemma_classes_partition(v: CollectionView, slot: usize)
    requires
        v.sorted().contains(slot),
    ensures
        !(v.selection(v.sorted(), true, false).contains(slot) && v.selection(
            v.sorted(),
            false,
            true,
        ).contains(slot)),
        !(v.selection(v.sorted(), true, false).contains(slot) && v.selection(
            v.sorted(),
            false,
            false,
        ).contains(slot)),
        !(v.selection(v.sorted(), false, true).contains(slot) && v.selection(
            v.sorted(),
            false,
            false,
        ).contains(slot)),
        (v.selection(v.sorted(), true, false).contains(slot) || v.selection(
            v.sorted(),
            false,
            true,
        ).contains(slot) || v.selection(v.sorted(), false, false).contains(slot)) <==> !(
        v.has_outgoing(slot) && v.has_incoming(slot)),
        v.selection(v.sorted(), true, false).contains(slot) <==> v.is_source(slot),
        v.selection(v.sorted(), false, true).contains(slot) <==> v.is_sink(slot),
        v.selection(v.sorted(), false, false).contains(slot) <==> v.is_isolated(slot),
{
    lemma_selection(v, v.sorted(), true, false, slot);
    lemma_selection(v, v.sorted(), false, true, slot);
    lemma_selection(v, v.sorted(), false, false, slot);
}

/// The notes that an index from links to notes holds for a link.
pub open spec fn referrers_in(backlinks: Seq<(LinkKey, Seq<usize>)>, key: LinkKey) -> Seq<usize> {
    if has_key(backlinks, key) {
        backlinks[position(backlinks, key)].1
    } else {
        seq![]
    }
}

/// Whether no two entries stand for the same link, and none is empty.
pub open spec fn backlinks_ok(backlinks: Seq<(LinkKey, Seq<usize>)>) -> bool {
    &&& forall|i: int, j: int|
        0 <= i < j < backlinks.len() ==> (#[trigger] backlinks[i]).0.folded() != (
        #[trigger] backlinks[j]).0.folded()
    &&& forall|i: int| 0 <= i < backlinks.len() ==> (#[trigger] backlinks[i]).1.len() > 0
}

/// In an index without two entries for one link, an entry is the one that
/// its link is looked up to.
pub proof fn lemma_position_of_entry<V>(entries: Seq<(LinkKey, V)>, p: int)
    requires
        0 <= p < entries.len(),
        forall|i: int, j: int|
            0 <= i < j < entries.len() ==> (#[trigger] entries[i]).0.folded() != (
            #[trigger] entries[j]).0.folded(),
    ensures
        position(entries, entries[p].0) == p,
{
    lemma_position(entries, entries[p].0);
    let q = position(entries, entries[p].0);
    if q < p {
        assert(entries[q].0.folded() != entries[p].0.folded());
    }
}

/// Entering a note under a link adds it to the notes held for that link,
/// and to no others.
pub proof fn lemma_with_referrer(
    backlinks: Seq<(LinkKey, Seq<usize>)>,
    link: LinkKey,
    slot: usize,
    key: LinkKey,
)
    requires
        backlinks_ok(backlinks),
    ensures
        backlinks_ok(with_referrer(backlinks, link, slot)),
        referrers_in(with_referrer(backlinks, link, slot), key)
            == (if key.folded() == link.folded() {
            referrers_in(backlinks, key).push(slot)
        } else {
            referrers_in(backlinks, key)
        }),
{
    let out = with_referrer(backlinks, link, slot);
    let p = position(backlinks, link);
    lemma_position(backlinks, link);
    lemma_position(backlinks, key);
    lemma_position(out, key);
    let q = position(backlinks, key);
    let r = position(out, key);
    assert forall|i: int, j: int| 0 <= i < j < out.len() implies (#[trigger] out[i]).0.folded() != (
    #[trigger] out[j]).0.folded() by {
        if j < backlinks.len() {
            assert(out[i].0 == backlinks[i].0 && out[j].0 == backlinks[j].0);
        } else {
            assert(out[i].0 == backlinks[i].0);
        }
    }
    assert(forall|i: int| 0 <= i < backlinks.len() ==> (#[trigger] out[i]).0 == backlinks[i].0);
    if q < backlinks.len() {
        assert(out[q].0 == backlinks[q].0);
        if r < q {
            assert(out[r].0 == backlinks[r].0);
        }
        assert(r == q);
        if key.folded() == link.folded() {
            if p < q {
                assert(backlinks[p].0.folded() != backlinks[q].0.folded());
            }
            if q < p {
                assert(backlinks[q].0.folded() != link.folded());
            }
            assert(p == q);
            assert(out[q].1 =~= backlinks[q].1.push(slot));
        } else {
            assert(p != q);
        }
    } else {
        if key.folded() == link.folded() {
            assert(p == backlinks.len());
            assert(out[backlinks.len() as int].0 == link);
            if r < backlinks.len() {
                assert(out[r].0 == backlinks[r].0);
            }
            assert(r == backlinks.len());
            assert(out[r].1 =~= Seq::<usize>::empty().push(slot));
        } else {
            if r < out.len() {
                if r < backlinks.len() {
                    assert(out[r].0 == backlinks[r].0);
                }
            }
        }
    }
}

/// Entering a note under each of its links adds it to the notes held for
/// those links, and to no others.
pub proof fn lemma_with_referrers(
    backlinks: Seq<(LinkKey, Seq<usize>)>,
    links: Seq<LinkKey>,
    slot: usize,
    key: LinkKey,
    r: usize,
)
    requires
        backlinks_ok(backlinks),
    ensures
        backlinks_ok(with_referrers(backlinks, links, slot)),
        referrers_in(with_referrers(backlinks, links, slot), key).contains(r) <==> referrers_in(
            backlinks,
            key,
        ).contains(r) || (r == slot && has_link(links, key)),
    decreases links.len(),
{
    if links.len() > 0 {
        let front = links.drop_last();
        let before = with_referrers(backlinks, front, slot);
        lemma_with_referrers(backlinks, front, slot, key, r);
        lemma_with_referrer(before, links.last(), slot, key);
        let out = with_referrers(backlinks, links, slot);
        let had = referrers_in(before, key);
        if key.folded() == links.last().folded() {
            assert(referrers_in(out, key) == had.push(slot));
            assert(links[links.len() - 1].folded() == key.folded());
            if had.push(slot).contains(r) {
                let k = choose|k: int| 0 <= k < had.push(slot).len() && had.push(slot)[k] == r;
                if k < had.len() {
                    assert(had[k] == r);
                }
            }
            if had.contains(r) {
                let k = choose|k: int| 0 <= k < had.len() && had[k] == r;
                assert(had.push(slot)[k] == r);
            }
            assert(had.push(slot)[had.len() as int] == slot);
        } else {
            if has_link(links, key) {
                let k = choose|k: int|
                    0 <= k < links.len() && (#[trigger] links[k]).folded() == key.folded();
                assert(front[k] == links[k]);
            }
            if has_link(front, key) {
                let k = choose|k: int|
                    0 <= k < front.len() && (#[trigger] front[k]).folded() == key.folded();
                assert(links[k] == front[k]);
            }
        }
    }
}

/// The index from links to the notes that hold them is exact: it holds a
/// note for a link exactly when one of the links of the note addresses the
/// same note as that link does.
pub proof fn lemma_backlinks_are_exact(v: CollectionView, key: LinkKey, r: usize)
    requires
        v.notes.len() <= usize::MAX,
    ensures
        backlinks_ok(v.backlinks()),
        v.referrers(key).contains(r) <==> r < v.notes.len() && has_link(v.notes[r as int].links, key),
    decreases v.notes.len(),
{
    if v.notes.len() > 0 {
        let before = CollectionView { cfg: v.cfg, notes: v.notes.drop_last() };
        lemma_backlinks_are_exact(before, key, r);
        let slot = (v.notes.len() - 1) as usize;
        lemma_with_referrers(before.backlinks(), v.notes.last().links, slot, key, r);
        assert(v.backlinks() == with_referrers(before.backlinks(), v.notes.last().links, slot));
        assert(v.referrers(key) == referrers_in(v.backlinks(), key));
        assert(before.referrers(key) == referrers_in(before.backlinks(), key));
        if r < slot {
            assert(before.notes[r as int] == v.notes[r as int]);
        }
    } else {
        assert(v.referrers(key) =~= Seq::<usize>::empty());
    }
}

/// Links that address the same note are looked up alike.
pub proof fn lemma_position_by_target<V>(entries: Seq<(LinkKey, V)>, a: LinkKey, b: LinkKey)
    requires
        a.folded() == b.folded(),
    ensures
        position(entries, a) == position(entries, b),
    decreases entries.len(),
{
    if entries.len() > 0 && entries[0].0.folded() != a.folded() {
        lemma_position_by_target(entries.drop_first(), a, b);
    }
}

/// The places of the broken links are those of the links that resolve to no
/// note.
pub proof fn lemma_broken_member(v: CollectionView, upto: int, p: int)
    requires
        0 <= upto <= v.backlinks().len(),
    ensures
        v.broken(upto).contains(p) <==> 0 <= p < upto && !has_key(v.index(), v.backlinks()[p].0),
    decreases upto,
{
    if upto > 0 {
        lemma_broken_member(v, upto - 1, p);
        let before = v.broken(upto - 1);
        let out = v.broken(upto);
        if out.contains(p) {
            let k = choose|k: int| 0 <= k < out.len() && out[k] == p;
            if k < before.len() {
                assert(before[k] == p);
                assert(before.contains(p));
            }
        }
        if 0 <= p < upto && !has_key(v.index(), v.backlinks()[p].0) {
            if p < upto - 1 {
                assert(before.contains(p));
                let k = choose|k: int| 0 <= k < before.len() && before[k] == p;
                assert(out[k] == p);
            } else {
                assert(out[out.len() - 1] == p);
            }
        }
    } else {
        assert(v.broken(upto) =~= Seq::<int>::empty());
    }
}

/// The places of the broken links stand in rising order.
pub proof fn lemma_broken_rising(v: CollectionView, upto: int)
    requires
        0 <= upto <= v.backlinks().len(),
    ensures
        forall|k: int| 0 <= k < v.broken(upto).len() ==> 0 <= (#[trigger] v.broken(upto)[k]) < upto,
        forall|i: int, j: int|
            0 <= i < j < v.broken(upto).len() ==> (#[trigger] v.broken(upto)[i]) < (
            #[trigger] v.broken(upto)[j]),
    decreases upto,
{
    if upto > 0 {
        lemma_broken_rising(v, upto - 1);
        let before = v.broken(upto - 1);
        let out = v.broken(upto);
        assert forall|k: int| 0 <= k < out.len() implies 0 <= (#[trigger] out[k]) < upto by {
            if k < before.len() {
                assert(out[k] == before[k]);
            }
        }
        assert forall|i: int, j: int| 0 <= i < j < out.len() implies (#[trigger] out[i]) < (
        #[trigger] out[j]) by {
            assert(out[i] == before[i]);
            if j < before.len() {
                assert(out[j] == before[j]);
            }
        }
    }
}

/// The broken links are exactly the links that some note holds and that
/// resolve to no note; every other link that a note holds resolves to a
/// note of the collection, which it addresses.
pub proof fn lemma_broken_links(v: CollectionView, key: LinkKey)
    requires
        v.notes.len() <= usize::MAX,
    ensures
        (exists|j: int|
            0 <= j < v.broken_links().len() && (#[trigger] v.broken_links()[j]).0.folded()
                == key.folded()) <==> has_key(v.backlinks(), key) && v.resolve(key) is None,
        v.resolve(key) matches Some(slot) ==> slot < v.notes.len() && is_self_link(
            v.notes[slot as int].file.stem,
            v.notes[slot as int].id,
            key,
        ),
{
    let backlinks = v.backlinks();
    let places = v.broken(backlinks.len() as int);
    lemma_broken_rising(v, backlinks.len() as int);
    lemma_position(backlinks, key);
    if v.resolve(key) is Some {
        lemma_indexed_notes_are_reachable(v, key);
    }
    if has_key(backlinks, key) && v.resolve(key) is None {
        let p = position(backlinks, key);
        lemma_position_by_target(v.index(), key, backlinks[p].0);
        lemma_broken_member(v, backlinks.len() as int, p);
        assert(places.contains(p));
        let j = choose|j: int| 0 <= j < places.len() && places[j] == p;
        assert(v.broken_links()[j].0 == backlinks[p].0);
    }
    if exists|j: int|
        0 <= j < v.broken_links().len() && (#[trigger] v.broken_links()[j]).0.folded()
            == key.folded() {
        let j = choose|j: int|
            0 <= j < v.broken_links().len() && (#[trigger] v.broken_links()[j]).0.folded()
                == key.folded();
        let p = places[j];
        assert(places.contains(p));
        lemma_broken_member(v, backlinks.len() as int, p);
        assert(v.broken_links()[j].0 == backlinks[p].0);
        lemma_position_by_target(v.index(), key, backlinks[p].0);
        let q = position(backlinks, key);
        if q > p {
            assert(backlinks[p].0.folded() != key.folded());
        }
    }
}

/// Each broken link is listed once, with all the notes that hold it.
pub proof fn lemma_broken_link_entries(v: CollectionView, i: int, j: int)
    requires
        v.notes.len() <= usize::MAX,
        0 <= i < v.broken_links().len(),
        0 <= j < v.broken_links().len(),
    ensures
        v.broken_links()[i].1 == v.metas_of(v.referrers(v.broken_links()[i].0)),
        v.broken_links()[i].1.len() > 0,
        i != j ==> v.broken_links()[i].0.folded() != v.broken_links()[j].0.folded(),
{
    let backlinks = v.backlinks();
    let places = v.broken(backlinks.len() as int);
    lemma_broken_rising(v, backlinks.len() as int);
    lemma_backlinks_are_exact(v, v.broken_links()[i].0, 0);
    assert(0 <= places[i] < backlinks.len());
    assert(0 <= places[j] < backlinks.len());
    lemma_position_of_entry(backlinks, places[i]);
    if i < j {
        assert(places[i] < places[j]);
    } else if j < i {
        assert(places[j] < places[i]);
    }
}

} // verus!
