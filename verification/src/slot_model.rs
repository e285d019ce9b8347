//! What a slotted page holds, seen apart from its byte layout: one entry per
//! slot id, either the bytes of a live record or nothing for a deleted slot.
//! Insertion and deletion are defined here on that view; the page code is
//! proved to follow them.
use vstd::prelude::*;

verus! {

/// Number of bytes that an entry keeps in the record area.
pub open spec fn entry_len(entry: Option<Seq<u8>>) -> int {
    match entry {
        Some(bytes) => bytes.len() as int,
        None => 0,
    }
}

/// Total size of the live records.
pub open spec fn stored_bytes(records: Seq<Option<Seq<u8>>>) -> int
    decreases records.len(),
{
    if records.len() == 0 {
        0
    } else {
        stored_bytes(records.drop_last()) + entry_len(records.last())
    }
}

/// Bytes taken by the header of a page with `num_slots` directory entries.
pub open spec fn header_size_of(num_slots: int) -> int {
    8 + 6 * num_slots
}

/// All the space that an insertion could use: the page without its header
/// and its live records, whether or not that space is contiguous.
pub open spec fn free_space_of(records: Seq<Option<Seq<u8>>>) -> int {
    4096 - header_size_of(records.len() as int) - stored_bytes(records)
}

/// The first deleted slot at or behind `from`, or the number of slots if
/// there is none.
pub open spec fn next_slot_from(records: Seq<Option<Seq<u8>>>, from: int) -> int
    decreases records.len() - from,
{
    if from < 0 || from >= records.len() {
        records.len() as int
    } else if records[from] is None {
        from
    } else {
        next_slot_from(records, from + 1)
    }
}

/// The slot id that the next insertion gets: the lowest deleted slot, or a
/// new one behind the last where none is deleted.
pub open spec fn next_slot_id(records: Seq<Option<Seq<u8>>>) -> int {
    next_slot_from(records, 0)
}

/// Free space that storing `len` bytes takes: the bytes, and a directory
/// entry unless a deleted slot is reused.
pub open spec fn insert_cost(records: Seq<Option<Seq<u8>>>, len: int) -> int {
    if next_slot_id(records) < records.len() {
        len
    } else {
        len + 6
    }
}

/// Whether a record of `len` bytes fits.
pub open spec fn can_add(records: Seq<Option<Seq<u8>>>, len: int) -> bool {
    insert_cost(records, len) <= free_space_of(records)
}

/// The entry that a slot gets when `bytes` are stored in it. A record
/// without bytes cannot be told from a deleted slot.
pub open spec fn entry_for(bytes: Seq<u8>) -> Option<Seq<u8>> {
    if bytes.len() > 0 {
        Some(bytes)
    } else {
        None
    }
}

/// The slot id that storing `bytes` returns, if they fit.
pub open spec fn add_result(records: Seq<Option<Seq<u8>>>, bytes: Seq<u8>) -> Option<u16> {
    if can_add(records, bytes.len() as int) {
        Some(next_slot_id(records) as u16)
    } else {
        None
    }
}

/// The records after storing `bytes`: unchanged if they do not fit.
pub open spec fn after_add(records: Seq<Option<Seq<u8>>>, bytes: Seq<u8>) -> Seq<Option<Seq<u8>>> {
    if !can_add(records, bytes.len() as int) {
        records
    } else if next_slot_id(records) < records.len() {
        records.update(next_slot_id(records), entry_for(bytes))
    } else {
        records.push(entry_for(bytes))
    }
}

/// The records after deleting slot `id`: unchanged if there is no such slot.
pub open spec fn after_delete(records: Seq<Option<Seq<u8>>>, id: int) -> Seq<Option<Seq<u8>>> {
    if 0 <= id < records.len() {
        records.update(id, None)
    } else {
        records
    }
}

/// What reading slot `id` gives.
pub open spec fn value_at(records: Seq<Option<Seq<u8>>>, id: int) -> Option<Seq<u8>> {
    if 0 <= id < records.len() {
        records[id]
    } else {
        None
    }
}

/// The live records from slot `from` on, each with its slot id, in
/// ascending order of slot id.
pub open spec fn live_items(records: Seq<Option<Seq<u8>>>, from: int) -> Seq<(Seq<u8>, u16)>
    decreases records.len() - from,
{
    if from < 0 || from >= records.len() {
        Seq::empty()
    } else if records[from] is Some {
        seq![(records[from]->Some_0, from as u16)] + live_items(records, from + 1)
    } else {
        live_items(records, from + 1)
    }
}

/// The live records take no less than no bytes.
pub proof fn lemma_stored_bytes_bounds(records: Seq<Option<Seq<u8>>>)
    ensures
        stored_bytes(records) >= 0,
    decreases records.len(),
{
    if records.len() > 0 {
        lemma_stored_bytes_bounds(records.drop_last());
    }
}

/// A slot more adds the bytes of its record.
pub proof fn lemma_stored_bytes_push(records: Seq<Option<Seq<u8>>>, entry: Option<Seq<u8>>)
    ensures
        stored_bytes(records.push(entry)) == stored_bytes(records) + entry_len(entry),
{
    assert(records.push(entry).drop_last() =~= records);
}

/// A changed slot takes the bytes of its old record away and adds those
/// of its new one.
pub proof fn lemma_stored_bytes_update(
    records: Seq<Option<Seq<u8>>>,
    index: int,
    entry: Option<Seq<u8>>,
)
    requires
        0 <= index < records.len(),
    ensures
        stored_bytes(records.update(index, entry)) == stored_bytes(records) - entry_len(
            records[index],
        ) + entry_len(entry),
    decreases records.len(),
{
    let updated = records.update(index, entry);
    if index == records.len() - 1 {
        assert(updated.drop_last() =~= records.drop_last());
    } else {
        lemma_stored_bytes_update(records.drop_last(), index, entry);
        assert(updated.drop_last() =~= records.drop_last().update(index, entry));
    }
}

/// The first slots and one more take the bytes of the first and those of
/// the one.
pub proof fn lemma_stored_bytes_take(records: Seq<Option<Seq<u8>>>, count: int)
    requires
        0 <= count < records.len(),
    ensures
        stored_bytes(records.take(count + 1)) == stored_bytes(records.take(count)) + entry_len(
            records[count],
        ),
{
    assert(records.take(count + 1).drop_last() =~= records.take(count));
}

/// `next_slot_from` gives a deleted slot none of whose predecessors from
/// `from` on is deleted, or the number of slots.
pub proof fn lemma_next_slot_from(records: Seq<Option<Seq<u8>>>, from: int)
    requires
        0 <= from <= records.len(),
    ensures
        from <= next_slot_from(records, from) <= records.len(),
        next_slot_from(records, from) < records.len() ==> records[next_slot_from(
            records,
            from,
        )] is None,
        forall|j: int| from <= j < next_slot_from(records, from) ==> records[j] is Some,
    decreases records.len() - from,
{
    if from < records.len() && records[from] is Some {
        lemma_next_slot_from(records, from + 1);
    }
}

/// One change to a page: storing a record or deleting a slot.
pub enum PageOp {
    Add(Seq<u8>),
    Delete(u16),
}

/// The records after one change.
pub open spec fn after_op(records: Seq<Option<Seq<u8>>>, op: PageOp) -> Seq<Option<Seq<u8>>> {
    match op {
        PageOp::Add(bytes) => after_add(records, bytes),
        PageOp::Delete(id) => after_delete(records, id as int),
    }
}

/// The records after a run of changes, first to last.
pub open spec fn after_ops(records: Seq<Option<Seq<u8>>>, ops: Seq<PageOp>) -> Seq<
    Option<Seq<u8>>,
>
    decreases ops.len(),
{
    if ops.len() == 0 {
        records
    } else {
        after_ops(after_op(records, ops[0]), ops.drop_first())
    }
}

/// An insertion goes to the lowest deleted slot, which stays the only slot
/// it touches; only where no slot is deleted does the directory grow, by
/// that one slot.
pub proof fn lemma_add_takes_lowest_deleted(records: Seq<Option<Seq<u8>>>, bytes: Seq<u8>)
    requires
        add_result(records, bytes) is Some,
    ensures
        ({
            let id = add_result(records, bytes)->Some_0 as int;
            let after = after_add(records, bytes);
            &&& 0 <= id <= records.len()
            &&& forall|j: int| 0 <= j < id ==> records[j] is Some
            &&& id < records.len() ==> records[id] is None && after.len() == records.len()
            &&& id == records.len() ==> after.len() == records.len() + 1
            &&& after[id] == entry_for(bytes)
            &&& forall|j: int| 0 <= j < records.len() && j != id ==> after[j] == records[j]
        }),
{
    lemma_next_slot_from(records, 0);
    lemma_stored_bytes_bounds(records);
}

/// After a slot was deleted, the next insertion that fits appends no
/// directory entry: it gets the lowest deleted slot id, which is the
/// deleted one or a lower one.
pub proof fn lemma_deleted_slot_is_reused(
    records: Seq<Option<Seq<u8>>>,
    deleted: u16,
    bytes: Seq<u8>,
)
    requires
        deleted < records.len(),
        add_result(after_delete(records, deleted as int), bytes) is Some,
    ensures
        ({
            let before = after_delete(records, deleted as int);
            let id = add_result(before, bytes)->Some_0 as int;
            &&& id <= deleted
            &&& before[id] is None
            &&& forall|j: int| 0 <= j < id ==> before[j] is Some
            &&& after_add(before, bytes).len() == records.len()
        }),
{
    let before = after_delete(records, deleted as int);
    lemma_next_slot_from(before, 0);
    lemma_stored_bytes_bounds(before);
    if next_slot_id(before) > deleted {
        assert(before[deleted as int] is Some);
    }
}

/// A record, once stored in a slot, is read back from that slot unchanged
/// after any run of insertions and deletions that does not delete that
/// slot.
pub proof fn lemma_slot_keeps_its_record(
    records: Seq<Option<Seq<u8>>>,
    id: u16,
    ops: Seq<PageOp>,
)
    requires
        value_at(records, id as int) is Some,
        forall|k: int| 0 <= k < ops.len() ==> ops[k] != PageOp::Delete(id),
    ensures
        value_at(after_ops(records, ops), id as int) == value_at(records, id as int),
    decreases ops.len(),
{
    if ops.len() > 0 {
        let next = after_op(records, ops[0]);
        match ops[0] {
            PageOp::Add(bytes) => {
                lemma_next_slot_from(records, 0);
            },
            PageOp::Delete(other) => {
                assert(other != id);
            },
        }
        assert(value_at(next, id as int) == value_at(records, id as int));
        let rest = ops.drop_first();
        assert forall|k: int| 0 <= k < rest.len() implies rest[k] != PageOp::Delete(id) by {
            assert(rest[k] == ops[k + 1]);
        }
        lemma_slot_keeps_its_record(next, id, rest);
    }
}

/// What an insertion of at least one byte returns is the slot from which
/// those bytes are read back.
pub proof fn lemma_added_record_is_read_back(records: Seq<Option<Seq<u8>>>, bytes: Seq<u8>)
    requires
        add_result(records, bytes) is Some,
        bytes.len() > 0,
    ensures
        value_at(after_add(records, bytes), add_result(records, bytes)->Some_0 as int) == Some(
            bytes,
        ),
{
    lemma_next_slot_from(records, 0);
    lemma_stored_bytes_bounds(records);
}

/// What iterating over a page yields from slot `from` on: the live
/// records and no others, each once, in ascending order of slot id.
pub proof fn lemma_live_items(records: Seq<Option<Seq<u8>>>, from: int)
    requires
        0 <= from,
        records.len() <= 0x10000,
    ensures
        forall|k: int|
            0 <= k < live_items(records, from).len() ==> {
                let item = #[trigger] live_items(records, from)[k];
                from <= item.1 < records.len() && records[item.1 as int] == Some(item.0)
            },
        forall|i: int, j: int|
            0 <= i < j < live_items(records, from).len() ==> (#[trigger] live_items(
                records,
                from,
            )[i]).1 < (#[trigger] live_items(records, from)[j]).1,
        forall|s: int|
            from <= s < records.len() && (#[trigger] records[s]) is Some ==> live_items(
                records,
                from,
            ).contains((records[s]->Some_0, s as u16)),
    decreases records.len() - from,
{
    if from < records.len() {
        lemma_live_items(records, from + 1);
        let items = live_items(records, from);
        let tail = live_items(records, from + 1);
        if records[from] is Some {
            let head = (records[from]->Some_0, from as u16);
            assert(items =~= seq![head] + tail);
            assert forall|k: int| 0 <= k < items.len() implies {
                let item = #[trigger] items[k];
                from <= item.1 < records.len() && records[item.1 as int] == Some(item.0)
            } by {
                if k > 0 {
                    assert(items[k] == tail[k - 1]);
                }
            }
            assert forall|i: int, j: int| 0 <= i < j < items.len() implies (#[trigger] items[i]).1
                < (#[trigger] items[j]).1 by {
                assert(items[j] == tail[j - 1]);
                if i > 0 {
                    assert(items[i] == tail[i - 1]);
                }
            }
            assert forall|s: int|
                from <= s < records.len() && (#[trigger] records[s]) is Some implies items.contains(
                (records[s]->Some_0, s as u16),
            ) by {
                if s == from {
                    assert(items[0] == head);
                } else {
                    let wanted = (records[s]->Some_0, s as u16);
                    assert(tail.contains(wanted));
                    let k = choose|k: int| 0 <= k < tail.len() && tail[k] == wanted;
                    assert(items[k + 1] == wanted);
                }
            }
        } else {
            assert(items =~= tail);
        }
    }
}

} // verus!
