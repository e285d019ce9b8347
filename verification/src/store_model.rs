//! What a heap file holds, seen apart from bytes: for each page, in order
//! of page id, the records of its slots. Insertion, deletion and iteration
//! over a file are defined here on that view.
use vstd::prelude::*;
use crate::ids::ValueId;
use crate::slot_model::{
    add_result, after_add, after_delete, can_add, lemma_add_takes_lowest_deleted,
    lemma_added_record_is_read_back, lemma_live_items, live_items, value_at,
};
use crate::{ContainerId, PageId, SlotId};

verus! {

/// The most pages that a heap file holds: as many as page ids can count.
pub open spec fn max_pages() -> int {
    0xFFFF
}

/// The identifier of the value in slot `slot_id` of page `page_id`.
pub open spec fn value_id_of(container_id: ContainerId, page_id: int, slot_id: int) -> ValueId {
    ValueId {
        container_id,
        segment_id: None,
        page_id: Some(page_id as PageId),
        slot_id: Some(slot_id as SlotId),
    }
}

/// The first page at or behind `from` that takes a record of `len` bytes,
/// or the number of pages if none does.
pub open spec fn first_fit_from(pages: Seq<Seq<Option<Seq<u8>>>>, len: int, from: int) -> int
    decreases pages.len() - from,
{
    if from < 0 || from >= pages.len() {
        pages.len() as int
    } else if can_add(pages[from], len) {
        from
    } else {
        first_fit_from(pages, len, from + 1)
    }
}

/// The page that an insertion of `len` bytes goes to: the first page that
/// takes them, or a new page behind the last.
pub open spec fn first_fit(pages: Seq<Seq<Option<Seq<u8>>>>, len: int) -> int {
    first_fit_from(pages, len, 0)
}

/// Whether an insertion of `len` bytes finds a place: on a page that is
/// there, or on a new page, if the file can grow and an empty page takes
/// them.
pub open spec fn has_room(pages: Seq<Seq<Option<Seq<u8>>>>, len: int) -> bool {
    first_fit(pages, len) < pages.len() || (pages.len() < max_pages() && can_add(
        Seq::empty(),
        len,
    ))
}

/// The pages after storing `bytes`.
pub open spec fn pages_after_insert(pages: Seq<Seq<Option<Seq<u8>>>>, bytes: Seq<u8>) -> Seq<
    Seq<Option<Seq<u8>>>,
> {
    let page = first_fit(pages, bytes.len() as int);
    if page < pages.len() {
        pages.update(page, after_add(pages[page], bytes))
    } else {
        pages.push(after_add(Seq::empty(), bytes))
    }
}

/// The slot that storing `bytes` puts them in.
pub open spec fn slot_after_insert(pages: Seq<Seq<Option<Seq<u8>>>>, bytes: Seq<u8>) -> int {
    let page = first_fit(pages, bytes.len() as int);
    if page < pages.len() {
        add_result(pages[page], bytes)->Some_0 as int
    } else {
        0
    }
}

/// The pages after deleting slot `slot_id` of page `page_id`: unchanged
/// if there is no such page or slot.
pub open spec fn pages_after_delete(
    pages: Seq<Seq<Option<Seq<u8>>>>,
    page_id: int,
    slot_id: int,
) -> Seq<Seq<Option<Seq<u8>>>> {
    if 0 <= page_id < pages.len() {
        pages.update(page_id, after_delete(pages[page_id], slot_id))
    } else {
        pages
    }
}

/// What reading slot `slot_id` of page `page_id` gives.
pub open spec fn stored_value(pages: Seq<Seq<Option<Seq<u8>>>>, page_id: int, slot_id: int) -> Option<
    Seq<u8>,
> {
    if 0 <= page_id < pages.len() {
        value_at(pages[page_id], slot_id)
    } else {
        None
    }
}

/// The identifier that storing `bytes` returns.
pub open spec fn id_after_insert(
    container_id: ContainerId,
    pages: Seq<Seq<Option<Seq<u8>>>>,
    bytes: Seq<u8>,
) -> ValueId {
    value_id_of(
        container_id,
        first_fit(pages, bytes.len() as int),
        slot_after_insert(pages, bytes),
    )
}

/// Whether each of `values`, stored one after the other, finds a place.
pub open spec fn have_room(pages: Seq<Seq<Option<Seq<u8>>>>, values: Seq<Seq<u8>>) -> bool
    decreases values.len(),
{
    values.len() > 0 ==> has_room(pages, values[0].len() as int) && have_room(
        pages_after_insert(pages, values[0]),
        values.drop_first(),
    )
}

/// The pages after storing `values` one after the other.
pub open spec fn pages_after_inserts(pages: Seq<Seq<Option<Seq<u8>>>>, values: Seq<Seq<u8>>) -> Seq<
    Seq<Option<Seq<u8>>>,
>
    decreases values.len(),
{
    if values.len() == 0 {
        pages
    } else {
        pages_after_inserts(pages_after_insert(pages, values[0]), values.drop_first())
    }
}

/// The identifiers that storing `values` one after the other returns, in
/// the order of the values.
pub open spec fn ids_after_inserts(
    container_id: ContainerId,
    pages: Seq<Seq<Option<Seq<u8>>>>,
    values: Seq<Seq<u8>>,
) -> Seq<ValueId>
    decreases values.len(),
{
    if values.len() == 0 {
        Seq::empty()
    } else {
        seq![id_after_insert(container_id, pages, values[0])] + ids_after_inserts(
            container_id,
            pages_after_insert(pages, values[0]),
            values.drop_first(),
        )
    }
}

/// Whether deleting the value that `id` names fails: it names a page and
/// a slot, and the page is not there.
pub open spec fn delete_fails(pages: Option<Seq<Seq<Option<Seq<u8>>>>>, id: ValueId) -> bool {
    id.page_id is Some && id.slot_id is Some && (pages is None || id.page_id->Some_0
        >= pages->Some_0.len())
}

/// The pages after deleting the value that `id` names: unchanged where
/// `id` names no page or no slot.
pub open spec fn pages_after_delete_of(pages: Seq<Seq<Option<Seq<u8>>>>, id: ValueId) -> Seq<
    Seq<Option<Seq<u8>>>,
> {
    if id.page_id is Some && id.slot_id is Some {
        pages_after_delete(pages, id.page_id->Some_0 as int, id.slot_id->Some_0 as int)
    } else {
        pages
    }
}

/// A record of page `page_id` with the identifier under which the storage
/// manager knows it.
pub open spec fn with_value_id(container_id: ContainerId, page_id: int, item: (Seq<u8>, SlotId)) -> (
    Seq<u8>,
    ValueId,
) {
    (item.0, value_id_of(container_id, page_id, item.1 as int))
}

/// The records `items` of page `page_id`, each with its identifier.
pub open spec fn with_value_ids(
    container_id: ContainerId,
    page_id: int,
    items: Seq<(Seq<u8>, SlotId)>,
) -> Seq<(Seq<u8>, ValueId)> {
    Seq::new(items.len(), |k: int| with_value_id(container_id, page_id, items[k]))
}

/// The live records of the pages from `from` on, each with its identifier,
/// in ascending order of page id and, within a page, of slot id.
pub open spec fn file_values(
    container_id: ContainerId,
    pages: Seq<Seq<Option<Seq<u8>>>>,
    from: int,
) -> Seq<(Seq<u8>, ValueId)>
    decreases pages.len() - from,
{
    if from < 0 || from >= pages.len() {
        Seq::empty()
    } else {
        with_value_ids(container_id, from, live_items(pages[from], 0)) + file_values(
            container_id,
            pages,
            from + 1,
        )
    }
}

/// `first_fit_from` gives a page that takes the record, none of whose
/// predecessors from `from` on does, or the number of pages.
pub proof fn lemma_first_fit_from(pages: Seq<Seq<Option<Seq<u8>>>>, len: int, from: int)
    requires
        0 <= from <= pages.len(),
    ensures
        from <= first_fit_from(pages, len, from) <= pages.len(),
        first_fit_from(pages, len, from) < pages.len() ==> can_add(
            pages[first_fit_from(pages, len, from)],
            len,
        ),
        forall|p: int| from <= p < first_fit_from(pages, len, from) ==> !can_add(pages[p], len),
    decreases pages.len() - from,
{
    if from < pages.len() && !can_add(pages[from], len) {
        lemma_first_fit_from(pages, len, from + 1);
    }
}

/// Whether page and slot ids can name every page and every slot.
pub open spec fn ids_suffice(pages: Seq<Seq<Option<Seq<u8>>>>) -> bool {
    &&& pages.len() <= 0x10000
    &&& forall|p: int| 0 <= p < pages.len() ==> (#[trigger] pages[p]).len() <= 0x10000
}

/// Whether `a` names a value that iteration reaches before that of `b`:
/// on an earlier page, or on the same page in an earlier slot.
pub open spec fn comes_before(a: ValueId, b: ValueId) -> bool {
    a.page_id->Some_0 < b.page_id->Some_0 || (a.page_id->Some_0 == b.page_id->Some_0
        && a.slot_id->Some_0 < b.slot_id->Some_0)
}

/// What iterating over a file yields from page `from` on: the stored
/// values and no others, each under its own identifier, in ascending
/// order of page id and slot id.
pub proof fn lemma_file_values(
    container_id: ContainerId,
    pages: Seq<Seq<Option<Seq<u8>>>>,
    from: int,
)
    requires
        0 <= from,
        ids_suffice(pages),
    ensures
        forall|k: int|
            0 <= k < file_values(container_id, pages, from).len() ==> {
                let item = #[trigger] file_values(container_id, pages, from)[k];
                &&& item.1.page_id is Some
                &&& item.1.slot_id is Some
                &&& from <= item.1.page_id->Some_0 < pages.len()
                &&& item.1 == value_id_of(
                    container_id,
                    item.1.page_id->Some_0 as int,
                    item.1.slot_id->Some_0 as int,
                )
                &&& stored_value(
                    pages,
                    item.1.page_id->Some_0 as int,
                    item.1.slot_id->Some_0 as int,
                ) == Some(item.0)
            },
        forall|i: int, j: int|
            0 <= i < j < file_values(container_id, pages, from).len() ==> comes_before(
                (#[trigger] file_values(container_id, pages, from)[i]).1,
                (#[trigger] file_values(container_id, pages, from)[j]).1,
            ),
        forall|p: int, s: int|
            from <= p < pages.len() && (#[trigger] stored_value(pages, p, s)) is Some
                ==> file_values(container_id, pages, from).contains(
                (stored_value(pages, p, s)->Some_0, value_id_of(container_id, p, s)),
            ),
    decreases pages.len() - from,
{
    if from < pages.len() {
        lemma_file_values(container_id, pages, from + 1);
        lemma_live_items(pages[from], 0);
        let all = file_values(container_id, pages, from);
        let items = live_items(pages[from], 0);
        let head = with_value_ids(container_id, from, items);
        let tail = file_values(container_id, pages, from + 1);
        assert(all == head + tail);
        assert forall|k: int| 0 <= k < all.len() implies {
            let item = #[trigger] all[k];
            &&& item.1.page_id is Some
            &&& item.1.slot_id is Some
            &&& from <= item.1.page_id->Some_0 < pages.len()
            &&& item.1 == value_id_of(
                container_id,
                item.1.page_id->Some_0 as int,
                item.1.slot_id->Some_0 as int,
            )
            &&& stored_value(pages, item.1.page_id->Some_0 as int, item.1.slot_id->Some_0 as int)
                == Some(item.0)
        } by {
            if k < head.len() {
                assert(all[k] == with_value_id(container_id, from, items[k]));
            } else {
                assert(all[k] == tail[k - head.len()]);
            }
        }
        assert forall|i: int, j: int| 0 <= i < j < all.len() implies comes_before(
            (#[trigger] all[i]).1,
            (#[trigger] all[j]).1,
        ) by {
            if j < head.len() {
                assert(all[i] == with_value_id(container_id, from, items[i]));
                assert(all[j] == with_value_id(container_id, from, items[j]));
            } else if i < head.len() {
                assert(all[i] == with_value_id(container_id, from, items[i]));
                assert(all[j] == tail[j - head.len()]);
            } else {
                assert(all[i] == tail[i - head.len()]);
                assert(all[j] == tail[j - head.len()]);
            }
        }
        assert forall|p: int, s: int|
            from <= p < pages.len() && (#[trigger] stored_value(pages, p, s)) is Some implies all.contains(
            (stored_value(pages, p, s)->Some_0, value_id_of(container_id, p, s)),
        ) by {
            let wanted = (stored_value(pages, p, s)->Some_0, value_id_of(container_id, p, s));
            if p == from {
                assert(pages[from][s] is Some);
                let item = (pages[from][s]->Some_0, s as u16);
                assert(items.contains(item));
                let k = choose|k: int| 0 <= k < items.len() && items[k] == item;
                assert(all[k] == with_value_id(container_id, from, items[k]));
                assert(all[k] == wanted);
            } else {
                assert(tail.contains(wanted));
                let k = choose|k: int| 0 <= k < tail.len() && tail[k] == wanted;
                assert(all[k + head.len()] == wanted);
            }
        }
    }
}

/// Iterating over a container yields exactly its stored values: what is
/// yielded is stored under the identifier it comes with, and what is
/// stored is yielded.
pub proof fn lemma_iteration_is_complete(
    container_id: ContainerId,
    pages: Seq<Seq<Option<Seq<u8>>>>,
    page_id: PageId,
    slot_id: SlotId,
    bytes: Seq<u8>,
)
    requires
        ids_suffice(pages),
    ensures
        file_values(container_id, pages, 0).contains(
            (bytes, value_id_of(container_id, page_id as int, slot_id as int)),
        ) <==> stored_value(pages, page_id as int, slot_id as int) == Some(bytes),
{
    lemma_file_values(container_id, pages, 0);
    let all = file_values(container_id, pages, 0);
    let wanted = (bytes, value_id_of(container_id, page_id as int, slot_id as int));
    if all.contains(wanted) {
        let k = choose|k: int| 0 <= k < all.len() && all[k] == wanted;
        assert(all[k].1.page_id->Some_0 == page_id);
    }
    if stored_value(pages, page_id as int, slot_id as int) == Some(bytes) {
        assert(stored_value(pages, page_id as int, slot_id as int) is Some);
    }
}

/// Iterating over a container yields its values in ascending order of
/// page id and, within a page, of slot id.
pub proof fn lemma_iteration_is_ascending(
    container_id: ContainerId,
    pages: Seq<Seq<Option<Seq<u8>>>>,
    i: int,
    j: int,
)
    requires
        ids_suffice(pages),
        0 <= i < j < file_values(container_id, pages, 0).len(),
    ensures
        comes_before(
            file_values(container_id, pages, 0)[i].1,
            file_values(container_id, pages, 0)[j].1,
        ),
{
    lemma_file_values(container_id, pages, 0);
}

/// An insertion never takes a page away, and adds at most one.
pub proof fn lemma_insert_adds_at_most_one_page(pages: Seq<Seq<Option<Seq<u8>>>>, bytes: Seq<u8>)
    ensures
        pages.len() <= pages_after_insert(pages, bytes).len() <= pages.len() + 1,
{
    lemma_first_fit_from(pages, bytes.len() as int, 0);
}

/// An insertion changes one page, and on it one slot that held nothing,
/// or adds a page: every value that was stored stays stored where it was.
pub proof fn lemma_insert_keeps_values(
    pages: Seq<Seq<Option<Seq<u8>>>>,
    bytes: Seq<u8>,
    page_id: int,
    slot_id: int,
)
    requires
        has_room(pages, bytes.len() as int),
        stored_value(pages, page_id, slot_id) is Some,
    ensures
        stored_value(pages_after_insert(pages, bytes), page_id, slot_id) == stored_value(
            pages,
            page_id,
            slot_id,
        ),
{
    lemma_first_fit_from(pages, bytes.len() as int, 0);
    let page = first_fit(pages, bytes.len() as int);
    if page < pages.len() {
        lemma_add_takes_lowest_deleted(pages[page], bytes);
    }
}

/// What was stored, if it has at least one byte, is read back under the
/// identifier that the insertion returned.
pub proof fn lemma_inserted_value_is_read_back(pages: Seq<Seq<Option<Seq<u8>>>>, bytes: Seq<u8>)
    requires
        has_room(pages, bytes.len() as int),
        bytes.len() > 0,
    ensures
        stored_value(
            pages_after_insert(pages, bytes),
            first_fit(pages, bytes.len() as int),
            slot_after_insert(pages, bytes),
        ) == Some(bytes),
{
    lemma_first_fit_from(pages, bytes.len() as int, 0);
    let page = first_fit(pages, bytes.len() as int);
    if page < pages.len() {
        lemma_added_record_is_read_back(pages[page], bytes);
    } else {
        lemma_added_record_is_read_back(Seq::empty(), bytes);
    }
}

/// A value that was deleted is read no more.
pub proof fn lemma_deleted_value_is_gone(
    pages: Seq<Seq<Option<Seq<u8>>>>,
    page_id: int,
    slot_id: int,
)
    ensures
        stored_value(pages_after_delete(pages, page_id, slot_id), page_id, slot_id) is None,
{
}

/// One change to a container: storing a value or deleting one.
pub enum StoreOp {
    Insert(Seq<u8>),
    Delete(PageId, SlotId),
}

/// Whether each change of a run can be made when its turn comes.
pub open spec fn ops_have_room(pages: Seq<Seq<Option<Seq<u8>>>>, ops: Seq<StoreOp>) -> bool
    decreases ops.len(),
{
    ops.len() > 0 ==> (match ops[0] {
        StoreOp::Insert(bytes) => has_room(pages, bytes.len() as int),
        StoreOp::Delete(_, _) => true,
    }) && ops_have_room(pages_after_op(pages, ops[0]), ops.drop_first())
}

/// The pages after one change.
pub open spec fn pages_after_op(pages: Seq<Seq<Option<Seq<u8>>>>, op: StoreOp) -> Seq<
    Seq<Option<Seq<u8>>>,
> {
    match op {
        StoreOp::Insert(bytes) => pages_after_insert(pages, bytes),
        StoreOp::Delete(page_id, slot_id) => pages_after_delete(
            pages,
            page_id as int,
            slot_id as int,
        ),
    }
}

/// The pages after a run of changes, first to last.
pub open spec fn pages_after_ops(pages: Seq<Seq<Option<Seq<u8>>>>, ops: Seq<StoreOp>) -> Seq<
    Seq<Option<Seq<u8>>>,
>
    decreases ops.len(),
{
    if ops.len() == 0 {
        pages
    } else {
        pages_after_ops(pages_after_op(pages, ops[0]), ops.drop_first())
    }
}

/// A stored value is read back unchanged under its identifier after any
/// run of insertions and deletions that does not delete it. (An update
/// is a deletion and an insertion.)
pub proof fn lemma_value_stays_until_deleted(
    pages: Seq<Seq<Option<Seq<u8>>>>,
    page_id: PageId,
    slot_id: SlotId,
    ops: Seq<StoreOp>,
)
    requires
        stored_value(pages, page_id as int, slot_id as int) is Some,
        ops_have_room(pages, ops),
        forall|k: int| 0 <= k < ops.len() ==> ops[k] != StoreOp::Delete(page_id, slot_id),
    ensures
        stored_value(pages_after_ops(pages, ops), page_id as int, slot_id as int) == stored_value(
            pages,
            page_id as int,
            slot_id as int,
        ),
    decreases ops.len(),
{
    if ops.len() > 0 {
        let next = pages_after_op(pages, ops[0]);
        match ops[0] {
            StoreOp::Insert(bytes) => {
                lemma_insert_keeps_values(pages, bytes, page_id as int, slot_id as int);
            },
            StoreOp::Delete(p, s) => {
                assert(p != page_id || s != slot_id);
            },
        }
        let rest = ops.drop_first();
        assert forall|k: int| 0 <= k < rest.len() implies rest[k] != StoreOp::Delete(
            page_id,
            slot_id,
        ) by {
            assert(rest[k] == ops[k + 1]);
        }
        lemma_value_stays_until_deleted(next, page_id, slot_id, rest);
    }
}

} // verus!
