//! The slotted-page layout: a header of slot entries at the front of the
//! page, record bytes packed against its tail, free space in between.
//!
//! | region         | offset       | size            |
//! |----------------|--------------|-----------------|
//! | page metadata  | 0            | 8               |
//! | slot directory | 8            | 6 per slot      |
//! | free space     | `free_start` | `free_size`     |
//! | records        | grows down from `PAGE_SIZE`    |
use vstd::prelude::*;
use crate::page::{high_byte, low_byte, u16_at, Page};
use crate::slot_model::{
    stored_bytes, free_space_of, next_slot_id, can_add, entry_for, add_result,
    after_add, after_delete, value_at, entry_len, live_items, lemma_stored_bytes_bounds,
    lemma_stored_bytes_push, lemma_stored_bytes_update, lemma_stored_bytes_take,
    lemma_next_slot_from,
};
use crate::{PageId, SlotId, PAGE_SIZE};

verus! {

/// Bytes taken by one entry of the slot directory.
pub const SLOT_ENTRY_SIZE: usize = 6;

/// The fixed part of a page header. Every member takes two bytes.
#[derive(Debug, Clone, Copy, PartialEq, Eq, Structural)]
pub struct PageMetadata {
    /// The page id.
    pub page_id: PageId,
    /// The number of entries in the slot directory.
    pub num_slots: u16,
    /// Where the free space begins, which is where the slot directory ends.
    pub offset_of_free_space: u16,
    /// The size of the contiguous free space behind the slot directory.
    pub size_of_free_space: u16,
}

/// One entry of the slot directory.
#[derive(Debug, Clone, Copy, PartialEq, Eq, Structural)]
pub struct Slot {
    /// The slot id.
    pub slot_id: u16,
    /// Where the record begins.
    pub offset_of_record: u16,
    /// The size of the record; zero marks a deleted slot.
    pub size_of_record: u16,
}

/// The whole header of a page: metadata and slot directory.
#[derive(Debug, Clone)]
pub struct Header {
    pub pagemetadata: PageMetadata,
    pub slots: Vec<Slot>,
}

/// The metadata that the first eight bytes of `bytes` encode.
pub open spec fn metadata_of(bytes: Seq<u8>) -> PageMetadata {
    PageMetadata {
        page_id: u16_at(bytes, 0),
        num_slots: u16_at(bytes, 2),
        offset_of_free_space: u16_at(bytes, 4),
        size_of_free_space: u16_at(bytes, 6),
    }
}

/// The slot that the six bytes from `at` on encode.
pub open spec fn slot_of(bytes: Seq<u8>, at: int) -> Slot {
    Slot {
        slot_id: u16_at(bytes, at),
        offset_of_record: u16_at(bytes, at + 2),
        size_of_record: u16_at(bytes, at + 4),
    }
}

/// Where the `index`-th directory entry begins in a page image.
pub open spec fn slot_position(index: int) -> int {
    8 + 6 * index
}

/// The slot directory that a page image encodes.
pub open spec fn slots_of(image: Seq<u8>) -> Seq<Slot> {
    Seq::new(metadata_of(image).num_slots as nat, |i: int| slot_of(image, slot_position(i)))
}

/// The eight bytes that encode `meta`.
pub open spec fn metadata_bytes(meta: PageMetadata) -> Seq<u8> {
    seq![
        low_byte(meta.page_id),
        high_byte(meta.page_id),
        low_byte(meta.num_slots),
        high_byte(meta.num_slots),
        low_byte(meta.offset_of_free_space),
        high_byte(meta.offset_of_free_space),
        low_byte(meta.size_of_free_space),
        high_byte(meta.size_of_free_space),
    ]
}

/// The six bytes that encode `slot`.
pub open spec fn slot_bytes(slot: Slot) -> Seq<u8> {
    seq![
        low_byte(slot.slot_id),
        high_byte(slot.slot_id),
        low_byte(slot.offset_of_record),
        high_byte(slot.offset_of_record),
        low_byte(slot.size_of_record),
        high_byte(slot.size_of_record),
    ]
}

impl PageMetadata {
    /// The eight bytes of the metadata, each member little-endian.
    pub fn to_bytes(&self) -> (bytes: Vec<u8>)
        ensures
            bytes@ == metadata_bytes(*self),
            metadata_of(bytes@) == *self,
    {
        let mut bytes: Vec<u8> = Vec::new();
        bytes.push((self.page_id % 256) as u8);
        bytes.push((self.page_id / 256) as u8);
        bytes.push((self.num_slots % 256) as u8);
        bytes.push((self.num_slots / 256) as u8);
        bytes.push((self.offset_of_free_space % 256) as u8);
        bytes.push((self.offset_of_free_space / 256) as u8);
        bytes.push((self.size_of_free_space % 256) as u8);
        bytes.push((self.size_of_free_space / 256) as u8);
        assert(bytes@ =~= metadata_bytes(*self));
        bytes
    }

    /// The metadata that the first eight of `bytes` encode.
    pub fn from_bytes(bytes: &[u8]) -> (meta: PageMetadata)
        requires
            bytes@.len() >= 8,
        ensures
            meta == metadata_of(bytes@),
    {
        PageMetadata {
            page_id: bytes[0] as u16 + 256 * (bytes[1] as u16),
            num_slots: bytes[2] as u16 + 256 * (bytes[3] as u16),
            offset_of_free_space: bytes[4] as u16 + 256 * (bytes[5] as u16),
            size_of_free_space: bytes[6] as u16 + 256 * (bytes[7] as u16),
        }
    }
}

impl Slot {
    /// The six bytes of the entry, each member little-endian.
    pub fn to_bytes(&self) -> (bytes: Vec<u8>)
        ensures
            bytes@ == slot_bytes(*self),
            slot_of(bytes@, 0) == *self,
    {
        let mut bytes: Vec<u8> = Vec::new();
        bytes.push((self.slot_id % 256) as u8);
        bytes.push((self.slot_id / 256) as u8);
        bytes.push((self.offset_of_record % 256) as u8);
        bytes.push((self.offset_of_record / 256) as u8);
        bytes.push((self.size_of_record % 256) as u8);
        bytes.push((self.size_of_record / 256) as u8);
        assert(bytes@ =~= slot_bytes(*self));
        bytes
    }

    /// The entry that the first six of `bytes` encode.
    pub fn from_bytes(bytes: &[u8]) -> (slot: Slot)
        requires
            bytes@.len() >= 6,
        ensures
            slot == slot_of(bytes@, 0),
    {
        Slot {
            slot_id: bytes[0] as u16 + 256 * (bytes[1] as u16),
            offset_of_record: bytes[2] as u16 + 256 * (bytes[3] as u16),
            size_of_record: bytes[4] as u16 + 256 * (bytes[5] as u16),
        }
    }
}

/// Whether the slot holds a record.
pub open spec fn is_live(slot: Slot) -> bool {
    slot.size_of_record > 0
}

/// Where the record of a slot ends.
pub open spec fn record_end(slot: Slot) -> int {
    slot.offset_of_record + slot.size_of_record
}

/// The bytes that a slot stands for in a page image, if it is live.
pub open spec fn record_of(image: Seq<u8>, slot: Slot) -> Option<Seq<u8>> {
    if is_live(slot) {
        Some(image.subrange(slot.offset_of_record as int, record_end(slot)))
    } else {
        None
    }
}

/// The records of a directory, by slot id.
pub open spec fn records_in(image: Seq<u8>, slots: Seq<Slot>) -> Seq<Option<Seq<u8>>> {
    Seq::new(slots.len(), |i: int| record_of(image, slots[i]))
}

/// The records that a page image holds, by slot id.
pub open spec fn records_of(image: Seq<u8>) -> Seq<Option<Seq<u8>>> {
    records_in(image, slots_of(image))
}

/// Whether the slot directory of an image lies inside the page.
pub open spec fn header_fits(image: Seq<u8>) -> bool {
    &&& image.len() == PAGE_SIZE
    &&& slot_position(metadata_of(image).num_slots as int) <= PAGE_SIZE
}

/// Whether two records share no byte.
pub open spec fn apart(a: Slot, b: Slot) -> bool {
    record_end(a) <= b.offset_of_record || record_end(b) <= a.offset_of_record
}

/// Whether a directory is sound for a record area that begins at `low`:
/// every slot carries its own index as id, every live record lies in
/// `low .. PAGE_SIZE`, and no two live records overlap.
pub open spec fn well_placed(slots: Seq<Slot>, low: int) -> bool {
    &&& forall|i: int| 0 <= i < slots.len() ==> (#[trigger] slots[i]).slot_id == i
    &&& forall|i: int|
        0 <= i < slots.len() && is_live(#[trigger] slots[i]) ==> low <= slots[i].offset_of_record
            && record_end(slots[i]) <= PAGE_SIZE
    &&& forall|i: int, j: int|
        0 <= i < slots.len() && 0 <= j < slots.len() && i != j && is_live(#[trigger] slots[i])
            && is_live(#[trigger] slots[j]) ==> apart(slots[i], slots[j])
}

/// Whether metadata and directory describe a sound heap page over `records`.
pub open spec fn sound_header(
    meta: PageMetadata,
    slots: Seq<Slot>,
    records: Seq<Option<Seq<u8>>>,
) -> bool {
    &&& slots.len() == meta.num_slots
    &&& meta.offset_of_free_space == slot_position(meta.num_slots as int)
    &&& meta.offset_of_free_space + meta.size_of_free_space + stored_bytes(records) <= PAGE_SIZE
    &&& well_placed(slots, meta.offset_of_free_space + meta.size_of_free_space)
}

/// The invariant of a heap page: the free space begins where the slot
/// directory ends, the records lie behind the free space without
/// overlapping, and header, free space and records together fit the page.
pub open spec fn is_heap_page(image: Seq<u8>) -> bool {
    &&& image.len() == PAGE_SIZE
    &&& sound_header(metadata_of(image), slots_of(image), records_of(image))
}

/// The slot as deletion leaves it: where it was, without a record.
pub open spec fn deleted(slot: Slot) -> Slot {
    Slot { slot_id: slot.slot_id, offset_of_record: slot.offset_of_record, size_of_record: 0 }
}

/// Whether `slot` is live and its record begins behind that of `other`.
pub open spec fn starts_behind(slot: Slot, other: Slot) -> bool {
    is_live(slot) && slot.offset_of_record > other.offset_of_record
}

/// Whether slot `next` is the live slot whose record begins closest behind
/// that of slot `of`.
pub open spec fn is_next_record(slots: Seq<Slot>, of: int, next: int) -> bool {
    &&& 0 <= next < slots.len()
    &&& starts_behind(slots[next], slots[of])
    &&& forall|j: int|
        0 <= j < slots.len() && starts_behind(#[trigger] slots[j], slots[of])
            ==> slots[next].offset_of_record <= slots[j].offset_of_record
}

/// The header of a sound page lies inside the page.
pub proof fn lemma_heap_page_fits(image: Seq<u8>)
    requires
        is_heap_page(image),
    ensures
        header_fits(image),
        metadata_of(image).offset_of_free_space + metadata_of(image).size_of_free_space
            <= PAGE_SIZE,
        free_space_of(records_of(image)) >= metadata_of(image).size_of_free_space,
{
    lemma_stored_bytes_bounds(records_of(image));
}

/// In a sound page, the entry of each slot is as long as its directory
/// entry says.
pub proof fn lemma_entry_len(image: Seq<u8>, i: int)
    requires
        is_heap_page(image),
        0 <= i < slots_of(image).len(),
    ensures
        entry_len(records_of(image)[i]) == slots_of(image)[i].size_of_record,
{
}

/// A record is the same in two images that agree on its bytes.
pub proof fn lemma_record_kept(a: Seq<u8>, b: Seq<u8>, slot: Slot)
    requires
        record_end(slot) <= a.len(),
        record_end(slot) <= b.len(),
        forall|k: int| slot.offset_of_record <= k < record_end(slot) ==> a[k] == b[k],
    ensures
        record_of(a, slot) == record_of(b, slot),
{
    if is_live(slot) {
        assert(a.subrange(slot.offset_of_record as int, record_end(slot)) =~= b.subrange(
            slot.offset_of_record as int,
            record_end(slot),
        ));
    }
}

/// What `write_header` promises amounts to: the image decodes to the header
/// that was written.
pub proof fn lemma_header_written(image: Seq<u8>, meta: PageMetadata, slots: Seq<Slot>)
    requires
        metadata_of(image) == meta,
        slots.len() == meta.num_slots,
        forall|i: int| 0 <= i < slots.len() ==> slot_of(image, #[trigger] slot_position(i)) == slots[i],
    ensures
        slots_of(image) == slots,
{
    assert(slots_of(image) =~= slots);
}

/// Total size of the live records that begin at or behind `from`.
pub open spec fn bytes_from(slots: Seq<Slot>, from: int) -> int
    decreases slots.len(),
{
    if slots.len() == 0 {
        0
    } else if is_live(slots.last()) && slots.last().offset_of_record >= from {
        bytes_from(slots.drop_last(), from) + slots.last().size_of_record
    } else {
        bytes_from(slots.drop_last(), from)
    }
}

/// Where compaction puts the record of slot `i`: the live records are
/// packed against the end of the page in the order in which they lay.
pub open spec fn packed_offset(slots: Seq<Slot>, i: int) -> int {
    PAGE_SIZE - bytes_from(slots, slots[i].offset_of_record as int)
}

/// The directory entry of slot `i` after compaction, where the record area
/// then begins at `low`.
pub open spec fn packed_slot(slots: Seq<Slot>, i: int, low: int) -> Slot {
    Slot {
        slot_id: slots[i].slot_id,
        offset_of_record: if is_live(slots[i]) {
            packed_offset(slots, i) as u16
        } else {
            low as u16
        },
        size_of_record: slots[i].size_of_record,
    }
}

/// Sizes add up to no less than nothing.
proof fn lemma_bytes_from_bounds(slots: Seq<Slot>, from: int)
    ensures
        bytes_from(slots, from) >= 0,
    decreases slots.len(),
{
    if slots.len() > 0 {
        lemma_bytes_from_bounds(slots.drop_last(), from);
    }
}

/// Lowering the threshold past the beginning of a live record adds at least
/// that record.
proof fn lemma_bytes_from_gap(slots: Seq<Slot>, low: int, high: int, i: int)
    requires
        low <= high,
    ensures
        bytes_from(slots, low) >= bytes_from(slots, high),
        0 <= i < slots.len() && is_live(slots[i]) && low <= slots[i].offset_of_record < high
            ==> bytes_from(slots, low) >= bytes_from(slots, high) + slots[i].size_of_record,
    decreases slots.len(),
{
    if slots.len() > 0 {
        lemma_bytes_from_gap(slots.drop_last(), low, high, i);
    }
}

/// A packed record lies behind everything packed for records that begin at
/// or behind a lower threshold, and ends inside the page.
proof fn lemma_packed_range(slots: Seq<Slot>, bound: int, i: int)
    requires
        0 <= i < slots.len(),
        is_live(slots[i]),
        bound <= slots[i].offset_of_record,
    ensures
        PAGE_SIZE - bytes_from(slots, bound) <= packed_offset(slots, i),
        packed_offset(slots, i) + slots[i].size_of_record <= PAGE_SIZE,
{
    lemma_bytes_from_gap(slots, bound, slots[i].offset_of_record as int, i);
    lemma_bytes_from_gap(slots, slots[i].offset_of_record as int, slots[i].offset_of_record + 1, i);
    lemma_bytes_from_bounds(slots, slots[i].offset_of_record + 1);
}

/// Lowering the threshold to the beginning of the only live record that
/// begins in between adds exactly that record.
proof fn lemma_bytes_from_step(slots: Seq<Slot>, high: int, m: int, low: int)
    requires
        low < high,
        0 <= m < slots.len() ==> is_live(slots[m]) && slots[m].offset_of_record == low,
        forall|j: int|
            0 <= j < slots.len() && j != m && is_live(#[trigger] slots[j])
                ==> slots[j].offset_of_record < low || slots[j].offset_of_record >= high,
    ensures
        bytes_from(slots, low) == bytes_from(slots, high) + if 0 <= m < slots.len() {
            slots[m].size_of_record as int
        } else {
            0
        },
    decreases slots.len(),
{
    if slots.len() > 0 {
        let rest = slots.drop_last();
        assert forall|j: int| 0 <= j < rest.len() && j != m && is_live(#[trigger] rest[j]) implies
            rest[j].offset_of_record < low || rest[j].offset_of_record >= high by {
            assert(rest[j] == slots[j]);
        }
        lemma_bytes_from_step(rest, high, m, low);
        let k = slots.len() - 1;
        assert(slots.last() == slots[k]);
    }
}

/// No live record of a sound directory begins at or behind `from` where
/// `from` is the end of the page.
proof fn lemma_bytes_from_none(slots: Seq<Slot>, from: int)
    requires
        forall|j: int|
            0 <= j < slots.len() && is_live(#[trigger] slots[j]) ==> slots[j].offset_of_record
                < from,
    ensures
        bytes_from(slots, from) == 0,
    decreases slots.len(),
{
    if slots.len() > 0 {
        let rest = slots.drop_last();
        assert forall|j: int| 0 <= j < rest.len() && is_live(#[trigger] rest[j]) implies
            rest[j].offset_of_record < from by {
            assert(rest[j] == slots[j]);
        }
        lemma_bytes_from_none(rest, from);
        let k = slots.len() - 1;
        assert(slots.last() == slots[k]);
    }
}

/// Where no live record begins before `from`, the records from `from` on
/// are all the records.
proof fn lemma_bytes_from_all(image: Seq<u8>, slots: Seq<Slot>, from: int)
    requires
        forall|j: int|
            0 <= j < slots.len() && is_live(#[trigger] slots[j]) ==> from
                <= slots[j].offset_of_record && record_end(slots[j]) <= image.len(),
    ensures
        bytes_from(slots, from) == stored_bytes(records_in(image, slots)),
    decreases slots.len(),
{
    if slots.len() > 0 {
        let rest = slots.drop_last();
        assert forall|j: int| 0 <= j < rest.len() && is_live(#[trigger] rest[j]) implies from
            <= rest[j].offset_of_record && record_end(rest[j]) <= image.len() by {
            assert(rest[j] == slots[j]);
        }
        lemma_bytes_from_all(image, rest, from);
        assert(records_in(image, slots).drop_last() =~= records_in(image, rest));
        let k = slots.len() - 1;
        assert(slots.last() == slots[k]);
    }
}

/// The live slot whose record begins highest below `bound`.
fn highest_record_below(slots: &Vec<Slot>, bound: usize) -> (pick: Option<usize>)
    ensures
        match pick {
            Some(m) => {
                &&& m < slots@.len()
                &&& is_live(slots@[m as int])
                &&& slots@[m as int].offset_of_record < bound
                &&& forall|j: int|
                    0 <= j < slots@.len() && is_live(#[trigger] slots@[j])
                        && slots@[j].offset_of_record < bound ==> slots@[j].offset_of_record
                        <= slots@[m as int].offset_of_record
            },
            None => forall|j: int|
                0 <= j < slots@.len() && is_live(#[trigger] slots@[j])
                    ==> slots@[j].offset_of_record >= bound,
        },
{
    let mut pick: Option<usize> = None;
    let mut pick_offset: u16 = 0;
    let mut i: usize = 0;
    while i < slots.len()
        invariant
            i <= slots@.len(),
            match pick {
                Some(m) => {
                    &&& m < i
                    &&& is_live(slots@[m as int])
                    &&& slots@[m as int].offset_of_record < bound
                    &&& pick_offset == slots@[m as int].offset_of_record
                    &&& forall|j: int|
                        0 <= j < i && is_live(#[trigger] slots@[j]) && slots@[j].offset_of_record
                            < bound ==> slots@[j].offset_of_record <= pick_offset
                },
                None => forall|j: int|
                    0 <= j < i && is_live(#[trigger] slots@[j]) ==> slots@[j].offset_of_record
                        >= bound,
            },
        decreases slots@.len() - i,
    {
        let slot: Slot = slots[i];
        if slot.size_of_record > 0 && (slot.offset_of_record as usize) < bound {
            if pick.is_none() || slot.offset_of_record > pick_offset {
                pick = Some(i);
                pick_offset = slot.offset_of_record;
            }
        }
        i += 1;
    }
    pick
}

/// Whether the contiguous free space is too small for a record of `len`
/// bytes, so that an insertion has to compact the page first.
pub open spec fn needs_compaction(image: Seq<u8>, len: int) -> bool {
    metadata_of(image).size_of_free_space < crate::slot_model::insert_cost(records_of(image), len)
}

/// Where the record area begins when a record of `len` bytes is about to
/// be placed: behind the free space, after compaction where it is needed.
pub open spec fn record_area_start(image: Seq<u8>, len: int) -> int {
    if needs_compaction(image, len) {
        PAGE_SIZE - stored_bytes(records_of(image))
    } else {
        metadata_of(image).offset_of_free_space + metadata_of(image).size_of_free_space
    }
}

/// The slot directory when a record of `len` bytes is about to be placed:
/// as it is, or as compaction leaves it where it is needed.
pub open spec fn settled_slots(image: Seq<u8>, len: int) -> Seq<Slot> {
    if needs_compaction(image, len) {
        Seq::new(
            slots_of(image).len(),
            |i: int| packed_slot(slots_of(image), i, PAGE_SIZE - stored_bytes(records_of(image))),
        )
    } else {
        slots_of(image)
    }
}

/// The directory entry of a record of `len` bytes that is placed in slot
/// `id`: the record lies at the end of the free space.
pub open spec fn placed_slot(image: Seq<u8>, id: int, len: int) -> Slot {
    Slot {
        slot_id: id as u16,
        offset_of_record: (record_area_start(image, len) - len) as u16,
        size_of_record: len as u16,
    }
}

/// The slot directory after a record of `len` bytes was stored.
pub open spec fn slots_after_add(image: Seq<u8>, len: int) -> Seq<Slot> {
    let id = next_slot_id(records_of(image));
    if id < slots_of(image).len() {
        settled_slots(image, len).update(id, placed_slot(image, id, len))
    } else {
        settled_slots(image, len).push(placed_slot(image, id, len))
    }
}

/// The metadata after a record of `len` bytes was stored: the free space
/// begins behind the directory and ends where the record begins.
pub open spec fn metadata_after_add(image: Seq<u8>, len: int) -> PageMetadata {
    let count = slots_after_add(image, len).len() as int;
    PageMetadata {
        page_id: metadata_of(image).page_id,
        num_slots: count as u16,
        offset_of_free_space: slot_position(count) as u16,
        size_of_free_space: (record_area_start(image, len) - len - slot_position(count)) as u16,
    }
}

/// The first deleted slot of a directory.
fn first_deleted(slots: &Vec<Slot>) -> (found: Option<usize>)
    ensures
        match found {
            Some(i) => {
                &&& i < slots@.len()
                &&& !is_live(slots@[i as int])
                &&& forall|j: int| 0 <= j < i ==> is_live(#[trigger] slots@[j])
            },
            None => forall|j: int| 0 <= j < slots@.len() ==> is_live(#[trigger] slots@[j]),
        },
{
    let mut i: usize = 0;
    while i < slots.len()
        invariant
            i <= slots@.len(),
            forall|j: int| 0 <= j < i ==> is_live(#[trigger] slots@[j]),
        decreases slots@.len() - i,
    {
        if slots[i].size_of_record == 0 {
            return Some(i);
        }
        i += 1;
    }
    None
}

/// The first deleted slot of a directory is the slot that the next
/// insertion gets.
proof fn lemma_first_deleted(image: Seq<u8>, slots: Seq<Slot>, found: int)
    requires
        0 <= found <= slots.len(),
        found < slots.len() ==> !is_live(slots[found]),
        forall|j: int| 0 <= j < found ==> is_live(#[trigger] slots[j]),
    ensures
        next_slot_id(records_in(image, slots)) == found,
{
    let records = records_in(image, slots);
    lemma_next_slot_from(records, 0);
    let next = next_slot_id(records);
    if next < found {
        assert(is_live(slots[next]));
    } else if found < next {
        assert(records[found] is Some);
    }
}

/// The operations of a slotted page.
pub trait HeapPage {
    /// The bytes of the page.
    spec fn image(&self) -> Seq<u8>;

    /// The fixed part of the header.
    fn get_metadata(&self) -> (meta: PageMetadata)
        requires
            self.image().len() == PAGE_SIZE,
        ensures
            meta == metadata_of(self.image()),
    ;

    /// The size of the header: eight bytes and six for each slot.
    fn get_header_size(&self) -> (size: usize)
        requires
            self.image().len() == PAGE_SIZE,
        ensures
            size == slot_position(metadata_of(self.image()).num_slots as int),
    ;

    /// Decodes metadata and slot directory.
    fn read_header(&self) -> (header: Header)
        requires
            header_fits(self.image()),
        ensures
            header.pagemetadata == metadata_of(self.image()),
            header.slots@ == slots_of(self.image()),
    ;

    /// Stores `bytes` as a new record if the free space of the page, after
    /// compaction where needed, takes them; `None`, and no change at all,
    /// if it does not. The record gets the lowest deleted slot id, or the
    /// next new one where no slot is deleted, which costs six more bytes.
    /// Every other slot keeps its id and its bytes.
    fn add_value(&mut self, bytes: &[u8]) -> (slot: Option<SlotId>)
        requires
            is_heap_page(old(self).image()),
        ensures
            is_heap_page(final(self).image()),
            slot == add_result(records_of(old(self).image()), bytes@),
            records_of(final(self).image()) == after_add(records_of(old(self).image()), bytes@),
            metadata_of(final(self).image()).page_id == metadata_of(old(self).image()).page_id,
            slot is None ==> final(self).image() == old(self).image(),
            slot is Some ==> slots_of(final(self).image()) == slots_after_add(
                old(self).image(),
                bytes@.len() as int,
            ) && metadata_of(final(self).image()) == metadata_after_add(
                old(self).image(),
                bytes@.len() as int,
            ),
    ;

    /// All the space that an insertion could use, contiguous or not.
    fn get_free_space(&self) -> (space: usize)
        requires
            is_heap_page(self.image()),
        ensures
            space == free_space_of(records_of(self.image())),
    ;

    /// A copy of the record in slot `slot_id`; `None` if there is no such
    /// slot or it was deleted.
    fn get_value(&self, slot_id: SlotId) -> (value: Option<Vec<u8>>)
        requires
            is_heap_page(self.image()),
        ensures
            match value {
                Some(bytes) => value_at(records_of(self.image()), slot_id as int) == Some(bytes@),
                None => value_at(records_of(self.image()), slot_id as int) is None,
            },
    ;

    /// Marks slot `slot_id` deleted. The directory entry stays, the bytes of
    /// the record stay where they are, and every other slot is as before.
    /// `None`, and no change at all, if there is no such slot.
    fn delete_value(&mut self, slot_id: SlotId) -> (done: Option<()>)
        requires
            is_heap_page(old(self).image()),
        ensures
            is_heap_page(final(self).image()),
            done is Some <==> slot_id < metadata_of(old(self).image()).num_slots,
            done is None ==> final(self).image() == old(self).image(),
            records_of(final(self).image()) == after_delete(
                records_of(old(self).image()),
                slot_id as int,
            ),
            metadata_of(final(self).image()) == metadata_of(old(self).image()),
            done is Some ==> slots_of(final(self).image()) == slots_of(old(self).image()).update(
                slot_id as int,
                deleted(slots_of(old(self).image())[slot_id as int]),
            ),
            forall|k: int|
                slot_position(metadata_of(old(self).image()).num_slots as int) <= k < PAGE_SIZE
                    ==> final(self).image()[k] == old(self).image()[k],
    ;

    /// The live slot whose record begins closest behind that of `slot_id`.
    fn find_next_useable_slot(&self, slot_id: SlotId) -> (next: Option<SlotId>)
        requires
            is_heap_page(self.image()),
            slot_id < metadata_of(self.image()).num_slots,
        ensures
            match next {
                Some(id) => is_next_record(slots_of(self.image()), slot_id as int, id as int),
                None => forall|j: int|
                    0 <= j < slots_of(self.image()).len() ==> !starts_behind(
                        #[trigger] slots_of(self.image())[j],
                        slots_of(self.image())[slot_id as int],
                    ),
            },
    ;

    /// Packs the live records against the end of the page, in the order in
    /// which they lay, so that all the free space becomes contiguous. Slot
    /// ids, directory order and record contents stay; a deleted slot then
    /// points at the beginning of the record area.
    fn compact(&mut self)
        requires
            is_heap_page(old(self).image()),
        ensures
            is_heap_page(final(self).image()),
            records_of(final(self).image()) == records_of(old(self).image()),
            metadata_of(final(self).image()).page_id == metadata_of(old(self).image()).page_id,
            metadata_of(final(self).image()).num_slots == metadata_of(
                old(self).image(),
            ).num_slots,
            metadata_of(final(self).image()).size_of_free_space == free_space_of(
                records_of(old(self).image()),
            ),
            forall|i: int|
                0 <= i < slots_of(old(self).image()).len() ==> #[trigger] slots_of(
                    final(self).image(),
                )[i] == packed_slot(
                    slots_of(old(self).image()),
                    i,
                    PAGE_SIZE - stored_bytes(records_of(old(self).image())),
                ),
    ;

    /// Encodes metadata and slot directory at the front of the page and
    /// leaves the bytes behind them alone.
    fn write_header(&mut self, header: &Header)
        requires
            old(self).image().len() == PAGE_SIZE,
            slot_position(header.slots@.len() as int) <= PAGE_SIZE,
        ensures
            final(self).image().len() == PAGE_SIZE,
            metadata_of(final(self).image()) == header.pagemetadata,
            forall|i: int|
                0 <= i < header.slots@.len() ==> slot_of(
                    final(self).image(),
                    #[trigger] slot_position(i),
                ) == header.slots@[i],
            forall|k: int|
                slot_position(header.slots@.len() as int) <= k < PAGE_SIZE
                    ==> final(self).image()[k] == old(self).image()[k],
    ;
}

impl Page {
    /// Stores one directory entry at byte `at`.
    fn write_slot(&mut self, at: usize, slot: Slot)
        requires
            at + 6 <= PAGE_SIZE,
        ensures
            slot_of(final(self)@, at as int) == slot,
            forall|k: int|
                0 <= k < PAGE_SIZE && !(at <= k < at + 6) ==> final(self)@[k] == old(self)@[k],
    {
        self.write_u16(at, slot.slot_id);
        self.write_u16(at + 2, slot.offset_of_record);
        self.write_u16(at + 4, slot.size_of_record);
    }

    /// Stores the fixed part of the header.
    fn write_metadata(&mut self, meta: PageMetadata)
        ensures
            metadata_of(final(self)@) == meta,
            forall|k: int| 8 <= k < PAGE_SIZE ==> final(self)@[k] == old(self)@[k],
    {
        self.write_u16(0, meta.page_id);
        self.write_u16(2, meta.num_slots);
        self.write_u16(4, meta.offset_of_free_space);
        self.write_u16(6, meta.size_of_free_space);
    }
}

/// A page without slots is a sound heap page that holds no record.
pub proof fn lemma_empty_page(page_id: PageId)
    ensures
        is_heap_page(crate::page::empty_page_image(page_id)),
        records_of(crate::page::empty_page_image(page_id)) == Seq::<Option<Seq<u8>>>::empty(),
        metadata_of(crate::page::empty_page_image(page_id)) == (PageMetadata {
            page_id,
            num_slots: 0,
            offset_of_free_space: 8,
            size_of_free_space: 4088,
        }),
{
    let image = crate::page::empty_page_image(page_id);
    assert(records_of(image) =~= Seq::<Option<Seq<u8>>>::empty());
}

impl Page {
    /// Whether the page is a sound heap page. A page that was made by
    /// `Page::new` and changed by the operations of `HeapPage` always is;
    /// bytes that come from elsewhere are to be checked before they are
    /// used as one.
    pub fn is_heap_page(&self) -> (ok: bool)
        ensures
            ok == is_heap_page(self@),
    {
        let meta = self.get_metadata();
        let header_size: usize = self.get_header_size();
        let free_start: usize = meta.offset_of_free_space as usize;
        let free_size: usize = meta.size_of_free_space as usize;
        if header_size > PAGE_SIZE || free_start != header_size || free_start + free_size
            > PAGE_SIZE {
            proof {
                if is_heap_page(self@) {
                    lemma_heap_page_fits(self@);
                }
            }
            return false;
        }
        let low: usize = free_start + free_size;
        let header = self.read_header();
        let ghost slots = header.slots@;
        let ghost records = records_of(self@);
        let mut total: usize = 0;
        let mut i: usize = 0;
        while i < header.slots.len()
            invariant
                i <= slots.len(),
                slots == header.slots@,
                slots == slots_of(self@),
                records == records_of(self@),
                meta == metadata_of(self@),
                low == meta.offset_of_free_space + meta.size_of_free_space,
                total == stored_bytes(records.take(i as int)),
                total <= 65535 * i,
                forall|j: int| 0 <= j < i ==> (#[trigger] slots[j]).slot_id == j,
                forall|j: int|
                    0 <= j < i && is_live(#[trigger] slots[j]) ==> low <= slots[j].offset_of_record
                        && record_end(slots[j]) <= PAGE_SIZE,
            decreases slots.len() - i,
        {
            let slot: Slot = header.slots[i];
            if slot.slot_id as usize != i {
                return false;
            }
            proof {
                lemma_stored_bytes_take(records, i as int);
            }
            if slot.size_of_record > 0 {
                if (slot.offset_of_record as usize) < low || slot.offset_of_record as usize
                    + slot.size_of_record as usize > PAGE_SIZE {
                    assert(is_live(slots[i as int]));
                    return false;
                }
                total += slot.size_of_record as usize;
            }
            i += 1;
        }
        assert(records.take(i as int) =~= records);
        if low + total > PAGE_SIZE {
            return false;
        }
        let mut a: usize = 0;
        while a < header.slots.len()
            invariant
                a <= slots.len(),
                slots == header.slots@,
                slots == slots_of(self@),
                forall|x: int, y: int|
                    0 <= x < a && 0 <= y < slots.len() && x != y && is_live(#[trigger] slots[x])
                        && is_live(#[trigger] slots[y]) ==> apart(slots[x], slots[y]),
            decreases slots.len() - a,
        {
            let first: Slot = header.slots[a];
            if first.size_of_record > 0 {
                let mut b: usize = 0;
                while b < header.slots.len()
                    invariant
                        b <= slots.len(),
                        a < slots.len(),
                        slots == header.slots@,
                        slots == slots_of(self@),
                        first == slots[a as int],
                        is_live(first),
                        forall|y: int|
                            0 <= y < b && a != y && is_live(#[trigger] slots[y]) ==> apart(
                                slots[a as int],
                                slots[y],
                            ),
                    decreases slots.len() - b,
                {
                    let second: Slot = header.slots[b];
                    if b != a && second.size_of_record > 0 {
                        let first_end: usize = first.offset_of_record as usize
                            + first.size_of_record as usize;
                        let second_end: usize = second.offset_of_record as usize
                            + second.size_of_record as usize;
                        if first_end > second.offset_of_record as usize && second_end
                            > first.offset_of_record as usize {
                            assert(is_live(slots[a as int]) && is_live(slots[b as int]));
                            assert(!apart(slots[a as int], slots[b as int]));
                            return false;
                        }
                    }
                    b += 1;
                }
            }
            a += 1;
        }
        true
    }

    /// Whether a record of `len` bytes fits the page: whether `add_value`
    /// would store it.
    pub fn can_add_value(&self, len: usize) -> (fits: bool)
        requires
            is_heap_page(self@),
        ensures
            fits == can_add(records_of(self@), len as int),
    {
        proof {
            lemma_heap_page_fits(self@);
            lemma_stored_bytes_bounds(records_of(self@));
        }
        let total_free: usize = self.get_free_space();
        if total_free < len {
            return false;
        }
        let hdr = self.read_header();
        let found = first_deleted(&hdr.slots);
        proof {
            match found {
                Some(i) => lemma_first_deleted(self@, hdr.slots@, i as int),
                None => lemma_first_deleted(self@, hdr.slots@, hdr.slots@.len() as int),
            }
        }
        found.is_some() || total_free >= len + SLOT_ENTRY_SIZE
    }

    /// Puts `bytes` at the end of the contiguous free space and lets the
    /// deleted slot `idx` stand for them.
    fn store_in_deleted_slot(&mut self, idx: usize, bytes: &[u8]) -> (id: SlotId)
        requires
            is_heap_page(old(self)@),
            idx < slots_of(old(self)@).len(),
            !is_live(slots_of(old(self)@)[idx as int]),
            bytes@.len() <= metadata_of(old(self)@).size_of_free_space,
        ensures
            is_heap_page(final(self)@),
            id == idx,
            records_of(final(self)@) == records_of(old(self)@).update(
                idx as int,
                entry_for(bytes@),
            ),
            slots_of(final(self)@) == slots_of(old(self)@).update(
                idx as int,
                (Slot {
                    slot_id: idx as u16,
                    offset_of_record: (metadata_of(old(self)@).offset_of_free_space + metadata_of(
                        old(self)@,
                    ).size_of_free_space - bytes@.len()) as u16,
                    size_of_record: bytes@.len() as u16,
                }),
            ),
            metadata_of(final(self)@) == (PageMetadata {
                size_of_free_space: (metadata_of(old(self)@).size_of_free_space
                    - bytes@.len()) as u16,
                ..metadata_of(old(self)@)
            }),
    {
        proof {
            lemma_heap_page_fits(self@);
        }
        let ghost first = self@;
        let ghost records = records_of(self@);
        let mut hdr = self.read_header();
        let free_start: usize = hdr.pagemetadata.offset_of_free_space as usize;
        let free_size: usize = hdr.pagemetadata.size_of_free_space as usize;
        let start: usize = free_start + free_size - bytes.len();
        self.write_range(start, bytes);
        let ghost old_slots = hdr.slots@;
        let slot_id: u16 = hdr.slots[idx].slot_id;
        hdr.slots.set(
            idx,
            Slot { slot_id, offset_of_record: start as u16, size_of_record: bytes.len() as u16 },
        );
        hdr.pagemetadata.size_of_free_space = (free_size - bytes.len()) as u16;
        self.write_header(&hdr);
        proof {
            lemma_header_written(self@, hdr.pagemetadata, hdr.slots@);
            let new_records = records_of(self@);
            assert forall|j: int| 0 <= j < old_slots.len() && j != idx implies new_records[j]
                == records[j] by {
                if is_live(old_slots[j]) {
                    lemma_record_kept(first, self@, old_slots[j]);
                }
            }
            if bytes@.len() > 0 {
                assert(self@.subrange(start as int, start + bytes@.len()) =~= bytes@);
            }
            assert(new_records =~= records.update(idx as int, entry_for(bytes@)));
            lemma_stored_bytes_update(records, idx as int, entry_for(bytes@));
        }
        slot_id
    }

    /// Puts `bytes` at the end of the contiguous free space and appends a
    /// directory entry that stands for them.
    fn store_in_new_slot(&mut self, bytes: &[u8]) -> (id: SlotId)
        requires
            is_heap_page(old(self)@),
            bytes@.len() + SLOT_ENTRY_SIZE <= metadata_of(old(self)@).size_of_free_space,
        ensures
            is_heap_page(final(self)@),
            id == slots_of(old(self)@).len(),
            records_of(final(self)@) == records_of(old(self)@).push(entry_for(bytes@)),
            slots_of(final(self)@) == slots_of(old(self)@).push(
                (Slot {
                    slot_id: slots_of(old(self)@).len() as u16,
                    offset_of_record: (metadata_of(old(self)@).offset_of_free_space + metadata_of(
                        old(self)@,
                    ).size_of_free_space - bytes@.len()) as u16,
                    size_of_record: bytes@.len() as u16,
                }),
            ),
            metadata_of(final(self)@) == (PageMetadata {
                page_id: metadata_of(old(self)@).page_id,
                num_slots: (metadata_of(old(self)@).num_slots + 1) as u16,
                offset_of_free_space: (metadata_of(old(self)@).offset_of_free_space + 6) as u16,
                size_of_free_space: (metadata_of(old(self)@).size_of_free_space - bytes@.len()
                    - 6) as u16,
            }),
    {
        proof {
            lemma_heap_page_fits(self@);
        }
        let ghost first = self@;
        let ghost records = records_of(self@);
        let mut hdr = self.read_header();
        let free_start: usize = hdr.pagemetadata.offset_of_free_space as usize;
        let free_size: usize = hdr.pagemetadata.size_of_free_space as usize;
        let start: usize = free_start + free_size - bytes.len();
        self.write_range(start, bytes);
        let ghost old_slots = hdr.slots@;
        let new_id: u16 = hdr.pagemetadata.num_slots;
        hdr.slots.push(
            Slot { slot_id: new_id, offset_of_record: start as u16, size_of_record: bytes.len() as u16 },
        );
        hdr.pagemetadata.num_slots = new_id + 1;
        hdr.pagemetadata.offset_of_free_space = (free_start + SLOT_ENTRY_SIZE) as u16;
        hdr.pagemetadata.size_of_free_space = (free_size - bytes.len() - SLOT_ENTRY_SIZE) as u16;
        self.write_header(&hdr);
        proof {
            lemma_header_written(self@, hdr.pagemetadata, hdr.slots@);
            let new_records = records_of(self@);
            assert forall|j: int| 0 <= j < old_slots.len() implies new_records[j]
                == records[j] by {
                if is_live(old_slots[j]) {
                    lemma_record_kept(first, self@, old_slots[j]);
                }
            }
            if bytes@.len() > 0 {
                assert(self@.subrange(start as int, start + bytes@.len()) =~= bytes@);
            }
            assert(new_records =~= records.push(entry_for(bytes@)));
            lemma_stored_bytes_push(records, entry_for(bytes@));
        }
        new_id
    }
}

impl HeapPage for Page {
    open spec fn image(&self) -> Seq<u8> {
        self@
    }

    fn get_metadata(&self) -> (meta: PageMetadata) {
        PageMetadata {
            page_id: self.read_u16(0),
            num_slots: self.read_u16(2),
            offset_of_free_space: self.read_u16(4),
            size_of_free_space: self.read_u16(6),
        }
    }

    fn get_header_size(&self) -> (size: usize) {
        let metadata = self.get_metadata();
        metadata.num_slots as usize * 6 + 8
    }

    fn read_header(&self) -> (header: Header) {
        let meta = self.get_metadata();
        let mut slots: Vec<Slot> = Vec::new();
        let mut offset: usize = 8;
        let mut i: u16 = 0;
        while i < meta.num_slots
            invariant
                i <= meta.num_slots,
                offset == slot_position(i as int),
                slot_position(meta.num_slots as int) <= PAGE_SIZE,
                meta == metadata_of(self@),
                slots@ == slots_of(self@).take(i as int),
            decreases meta.num_slots - i,
        {
            let slot = Slot {
                slot_id: self.read_u16(offset),
                offset_of_record: self.read_u16(offset + 2),
                size_of_record: self.read_u16(offset + 4),
            };
            slots.push(slot);
            offset += 6;
            i += 1;
            assert(slots@ =~= slots_of(self@).take(i as int));
        }
        assert(slots_of(self@).take(i as int) =~= slots_of(self@));
        Header { pagemetadata: meta, slots }
    }

    fn add_value(&mut self, bytes: &[u8]) -> (slot: Option<SlotId>) {
        proof {
            lemma_heap_page_fits(self@);
        }
        let hdr = self.read_header();
        // all the free space, scattered or not
        let total_free: usize = self.get_free_space();
        if total_free < bytes.len() {
            return None;
        }
        let found = first_deleted(&hdr.slots);
        proof {
            match found {
                Some(i) => lemma_first_deleted(self@, hdr.slots@, i as int),
                None => lemma_first_deleted(self@, hdr.slots@, hdr.slots@.len() as int),
            }
        }
        if found.is_some() {
            // a deleted slot is used again
            if (hdr.pagemetadata.size_of_free_space as usize) < bytes.len() {
                self.compact();
            }
            return Some(self.store_in_deleted_slot(found.unwrap(), bytes));
        }
        // a new slot is needed
        proof {
            lemma_stored_bytes_bounds(records_of(self@));
        }
        let need_with_entry: usize = bytes.len() + SLOT_ENTRY_SIZE;
        if total_free < need_with_entry {
            return None;
        }
        if (hdr.pagemetadata.size_of_free_space as usize) < need_with_entry {
            self.compact();
        }
        Some(self.store_in_new_slot(bytes))
    }

    fn get_free_space(&self) -> (space: usize) {
        proof {
            lemma_heap_page_fits(self@);
        }
        let header = self.read_header();
        let ghost records = records_of(self@);
        let mut total_used: usize = 0;
        let mut i: usize = 0;
        proof {
            lemma_stored_bytes_bounds(records);
        }
        while i < header.slots.len()
            invariant
                i <= header.slots@.len(),
                is_heap_page(self@),
                header.slots@ == slots_of(self@),
                records == records_of(self@),
                total_used == stored_bytes(records.take(i as int)),
                total_used <= 65535 * i,
            decreases header.slots@.len() - i,
        {
            proof {
                lemma_stored_bytes_take(records, i as int);
                lemma_entry_len(self@, i as int);
            }
            if header.slots[i].size_of_record > 0 {
                total_used += header.slots[i].size_of_record as usize;
            }
            i += 1;
        }
        assert(records.take(i as int) =~= records);
        PAGE_SIZE - self.get_header_size() - total_used
    }

    fn get_value(&self, slot_id: SlotId) -> (value: Option<Vec<u8>>) {
        let meta = self.get_metadata();
        if slot_id >= meta.num_slots {
            return None;
        }
        proof {
            lemma_heap_page_fits(self@);
        }
        let header = self.read_header();
        let slot = header.slots[slot_id as usize];
        if slot.size_of_record == 0 {
            return None;
        }
        let start = slot.offset_of_record as usize;
        Some(self.read_range(start, slot.size_of_record as usize))
    }

    fn delete_value(&mut self, slot_id: SlotId) -> (done: Option<()>) {
        proof {
            lemma_heap_page_fits(self@);
        }
        let mut header = self.read_header();
        if slot_id as usize >= header.pagemetadata.num_slots as usize {
            return None;
        }
        let ghost old_slots = header.slots@;
        let ghost old_records = records_of(self@);
        let index = slot_id as usize;
        let slot = header.slots[index];
        // only mark as deleted, the space is reclaimed by a later compaction
        header.slots.set(
            index,
            Slot { slot_id: slot.slot_id, offset_of_record: slot.offset_of_record, size_of_record: 0 },
        );
        self.write_header(&header);
        proof {
            lemma_header_written(self@, header.pagemetadata, header.slots@);
            let new_records = records_of(self@);
            assert forall|j: int| 0 <= j < old_slots.len() && j != index implies new_records[j]
                == old_records[j] by {
                if is_live(old_slots[j]) {
                    lemma_record_kept(old(self)@, self@, old_slots[j]);
                }
            }
            assert(new_records =~= after_delete(old_records, slot_id as int));
            lemma_stored_bytes_update(old_records, index as int, None);
            assert(slots_of(self@) =~= old_slots.update(index as int, deleted(old_slots[index as int])));
        }
        Some(())
    }

    fn find_next_useable_slot(&self, slot_id: SlotId) -> (next: Option<SlotId>) {
        proof {
            lemma_heap_page_fits(self@);
        }
        let header = self.read_header();
        let current_offset = header.slots[slot_id as usize].offset_of_record;
        let mut best: Option<SlotId> = None;
        let mut best_offset: u16 = 0;
        let mut i: usize = 0;
        while i < header.slots.len()
            invariant
                i <= header.slots@.len(),
                is_heap_page(self@),
                header.slots@ == slots_of(self@),
                slot_id < header.slots@.len(),
                current_offset == header.slots@[slot_id as int].offset_of_record,
                match best {
                    Some(id) => {
                        &&& id < i
                        &&& starts_behind(header.slots@[id as int], header.slots@[slot_id as int])
                        &&& best_offset == header.slots@[id as int].offset_of_record
                        &&& forall|j: int|
                            0 <= j < i && starts_behind(
                                #[trigger] header.slots@[j],
                                header.slots@[slot_id as int],
                            ) ==> best_offset <= header.slots@[j].offset_of_record
                    },
                    None => forall|j: int|
                        0 <= j < i ==> !starts_behind(
                            #[trigger] header.slots@[j],
                            header.slots@[slot_id as int],
                        ),
                },
            decreases header.slots@.len() - i,
        {
            let slot = header.slots[i];
            if slot.size_of_record > 0 && slot.offset_of_record > current_offset {
                if best.is_none() || slot.offset_of_record < best_offset {
                    best = Some(slot.slot_id);
                    best_offset = slot.offset_of_record;
                }
            }
            i += 1;
        }
        best
    }

    fn compact(&mut self) {
        proof {
            lemma_heap_page_fits(self@);
        }
        let orig = self.read_header();
        let mut hdr = self.read_header();
        let ghost first = self@;
        let ghost slots = orig.slots@;
        let ghost low = hdr.pagemetadata.offset_of_free_space + hdr.pagemetadata.size_of_free_space;
        let ghost mut last_moved: int = -1;
        let mut write_pos: usize = PAGE_SIZE;
        let mut bound: usize = PAGE_SIZE;
        proof {
            lemma_bytes_from_none(slots, PAGE_SIZE as int);
        }
        loop
            invariant
                is_heap_page(first),
                slots == slots_of(first),
                orig.slots@ == slots,
                hdr.slots@.len() == slots.len(),
                hdr.pagemetadata == metadata_of(first),
                low == metadata_of(first).offset_of_free_space + metadata_of(
                    first,
                ).size_of_free_space,
                low <= bound <= write_pos <= PAGE_SIZE,
                write_pos == PAGE_SIZE - bytes_from(slots, bound as int),
                (last_moved == -1 && bound == PAGE_SIZE) || (0 <= last_moved < slots.len()
                    && is_live(slots[last_moved]) && slots[last_moved].offset_of_record == bound),
                forall|i: int|
                    0 <= i < slots.len() ==> #[trigger] hdr.slots@[i] == if is_live(slots[i])
                        && slots[i].offset_of_record >= bound {
                        packed_slot(slots, i, 0)
                    } else {
                        slots[i]
                    },
                forall|i: int|
                    0 <= i < slots.len() && is_live(#[trigger] slots[i])
                        && slots[i].offset_of_record >= bound ==> self@.subrange(
                        packed_offset(slots, i),
                        packed_offset(slots, i) + slots[i].size_of_record,
                    ) == first.subrange(slots[i].offset_of_record as int, record_end(slots[i])),
                forall|k: int| 0 <= k < bound ==> self@[k] == first[k],
            ensures
                forall|j: int|
                    0 <= j < slots.len() && is_live(#[trigger] slots[j])
                        ==> slots[j].offset_of_record >= bound,
            decreases bound,
        {
            // of the records not yet packed, the one that begins highest
            // is packed next, so that the records keep their order
            let pick = highest_record_below(&orig.slots, bound);
            if pick.is_none() {
                break ;
            }
            let m: usize = pick.unwrap();
            let slot: Slot = orig.slots[m];
            let sz: usize = slot.size_of_record as usize;
            let old_start: usize = slot.offset_of_record as usize;
            proof {
                if last_moved >= 0 {
                    assert(apart(slots[m as int], slots[last_moved]));
                }
                assert(record_end(slots[m as int]) <= bound);
                lemma_bytes_from_step(slots, bound as int, m as int, old_start as int);
            }
            let ghost before = self@;
            let ghost old_pos = write_pos;
            // the record moves towards the end of the page, over no record
            // that is yet to be packed
            write_pos -= sz;
            let tmp = self.read_range(old_start, sz);
            self.write_range(write_pos, tmp.as_slice());
            hdr.slots.set(
                m,
                Slot {
                    slot_id: slot.slot_id,
                    offset_of_record: write_pos as u16,
                    size_of_record: slot.size_of_record,
                },
            );
            proof {
                assert(tmp@ =~= first.subrange(old_start as int, old_start + sz));
                assert forall|i: int|
                    0 <= i < slots.len() && is_live(#[trigger] slots[i])
                        && slots[i].offset_of_record >= old_start implies self@.subrange(
                    packed_offset(slots, i),
                    packed_offset(slots, i) + slots[i].size_of_record,
                ) == first.subrange(slots[i].offset_of_record as int, record_end(slots[i])) by {
                    if i == m {
                        assert(self@.subrange(write_pos as int, write_pos + sz) =~= tmp@);
                    } else {
                        assert(slots[i].offset_of_record >= bound);
                        lemma_packed_range(slots, bound as int, i);
                        assert(self@.subrange(
                            packed_offset(slots, i),
                            packed_offset(slots, i) + slots[i].size_of_record,
                        ) =~= before.subrange(
                            packed_offset(slots, i),
                            packed_offset(slots, i) + slots[i].size_of_record,
                        ));
                    }
                }
                last_moved = m as int;
            }
            bound = old_start;
        }
        // all that lies between the header and the records is free
        let header_size: usize = 8 + (hdr.pagemetadata.num_slots as usize) * 6;
        let free_size: u16 = (write_pos - header_size) as u16;
        hdr.pagemetadata.offset_of_free_space = header_size as u16;
        hdr.pagemetadata.size_of_free_space = free_size;
        // a deleted slot points at the beginning of the record area
        let mut i: usize = 0;
        let ghost moved = hdr.slots@;
        while i < hdr.slots.len()
            invariant
                i <= hdr.slots@.len(),
                hdr.slots@.len() == slots.len(),
                moved.len() == slots.len(),
                forall|j: int|
                    0 <= j < slots.len() ==> #[trigger] moved[j] == if is_live(slots[j]) {
                        packed_slot(slots, j, 0)
                    } else {
                        slots[j]
                    },
                forall|j: int|
                    0 <= j < i ==> #[trigger] hdr.slots@[j] == packed_slot(
                        slots,
                        j,
                        write_pos as int,
                    ),
                forall|j: int| i <= j < slots.len() ==> #[trigger] hdr.slots@[j] == moved[j],
                write_pos <= PAGE_SIZE,
                hdr.pagemetadata == (PageMetadata {
                    page_id: metadata_of(first).page_id,
                    num_slots: metadata_of(first).num_slots,
                    offset_of_free_space: header_size as u16,
                    size_of_free_space: free_size,
                }),
            decreases hdr.slots@.len() - i,
        {
            let slot: Slot = hdr.slots[i];
            if slot.size_of_record == 0 {
                hdr.slots.set(
                    i,
                    Slot {
                        slot_id: slot.slot_id,
                        offset_of_record: write_pos as u16,
                        size_of_record: 0,
                    },
                );
            }
            i += 1;
        }
        let ghost packed = self@;
        self.write_header(&hdr);
        proof {
            lemma_header_written(self@, hdr.pagemetadata, hdr.slots@);
            lemma_bytes_from_all(first, slots, bound as int);
            let new_slots = hdr.slots@;
            assert forall|i: int| 0 <= i < slots.len() implies record_of(self@, new_slots[i])
                == record_of(first, slots[i]) && (is_live(slots[i]) ==> write_pos
                <= new_slots[i].offset_of_record && record_end(new_slots[i]) <= PAGE_SIZE) by {
                if is_live(slots[i]) {
                    lemma_packed_range(slots, bound as int, i);
                    assert(self@.subrange(
                        packed_offset(slots, i),
                        packed_offset(slots, i) + slots[i].size_of_record,
                    ) =~= packed.subrange(
                        packed_offset(slots, i),
                        packed_offset(slots, i) + slots[i].size_of_record,
                    ));
                }
            }
            assert(records_of(self@) =~= records_of(first));
            assert forall|i: int, j: int|
                0 <= i < new_slots.len() && 0 <= j < new_slots.len() && i != j && is_live(
                    #[trigger] new_slots[i],
                ) && is_live(#[trigger] new_slots[j]) implies apart(new_slots[i], new_slots[j]) by {
                assert(apart(slots[i], slots[j]));
                lemma_packed_range(slots, bound as int, i);
                lemma_packed_range(slots, bound as int, j);
                if slots[i].offset_of_record < slots[j].offset_of_record {
                    lemma_bytes_from_gap(
                        slots,
                        slots[i].offset_of_record as int,
                        slots[j].offset_of_record as int,
                        i,
                    );
                } else {
                    lemma_bytes_from_gap(
                        slots,
                        slots[j].offset_of_record as int,
                        slots[i].offset_of_record as int,
                        j,
                    );
                }
            }
        }
    }

    fn write_header(&mut self, header: &Header) {
        self.write_metadata(header.pagemetadata);
        let mut offset: usize = 8;
        let mut i: usize = 0;
        while i < header.slots.len()
            invariant
                i <= header.slots@.len(),
                offset == slot_position(i as int),
                slot_position(header.slots@.len() as int) <= PAGE_SIZE,
                metadata_of(self@) == header.pagemetadata,
                forall|j: int|
                    0 <= j < i ==> slot_of(self@, #[trigger] slot_position(j)) == header.slots@[j],
                forall|k: int|
                    slot_position(i as int) <= k < PAGE_SIZE ==> self@[k] == old(self)@[k],
            decreases header.slots@.len() - i,
        {
            let ghost before = self@;
            self.write_slot(offset, header.slots[i]);
            assert forall|j: int| 0 <= j < i implies slot_of(self@, #[trigger] slot_position(j))
                == header.slots@[j] by {
                assert(slot_of(self@, slot_position(j)) == slot_of(before, slot_position(j)));
            }
            offset += 6;
            i += 1;
        }
    }
}

/// The consuming iterator of a page: its live records in ascending order
/// of slot id.
pub struct HeapPageIntoIter {
    page: Page,
    current_slot: usize,
}

impl HeapPageIntoIter {
    /// Whether the iterator stands on a sound heap page.
    pub closed spec fn wf(&self) -> bool {
        is_heap_page(self.page@)
    }

    /// What the iterator has yet to yield.
    pub closed spec fn remaining(&self) -> Seq<(Seq<u8>, SlotId)> {
        live_items(records_of(self.page@), self.current_slot as int)
    }

    /// The next live record and its slot id; `None` once all are through.
    pub fn next(&mut self) -> (item: Option<(Vec<u8>, SlotId)>)
        requires
            old(self).wf(),
        ensures
            final(self).wf(),
            match item {
                Some((bytes, slot_id)) => {
                    &&& old(self).remaining().len() > 0
                    &&& (bytes@, slot_id) == old(self).remaining()[0]
                    &&& final(self).remaining() == old(self).remaining().drop_first()
                },
                None => old(self).remaining().len() == 0 && final(self).remaining().len() == 0,
            },
    {
        proof {
            lemma_heap_page_fits(self.page@);
        }
        let slots = self.page.read_header().slots;
        let ghost records = records_of(self.page@);
        while self.current_slot < slots.len()
            invariant
                self.page == old(self).page,
                is_heap_page(self.page@),
                slots@ == slots_of(self.page@),
                records == records_of(self.page@),
                live_items(records, self.current_slot as int) == old(self).remaining(),
            decreases slots@.len() - self.current_slot,
        {
            let slot: Slot = slots[self.current_slot];
            if slot.size_of_record > 0 {
                let start: usize = slot.offset_of_record as usize;
                let data = self.page.read_range(start, slot.size_of_record as usize);
                let ghost rest = live_items(records, self.current_slot + 1);
                proof {
                    let head = seq![(records[self.current_slot as int]->Some_0, slot.slot_id)];
                    assert((head + rest).drop_first() =~= rest);
                }
                self.current_slot += 1;
                return Some((data, slot.slot_id));
            }
            // a deleted slot is passed over
            self.current_slot += 1;
        }
        None
    }
}

impl Page {
    /// Turns the page into the iterator over its live records.
    pub fn into_iter(self) -> (iter: HeapPageIntoIter)
        requires
            is_heap_page(self@),
        ensures
            iter.wf(),
            iter.remaining() == live_items(records_of(self@), 0),
    {
        HeapPageIntoIter { page: self, current_slot: 0 }
    }
}

} // verus!
