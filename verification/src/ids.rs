//! Identifiers that the storage interface passes around.
use vstd::prelude::*;
use crate::{ContainerId, PageId, SlotId};

verus! {

/// Identifier of a segment; kept for identifiers that name one.
pub type SegmentId = u8;

/// The address of a stored value: its container and, where known, the
/// segment, the page and the slot.
#[derive(Debug, Clone, Copy, PartialEq, Eq, Structural)]
pub struct ValueId {
    pub container_id: ContainerId,
    pub segment_id: Option<SegmentId>,
    pub page_id: Option<PageId>,
    pub slot_id: Option<SlotId>,
}

impl ValueId {
    /// The identifier of a container as a whole.
    pub fn new(container_id: ContainerId) -> (id: ValueId)
        ensures
            id == (ValueId { container_id, segment_id: None, page_id: None, slot_id: None }),
    {
        ValueId { container_id, segment_id: None, page_id: None, slot_id: None }
    }

    /// The identifier of the value in slot `slot_id` of page `page_id`.
    pub fn new_slot(container_id: ContainerId, page_id: PageId, slot_id: SlotId) -> (id: ValueId)
        ensures
            id == (ValueId {
                container_id,
                segment_id: None,
                page_id: Some(page_id),
                slot_id: Some(slot_id),
            }),
    {
        ValueId { container_id, segment_id: None, page_id: Some(page_id), slot_id: Some(slot_id) }
    }
}

/// Identifier of a transaction. The storage layer takes one with every
/// call and does nothing with it.
#[derive(Debug, Clone, Copy, PartialEq, Eq, Structural)]
pub struct TransactionId {
    pub id: u64,
}

impl TransactionId {
    /// A transaction identifier.
    pub fn new() -> (tid: TransactionId)
        ensures
            tid.id == 0,
    {
        TransactionId { id: 0 }
    }
}

/// What a container is kept for.
#[derive(Debug, Clone, Copy, PartialEq, Eq, Structural)]
pub enum StateType {
    HashTable,
    BaseTable,
    MatView,
}

/// What a caller means to do with what it reads. The storage layer takes
/// one with every read and does nothing with it.
#[derive(Debug, Clone, Copy, PartialEq, Eq, Structural)]
pub enum Permissions {
    ReadOnly,
    ReadWrite,
}

} // verus!
