//! The storage manager: value-grained insert, update, delete and read over
//! the heap files of its containers. Every change reads a page, changes
//! it and writes it back whole.
use vstd::prelude::*;
use std::collections::HashMap;
use crate::error::CrustyError;
use crate::heap_page::{is_heap_page, HeapPage};
use crate::heapfile::{
    can_write, images_after_write, is_file_image, pages_of_image, HeapFile, MAX_PAGES,
};
use crate::heapfileiter::HeapFileIterator;
use crate::ids::{Permissions, StateType, TransactionId, ValueId};
use crate::page::Page;
use crate::store_model::{
    delete_fails, file_values, ids_suffice, first_fit, first_fit_from, has_room, have_room, id_after_insert,
    ids_after_inserts, lemma_first_fit_from, pages_after_delete, pages_after_delete_of,
    pages_after_insert, pages_after_inserts, stored_value,
};
use crate::{ContainerId, PageId, PAGE_SIZE};

verus! {

broadcast use vstd::std_specs::hash::group_hash_axioms;

/// The directory, below the storage directory, that holds the heap files.
pub const STORAGE_DIR: &'static str = "heapstore";

/// The text that `Debug` formatting gives for the page with this image.
pub uninterp spec fn page_debug_text(image: Seq<u8>) -> Seq<char>;

/// Calls `format!` with `{:?}` on a page, which runs the `Debug` that
/// `derive` wrote for `Page`. Believed, not proved: the text is a
/// function of the page image alone. No more is claimed of it.
#[verifier::external_body]
fn debug_text(page: &Page) -> (text: String)
    ensures
        text@ == page_debug_text(page@),
{
    format!("{:?}", page)
}

/// The storage manager.
pub struct StorageManager {
    containers: HashMap<ContainerId, HeapFile>,
}

impl View for StorageManager {
    type V = Map<ContainerId, Seq<Seq<Option<Seq<u8>>>>>;

    /// For each container, the records of each of its pages, by page id
    /// and slot id.
    closed spec fn view(&self) -> Map<ContainerId, Seq<Seq<Option<Seq<u8>>>>> {
        Map::new(
            |c: ContainerId| self.containers@.contains_key(c),
            |c: ContainerId| self.containers@[c].records(),
        )
    }
}

/// The counts of a container, from what the counters of its heap file
/// gave: zeros where there is no heap file to ask.
pub fn counts_or_zeros(counted: Option<(u16, u16)>) -> (counts: (u16, u16))
    ensures
        counts == match counted {
            Some(of_file) => of_file,
            None => (0u16, 0u16),
        },
{
    match counted {
        Some(of_file) => of_file,
        None => (0, 0),
    }
}

/// The byte sequences that `values` hold.
pub open spec fn byte_seqs(values: Seq<Vec<u8>>) -> Seq<Seq<u8>> {
    Seq::new(values.len(), |i: int| values[i]@)
}

impl StorageManager {
    /// The pages of a container, if it is there.
    pub open spec fn pages_of(&self, container_id: ContainerId) -> Option<
        Seq<Seq<Option<Seq<u8>>>>,
    > {
        if self@.contains_key(container_id) {
            Some(self@[container_id])
        } else {
            None
        }
    }

    /// The page images of a container.
    pub closed spec fn images(&self, container_id: ContainerId) -> Seq<Seq<u8>> {
        self.containers@[container_id]@
    }

    /// The invariant of the storage manager: every container has a sound
    /// heap file of its own.
    pub closed spec fn wf(&self) -> bool {
        forall|c: ContainerId| #[trigger]
            self.containers@.contains_key(c) ==> self.containers@[c].wf()
                && self.containers@[c].container() == c
    }

    /// Page ids and slot ids can name every page and every slot of a
    /// container of a sound storage manager.
    pub proof fn lemma_ids_suffice(&self, container_id: ContainerId)
        requires
            self.wf(),
            self@.contains_key(container_id),
        ensures
            ids_suffice(self@[container_id]),
    {
    }

    /// A storage manager without containers.
    pub fn new() -> (sm: StorageManager)
        ensures
            sm.wf(),
            sm@ == Map::<ContainerId, Seq<Seq<Option<Seq<u8>>>>>::empty(),
    {
        let sm = StorageManager { containers: HashMap::new() };
        assert(sm@ =~= Map::<ContainerId, Seq<Seq<Option<Seq<u8>>>>>::empty());
        sm
    }

    /// Whether the manager has the container.
    pub fn has_container(&self, container_id: ContainerId) -> (has: bool)
        ensures
            has == self@.contains_key(container_id),
    {
        self.containers.contains_key(&container_id)
    }

    /// Takes `bytes` as the heap file of a container, in place of what
    /// the container held. Fails, and changes nothing, unless the bytes
    /// are the image of a heap file.
    pub fn load_container(&mut self, container_id: ContainerId, bytes: &[u8]) -> (loaded: Result<
        (),
        CrustyError,
    >)
        requires
            old(self).wf(),
        ensures
            final(self).wf(),
            loaded is Ok <==> is_file_image(bytes@),
            loaded is Ok ==> final(self)@.contains_key(container_id) && final(self).images(
                container_id,
            ) == pages_of_image(bytes@) && final(self)@.remove(container_id) == old(self)@.remove(
                container_id,
            ),
            loaded is Err ==> final(self)@ == old(self)@ && loaded->Err_0 is IOError,
    {
        match HeapFile::from_bytes(container_id, bytes) {
            Ok(file) => {
                self.containers.insert(container_id, file);
                assert(self@.remove(container_id) =~= old(self)@.remove(container_id));
                Ok(())
            },
            Err(e) => Err(e),
        }
    }

    /// The image of the heap file of a container: its page images one
    /// after the other. `None` if there is no such container.
    pub fn container_bytes(&self, container_id: ContainerId) -> (bytes: Option<Vec<u8>>)
        ensures
            match bytes {
                Some(b) => self@.contains_key(container_id) && pages_of_image(b@) == self.images(
                    container_id,
                ) && b@.len() == self.images(container_id).len() * PAGE_SIZE,
                None => !self@.contains_key(container_id),
            },
    {
        match self.containers.get(&container_id) {
            Some(file) => Some(file.to_bytes()),
            None => None,
        }
    }

    /// A copy of a page of a container, if both are there.
    pub fn get_page(
        &self,
        container_id: ContainerId,
        page_id: PageId,
        _tid: TransactionId,
        _perm: Permissions,
        _pin: bool,
    ) -> (page: Option<Page>)
        ensures
            match page {
                Some(p) => self@.contains_key(container_id) && page_id < self.images(
                    container_id,
                ).len() && p@ == self.images(container_id)[page_id as int],
                None => !self@.contains_key(container_id) || page_id >= self.images(
                    container_id,
                ).len(),
            },
            self.wf() && page is Some ==> is_heap_page(page->Some_0@),
    {
        match self.containers.get(&container_id) {
            Some(file) => {
                match file.read_page_from_file(page_id) {
                    Ok(page) => Some(page),
                    Err(_) => None,
                }
            },
            None => None,
        }
    }

    /// Writes a page to the heap file of a container, at the place that
    /// the page id names. Fails, and changes nothing, if there is no such
    /// container or the page cannot be written there.
    pub fn write_page(&mut self, container_id: ContainerId, page: &Page, _tid: TransactionId) -> (written:
        Result<(), CrustyError>)
        requires
            old(self).wf(),
            is_heap_page(page@),
        ensures
            final(self).wf(),
            final(self)@.dom() == old(self)@.dom(),
            written is Ok <==> old(self)@.contains_key(container_id) && can_write(
                old(self).images(container_id),
                page@,
            ),
            written is Ok ==> final(self).images(container_id) == images_after_write(
                old(self).images(container_id),
                page@,
            ) && final(self)@.remove(container_id) == old(self)@.remove(container_id),
            written is Err ==> final(self)@ == old(self)@,
    {
        let taken = self.containers.remove(&container_id);
        if taken.is_none() {
            assert(self@ =~= old(self)@);
            return Err(CrustyError::CrustyError("Container not found".to_owned()));
        }
        let mut file = taken.unwrap();
        let ghost before = file;
        let written = file.write_page_to_file(page);
        self.containers.insert(container_id, file);
        proof {
            assert(self@.dom() =~= old(self)@.dom());
            if written is Err {
                assert(file@ == before@);
                assert(self@ =~= old(self)@);
            } else {
                assert(self@.remove(container_id) =~= old(self)@.remove(container_id));
            }
        }
        written
    }

    /// The number of pages of a container; zero if there is no such
    /// container.
    pub fn get_num_pages(&self, container_id: ContainerId) -> (count: PageId)
        requires
            self.wf(),
        ensures
            count == if self@.contains_key(container_id) {
                self@[container_id].len()
            } else {
                0
            },
    {
        match self.containers.get(&container_id) {
            Some(file) => file.num_pages(),
            None => 0,
        }
    }

    /// How many pages were read from and written to the heap file of a
    /// container; zeros if there is no such container. The counters are
    /// atomic and are changed through shared references, so nothing is
    /// known of the counts of a container that is there: they are what
    /// the counters give, handed on by `counts_or_zeros`.
    pub fn get_hf_read_write_count(&self, container_id: ContainerId) -> (counts: (u16, u16))
        ensures
            !self@.contains_key(container_id) ==> counts == (0u16, 0u16),
    {
        let counted = match self.containers.get(&container_id) {
            Some(file) => Some((file.read_count(), file.write_count())),
            None => None,
        };
        counts_or_zeros(counted)
    }

    /// What `Debug` formatting prints of a page; nothing if the page is
    /// not there.
    pub fn get_page_debug(&self, container_id: ContainerId, page_id: PageId) -> (text: String)
        ensures
            text@ == if self@.contains_key(container_id) && page_id < self.images(
                container_id,
            ).len() {
                page_debug_text(self.images(container_id)[page_id as int])
            } else {
                Seq::<char>::empty()
            },
    {
        match self.get_page(
            container_id,
            page_id,
            TransactionId::new(),
            Permissions::ReadOnly,
            false,
        ) {
            Some(p) => debug_text(&p),
            None => String::new(),
        }
    }

    /// Makes the container, without pages, unless it is there already.
    pub fn create_container(
        &mut self,
        container_id: ContainerId,
        _name: Option<String>,
        _container_type: StateType,
        _dependencies: Option<Vec<ContainerId>>,
    ) -> (created: Result<(), CrustyError>)
        requires
            old(self).wf(),
        ensures
            final(self).wf(),
            created is Ok,
            final(self)@ == if old(self)@.contains_key(container_id) {
                old(self)@
            } else {
                old(self)@.insert(container_id, Seq::empty())
            },
    {
        if !self.containers.contains_key(&container_id) {
            let file = HeapFile::new(container_id);
            assert(file.records() =~= Seq::<Seq<Option<Seq<u8>>>>::empty());
            self.containers.insert(container_id, file);
            assert(self@ =~= old(self)@.insert(container_id, Seq::empty()));
        }
        Ok(())
    }

    /// Makes the container of a table.
    pub fn create_table(&mut self, container_id: ContainerId) -> (created: Result<
        (),
        CrustyError,
    >)
        requires
            old(self).wf(),
        ensures
            final(self).wf(),
            created is Ok,
            final(self)@ == if old(self)@.contains_key(container_id) {
                old(self)@
            } else {
                old(self)@.insert(container_id, Seq::empty())
            },
    {
        self.create_container(container_id, None, StateType::BaseTable, None)
    }

    /// Removes the container and all that it holds, if it is there.
    pub fn remove_container(&mut self, container_id: ContainerId) -> (removed: Result<
        (),
        CrustyError,
    >)
        requires
            old(self).wf(),
        ensures
            final(self).wf(),
            removed is Ok,
            final(self)@ == old(self)@.remove(container_id),
    {
        let _ = self.containers.remove(&container_id);
        assert(self@ =~= old(self)@.remove(container_id));
        Ok(())
    }

    /// Whether the container is there and an insertion of `len` bytes
    /// finds a place in it: whether `insert_value` can be called.
    pub fn has_room_for(&self, container_id: ContainerId, len: usize) -> (room: bool)
        requires
            self.wf(),
        ensures
            room == (self@.contains_key(container_id) && has_room(self@[container_id], len as int)),
    {
        let found = self.containers.get(&container_id);
        if found.is_none() {
            return false;
        }
        let hf = found.unwrap();
        let ghost pages_before = hf.records();
        let pages: PageId = hf.num_pages();
        let mut pid: PageId = 0;
        proof {
            lemma_first_fit_from(pages_before, len as int, 0);
        }
        while pid < pages
            invariant
                pid <= pages,
                pages == hf@.len(),
                hf.wf(),
                pages_before == hf.records(),
                self@.contains_key(container_id),
                self@[container_id] == pages_before,
                first_fit_from(pages_before, len as int, pid as int) == first_fit(
                    pages_before,
                    len as int,
                ),
            decreases pages - pid,
        {
            let page = hf.read_page_from_file(pid).unwrap();
            if page.can_add_value(len) {
                return true;
            }
            pid += 1;
        }
        proof {
            crate::slot_model::lemma_stored_bytes_bounds(Seq::<Option<Seq<u8>>>::empty());
            assert(crate::slot_model::stored_bytes(Seq::<Option<Seq<u8>>>::empty()) == 0);
        }
        (pages as usize) < MAX_PAGES && len <= PAGE_SIZE - 14
    }

    /// Stores `value` in the container and says where: on the first page,
    /// in order of page id, that takes it, or on a new page behind the
    /// last where none does. Every other value stays where it is.
    pub fn insert_value(&mut self, container_id: ContainerId, value: Vec<u8>, tid: TransactionId) -> (id:
        ValueId)
        requires
            old(self).wf(),
            old(self)@.contains_key(container_id),
            has_room(old(self)@[container_id], value@.len() as int),
        ensures
            final(self).wf(),
            final(self)@ == old(self)@.insert(
                container_id,
                pages_after_insert(old(self)@[container_id], value@),
            ),
            id == id_after_insert(container_id, old(self)@[container_id], value@),
            old(self)@[container_id].len() <= final(self)@[container_id].len() <= old(
                self,
            )@[container_id].len() + 1,
    {
        let mut hf = self.containers.remove(&container_id).unwrap();
        let ghost file = hf;
        let ghost pages_before = hf.records();
        let ghost len = value@.len() as int;
        let pages: PageId = hf.num_pages();
        let mut pid: PageId = 0;
        proof {
            lemma_first_fit_from(pages_before, len, 0);
        }
        while pid < pages
            invariant
                pid <= pages,
                pages == hf@.len(),
                hf == file,
                hf.wf(),
                hf.container() == container_id,
                pages_before == hf.records(),
                old(self).wf(),
                old(self).containers@.contains_key(container_id),
                old(self).containers@[container_id] == file,
                self.containers@ == old(self).containers@.remove(container_id),
                first_fit_from(pages_before, len, pid as int) == first_fit(pages_before, len),
                len == value@.len(),
            decreases pages - pid,
        {
            let mut page = hf.read_page_from_file(pid).unwrap();
            let placed = page.add_value(value.as_slice());
            if placed.is_some() {
                let slot = placed.unwrap();
                let written = hf.write_page_to_file(&page);
                let _ = written.unwrap();
                proof {
                    assert(hf.records() =~= pages_after_insert(pages_before, value@));
                }
                self.containers.insert(container_id, hf);
                proof {
                    assert(self@ =~= old(self)@.insert(
                        container_id,
                        pages_after_insert(pages_before, value@),
                    ));
                }
                return ValueId {
                    container_id,
                    segment_id: None,
                    page_id: Some(pid),
                    slot_id: Some(slot),
                };
            }
            pid += 1;
        }
        // no page takes the value: a new page does
        let pid: PageId = pages;
        let mut page = Page::new(pid);
        let slot = page.add_value(value.as_slice()).unwrap();
        let written = hf.write_page_to_file(&page);
        let _ = written.unwrap();
        proof {
            assert(hf.records() =~= pages_after_insert(pages_before, value@));
        }
        self.containers.insert(container_id, hf);
        proof {
            assert(self@ =~= old(self)@.insert(
                container_id,
                pages_after_insert(pages_before, value@),
            ));
        }
        ValueId { container_id, segment_id: None, page_id: Some(pid), slot_id: Some(slot) }
    }

    /// Stores `values` one after the other, as `insert_value` does, and
    /// says where, in the order of the values.
    pub fn insert_values(
        &mut self,
        container_id: ContainerId,
        values: Vec<Vec<u8>>,
        tid: TransactionId,
    ) -> (ids: Vec<ValueId>)
        requires
            old(self).wf(),
            old(self)@.contains_key(container_id),
            have_room(old(self)@[container_id], byte_seqs(values@)),
        ensures
            final(self).wf(),
            final(self)@ == old(self)@.insert(
                container_id,
                pages_after_inserts(old(self)@[container_id], byte_seqs(values@)),
            ),
            ids@ == ids_after_inserts(
                container_id,
                old(self)@[container_id],
                byte_seqs(values@),
            ),
    {
        let mut ret: Vec<ValueId> = Vec::new();
        let ghost all = byte_seqs(values@);
        let ghost first = old(self)@[container_id];
        let mut i: usize = 0;
        proof {
            assert(all.skip(0) =~= all);
            assert(self@ =~= old(self)@.insert(container_id, first));
        }
        while i < values.len()
            invariant
                i <= values@.len(),
                all == byte_seqs(values@),
                self.wf(),
                self@.contains_key(container_id),
                self@ == old(self)@.insert(container_id, self@[container_id]),
                have_room(self@[container_id], all.skip(i as int)),
                pages_after_inserts(self@[container_id], all.skip(i as int)) == pages_after_inserts(
                    first,
                    all,
                ),
                ret@ + ids_after_inserts(container_id, self@[container_id], all.skip(i as int))
                    == ids_after_inserts(container_id, first, all),
            decreases values@.len() - i,
        {
            let value = values[i].clone();
            let ghost before = self@;
            proof {
                assert(value@ =~= values@[i as int]@);
                assert(all.skip(i as int)[0] == value@);
                assert(all.skip(i as int).drop_first() =~= all.skip(i + 1));
            }
            let ghost rest_ids = ids_after_inserts(
                container_id,
                pages_after_insert(self@[container_id], value@),
                all.skip(i + 1),
            );
            let id = self.insert_value(container_id, value, tid);
            ret.push(id);
            proof {
                assert(self@ =~= old(self)@.insert(container_id, self@[container_id]));
                assert(ret@ + rest_ids =~= ret@.drop_last() + (seq![id] + rest_ids));
            }
            i += 1;
        }
        proof {
            assert(all.skip(i as int) =~= Seq::<Seq<u8>>::empty());
            assert(ret@ + Seq::<ValueId>::empty() =~= ret@);
        }
        ret
    }

    /// Replaces the value that `id` names: deletes it, as `delete_value`
    /// does, then stores `value`, as `insert_value` does. The identifier
    /// that comes back names the new value; the old one names nothing any
    /// more. Fails, and changes nothing, where the deletion fails.
    pub fn update_value(&mut self, value: Vec<u8>, id: ValueId, _tid: TransactionId) -> (updated:
        Result<ValueId, CrustyError>)
        requires
            old(self).wf(),
            !delete_fails(old(self).pages_of(id.container_id), id) ==> old(self)@.contains_key(
                id.container_id,
            ) && has_room(
                pages_after_delete_of(old(self)@[id.container_id], id),
                value@.len() as int,
            ),
        ensures
            final(self).wf(),
            updated is Err <==> delete_fails(old(self).pages_of(id.container_id), id),
            match updated {
                Ok(new_id) => {
                    &&& final(self)@ == old(self)@.insert(
                        id.container_id,
                        pages_after_insert(
                            pages_after_delete_of(old(self)@[id.container_id], id),
                            value@,
                        ),
                    )
                    &&& new_id == id_after_insert(
                        id.container_id,
                        pages_after_delete_of(old(self)@[id.container_id], id),
                        value@,
                    )
                },
                Err(_) => final(self)@ == old(self)@,
            },
    {
        match self.delete_value(id, _tid) {
            Ok(_) => {},
            Err(e) => {
                return Err(e);
            },
        }
        let ghost deleted = self@;
        let new_id = self.insert_value(id.container_id, value, _tid);
        proof {
            assert(self@ =~= old(self)@.insert(
                id.container_id,
                pages_after_insert(pages_after_delete_of(old(self)@[id.container_id], id), value@),
            ));
        }
        Ok(new_id)
    }

    /// Deletes the value that `id` names. Nothing changes, and that is no
    /// failure, where `id` names no page or no slot, or a slot that holds
    /// nothing. Fails where `id` names a page and a slot but the container
    /// or the page is not there.
    pub fn delete_value(&mut self, id: ValueId, tid: TransactionId) -> (deleted: Result<
        (),
        CrustyError,
    >)
        requires
            old(self).wf(),
        ensures
            final(self).wf(),
            deleted is Err <==> delete_fails(old(self).pages_of(id.container_id), id),
            final(self)@ == if deleted is Ok && old(self)@.contains_key(id.container_id) {
                old(self)@.insert(
                    id.container_id,
                    pages_after_delete_of(old(self)@[id.container_id], id),
                )
            } else {
                old(self)@
            },
    {
        proof {
            if old(self)@.contains_key(id.container_id) {
                assert(old(self)@ =~= old(self)@.insert(
                    id.container_id,
                    old(self)@[id.container_id],
                ));
            }
        }
        if id.page_id.is_some() && id.slot_id.is_some() {
            let pid: PageId = id.page_id.unwrap();
            let slot = id.slot_id.unwrap();
            let taken = self.containers.remove(&id.container_id);
            if taken.is_none() {
                assert(self@ =~= old(self)@);
                return Err(CrustyError::CrustyError("Container not found".to_owned()));
            }
            let mut hf = taken.unwrap();
            let ghost pages_before = hf.records();
            match hf.read_page_from_file(pid) {
                Ok(mut page) => {
                    let _ = page.delete_value(slot);
                    let written = hf.write_page_to_file(&page);
                    proof {
                        assert(hf.records() =~= pages_after_delete(
                            pages_before,
                            pid as int,
                            slot as int,
                        ));
                    }
                    self.containers.insert(id.container_id, hf);
                    proof {
                        assert(self@ =~= old(self)@.insert(
                            id.container_id,
                            pages_after_delete(pages_before, pid as int, slot as int),
                        ));
                    }
                    return written;
                },
                Err(e) => {
                    self.containers.insert(id.container_id, hf);
                    assert(self@ =~= old(self)@);
                    return Err(e);
                },
            }
        }
        Ok(())
    }

    /// A copy of the value that `id` names. Fails where `id` names no
    /// page or no slot, where the container or the page is not there, and
    /// where the slot is not there or holds nothing.
    pub fn get_value(&self, id: ValueId, tid: TransactionId, perm: Permissions) -> (value: Result<
        Vec<u8>,
        CrustyError,
    >)
        requires
            self.wf(),
        ensures
            match value {
                Ok(bytes) => {
                    &&& id.page_id is Some
                    &&& id.slot_id is Some
                    &&& self@.contains_key(id.container_id)
                    &&& stored_value(
                        self@[id.container_id],
                        id.page_id->Some_0 as int,
                        id.slot_id->Some_0 as int,
                    ) == Some(bytes@)
                },
                Err(e) => {
                    &&& e is ValidationError
                    &&& id.page_id is None || id.slot_id is None || !self@.contains_key(
                        id.container_id,
                    ) || stored_value(
                        self@[id.container_id],
                        id.page_id->Some_0 as int,
                        id.slot_id->Some_0 as int,
                    ) is None
                },
            },
    {
        if id.page_id.is_some() && id.slot_id.is_some() {
            let pid: PageId = id.page_id.unwrap();
            let slot = id.slot_id.unwrap();
            let found = self.get_page(id.container_id, pid, TransactionId::new(), perm, false);
            if found.is_some() {
                let page = found.unwrap();
                return match page.get_value(slot) {
                    Some(bytes) => Ok(bytes),
                    None => Err(CrustyError::ValidationError("Slot empty".to_owned())),
                };
            }
        }
        Err(CrustyError::ValidationError("ValueId not found".to_owned()))
    }

    /// The iterator over all the values of the container, in ascending
    /// order of page id and slot id.
    pub fn get_iterator(&self, container_id: ContainerId, tid: TransactionId, _perm: Permissions) -> (iter:
        HeapFileIterator<'_>)
        requires
            self.wf(),
            self@.contains_key(container_id),
        ensures
            iter.wf(),
            iter.remaining() == file_values(container_id, self@[container_id], 0),
    {
        let found = self.containers.get(&container_id);
        HeapFileIterator::new(tid, found.unwrap())
    }

    /// The iterator over the values of the container from the page of
    /// `start` on. That page is walked from its first slot, whatever slot
    /// `start` names.
    pub fn get_iterator_from(
        &self,
        container_id: ContainerId,
        tid: TransactionId,
        _perm: Permissions,
        start: ValueId,
    ) -> (iter: HeapFileIterator<'_>)
        requires
            self.wf(),
            self@.contains_key(container_id),
            start.page_id is Some,
        ensures
            iter.wf(),
            iter.remaining() == file_values(
                container_id,
                self@[container_id],
                start.page_id->Some_0 as int,
            ),
    {
        let found = self.containers.get(&container_id);
        HeapFileIterator::new_from(tid, found.unwrap(), start)
    }

    /// Removes every container.
    pub fn reset(&mut self) -> (done: Result<(), CrustyError>)
        ensures
            final(self).wf(),
            done is Ok,
            final(self)@ == Map::<ContainerId, Seq<Seq<Option<Seq<u8>>>>>::empty(),
    {
        self.containers.clear();
        assert(self@ =~= Map::<ContainerId, Seq<Seq<Option<Seq<u8>>>>>::empty());
        Ok(())
    }

    /// Nothing is cached, so there is nothing to clear.
    pub fn clear_cache(&self) {
    }

    /// Nothing is kept that would have to be saved.
    pub fn shutdown(&self) {
    }
}

} // verus!
