//! The iterator over a heap file: the live records of its pages, page by
//! page in ascending page id and, within a page, in ascending slot id.
use vstd::prelude::*;
use crate::heap_page::HeapPageIntoIter;
use crate::heapfile::HeapFile;
use crate::ids::{TransactionId, ValueId};
use crate::store_model::{file_values, with_value_ids};
use crate::PageId;

verus! {

/// The iterator over the records of a heap file.
pub struct HeapFileIterator<'a> {
    hf: &'a HeapFile,
    tid: TransactionId,
    current_page_id: PageId,
    current_page_iter: Option<HeapPageIntoIter>,
}

impl<'a> HeapFileIterator<'a> {
    /// The invariant of the iterator: it stands on a page of a sound file,
    /// or it is through.
    pub closed spec fn wf(&self) -> bool {
        &&& self.hf.wf()
        &&& match self.current_page_iter {
            Some(iter) => iter.wf() && self.current_page_id < self.hf@.len(),
            None => true,
        }
    }

    /// What the iterator has yet to yield.
    pub closed spec fn remaining(&self) -> Seq<(Seq<u8>, ValueId)> {
        match self.current_page_iter {
            Some(iter) => with_value_ids(
                self.hf.container(),
                self.current_page_id as int,
                iter.remaining(),
            ) + file_values(self.hf.container(), self.hf.records(), self.current_page_id + 1),
            None => Seq::empty(),
        }
    }

    /// The iterator over all the records of `hf`.
    pub fn new(tid: TransactionId, hf: &'a HeapFile) -> (iter: Self)
        requires
            hf.wf(),
        ensures
            iter.wf(),
            iter.remaining() == file_values(hf.container(), hf.records(), 0),
    {
        let mut iter = HeapFileIterator { hf, tid, current_page_id: 0, current_page_iter: None };
        iter.load_next_page_iter();
        iter
    }

    /// The iterator over the records of `hf` from the page of `value_id`
    /// on. That page is walked from its first slot, whatever slot
    /// `value_id` names.
    pub fn new_from(tid: TransactionId, hf: &'a HeapFile, value_id: ValueId) -> (iter: Self)
        requires
            hf.wf(),
            value_id.page_id is Some,
        ensures
            iter.wf(),
            iter.remaining() == file_values(
                hf.container(),
                hf.records(),
                value_id.page_id->Some_0 as int,
            ),
    {
        let mut iter = HeapFileIterator {
            hf,
            tid,
            current_page_id: value_id.page_id.unwrap(),
            current_page_iter: None,
        };
        iter.load_next_page_iter();
        iter
    }

    /// Stands the iterator on the first page from the current one on that
    /// can be read, or ends it where there is none.
    fn load_next_page_iter(&mut self)
        requires
            old(self).hf.wf(),
        ensures
            final(self).wf(),
            final(self).hf == old(self).hf,
            final(self).current_page_id >= old(self).current_page_id,
            final(self).remaining() == file_values(
                old(self).hf.container(),
                old(self).hf.records(),
                old(self).current_page_id as int,
            ),
    {
        while self.current_page_id < self.hf.num_pages()
            invariant
                self.hf == old(self).hf,
                self.hf.wf(),
                self.current_page_id >= old(self).current_page_id,
                file_values(self.hf.container(), self.hf.records(), self.current_page_id as int)
                    == file_values(
                    old(self).hf.container(),
                    old(self).hf.records(),
                    old(self).current_page_id as int,
                ),
            decreases self.hf@.len() - self.current_page_id,
        {
            match self.hf.read_page_from_file(self.current_page_id) {
                Ok(page) => {
                    self.current_page_iter = Some(page.into_iter());
                    return ;
                },
                Err(_) => {
                    // a page that cannot be read is passed over
                    self.current_page_id += 1;
                },
            }
        }
        self.current_page_iter = None;
    }

    /// The next record and its identifier; `None` once all are through.
    pub fn next(&mut self) -> (item: Option<(Vec<u8>, ValueId)>)
        requires
            old(self).wf(),
        ensures
            final(self).wf(),
            match item {
                Some((bytes, value_id)) => {
                    &&& old(self).remaining().len() > 0
                    &&& (bytes@, value_id) == old(self).remaining()[0]
                    &&& final(self).remaining() == old(self).remaining().drop_first()
                },
                None => old(self).remaining().len() == 0 && final(self).remaining().len() == 0,
            },
    {
        loop
            invariant
                self.wf(),
                self.hf == old(self).hf,
                self.remaining() == old(self).remaining(),
            decreases
                    if self.current_page_iter is Some {
                        self.hf@.len() - self.current_page_id + 1
                    } else {
                        0
                    },
        {
            if self.current_page_iter.is_some() {
                let mut iter = self.current_page_iter.take().unwrap();
                let ghost before = iter.remaining();
                let ghost rest = file_values(
                    self.hf.container(),
                    self.hf.records(),
                    self.current_page_id + 1,
                );
                let found = iter.next();
                if found.is_some() {
                    let (data, slot_id) = found.unwrap();
                    let value_id = ValueId {
                        container_id: self.hf.get_container_id(),
                        segment_id: None,
                        page_id: Some(self.current_page_id),
                        slot_id: Some(slot_id),
                    };
                    self.current_page_iter = Some(iter);
                    proof {
                        let tagged = with_value_ids(
                            self.hf.container(),
                            self.current_page_id as int,
                            before,
                        );
                        assert((tagged + rest).drop_first() =~= with_value_ids(
                            self.hf.container(),
                            self.current_page_id as int,
                            before.drop_first(),
                        ) + rest);
                    }
                    return Some((data, value_id));
                } else {
                    proof {
                        assert(with_value_ids(
                            self.hf.container(),
                            self.current_page_id as int,
                            before,
                        ) =~= Seq::<(Seq<u8>, ValueId)>::empty());
                        assert(Seq::<(Seq<u8>, ValueId)>::empty() + rest =~= rest);
                    }
                    self.current_page_id += 1;
                    self.load_next_page_iter();
                }
            } else {
                return None;
            }
        }
    }
}

} // verus!
