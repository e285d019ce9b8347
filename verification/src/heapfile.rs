//! A heap file: the pages of one container, in order of page id. Page `n`
//! takes the bytes `n * PAGE_SIZE .. (n + 1) * PAGE_SIZE` of the file image.
use vstd::prelude::*;
use std::sync::atomic::AtomicU16;
use crate::counters::{count_of, count_one, new_counter};
use crate::error::CrustyError;
use crate::heap_page::{is_heap_page, metadata_of, records_of};
use crate::page::Page;
use crate::{ContainerId, PageId, PAGE_SIZE};

verus! {

/// The most pages that a heap file holds: as many as page ids can count.
pub const MAX_PAGES: usize = 0xFFFF;

/// Whether `images` are the pages of a heap file: sound heap pages, each
/// carrying its position as page id, and no more than page ids can count.
pub open spec fn are_file_pages(images: Seq<Seq<u8>>) -> bool {
    &&& images.len() <= MAX_PAGES
    &&& forall|n: int|
        0 <= n < images.len() ==> is_heap_page(#[trigger] images[n]) && metadata_of(
            images[n],
        ).page_id == n
}

/// The bytes of page `n` in a file image.
pub open spec fn page_image_at(bytes: Seq<u8>, n: int) -> Seq<u8> {
    bytes.subrange(n * PAGE_SIZE, (n + 1) * PAGE_SIZE)
}

/// The pages that a file image of whole pages is made of.
pub open spec fn pages_of_image(bytes: Seq<u8>) -> Seq<Seq<u8>> {
    Seq::new((bytes.len() / PAGE_SIZE as nat) as nat, |n: int| page_image_at(bytes, n))
}

/// Whether `bytes` are the image of a heap file.
pub open spec fn is_file_image(bytes: Seq<u8>) -> bool {
    &&& bytes.len() % PAGE_SIZE as nat == 0
    &&& are_file_pages(pages_of_image(bytes))
}

/// Whether a page with the image `page` can be written: its page id names
/// a page of the file, or the place behind the last page of a file that
/// is not full.
pub open spec fn can_write(images: Seq<Seq<u8>>, page: Seq<u8>) -> bool {
    metadata_of(page).page_id < images.len() || (metadata_of(page).page_id == images.len()
        && images.len() < MAX_PAGES)
}

/// The page images after a page with the image `page` was written:
/// unchanged where it cannot be written.
pub open spec fn images_after_write(images: Seq<Seq<u8>>, page: Seq<u8>) -> Seq<Seq<u8>> {
    if !can_write(images, page) {
        images
    } else if metadata_of(page).page_id < images.len() {
        images.update(metadata_of(page).page_id as int, page)
    } else {
        images.push(page)
    }
}

/// Writing a page back as it was read changes no byte of the file.
pub proof fn lemma_write_of_read_changes_nothing(images: Seq<Seq<u8>>, page_id: PageId)
    requires
        are_file_pages(images),
        page_id < images.len(),
    ensures
        can_write(images, images[page_id as int]),
        images_after_write(images, images[page_id as int]) == images,
{
    assert(images.update(page_id as int, images[page_id as int]) =~= images);
}

/// The pages of one container.
pub struct HeapFile {
    pages: Vec<Page>,
    container_id: ContainerId,
    read_count: AtomicU16,
    write_count: AtomicU16,
}

impl View for HeapFile {
    type V = Seq<Seq<u8>>;

    closed spec fn view(&self) -> Seq<Seq<u8>> {
        Seq::new(self.pages@.len(), |n: int| self.pages@[n]@)
    }
}

impl HeapFile {
    /// The container that the file belongs to.
    pub closed spec fn container(&self) -> ContainerId {
        self.container_id
    }

    /// The container that the file belongs to.
    pub fn get_container_id(&self) -> (id: ContainerId)
        ensures
            id == self.container(),
    {
        self.container_id
    }

    /// The records of each page, by page id and slot id.
    pub open spec fn records(&self) -> Seq<Seq<Option<Seq<u8>>>> {
        Seq::new(self@.len(), |n: int| records_of(self@[n]))
    }

    /// How many pages were read from the file. The counter is there to be
    /// looked at; nothing is known of its value.
    pub fn read_count(&self) -> u16 {
        count_of(&self.read_count)
    }

    /// How many pages were written to the file. The counter is there to
    /// be looked at; nothing is known of its value.
    pub fn write_count(&self) -> u16 {
        count_of(&self.write_count)
    }

    /// The invariant of a heap file, over its page images.
    pub open spec fn wf(&self) -> bool {
        are_file_pages(self@)
    }

    /// The file of a container that holds nothing yet: no pages.
    pub fn new(container_id: ContainerId) -> (file: HeapFile)
        ensures
            file.wf(),
            file@ == Seq::<Seq<u8>>::empty(),
            file.container() == container_id,
    {
        let file = HeapFile {
            pages: Vec::new(),
            container_id,
            read_count: new_counter(),
            write_count: new_counter(),
        };
        assert(file@ =~= Seq::<Seq<u8>>::empty());
        file
    }

    /// The number of pages in the file.
    pub fn num_pages(&self) -> (count: PageId)
        requires
            self.wf(),
        ensures
            count == self@.len(),
    {
        self.pages.len() as PageId
    }

    /// A copy of page `page_id`. Fails if the file has no such page.
    pub fn read_page_from_file(&self, page_id: PageId) -> (read: Result<Page, CrustyError>)
        ensures
            match read {
                Ok(page) => page_id < self@.len() && page@ == self@[page_id as int],
                Err(e) => page_id >= self@.len() && e is IOError,
            },
    {
        if page_id as usize >= self.pages.len() {
            return Err(CrustyError::IOError("page is not in the file".to_owned()));
        }
        count_one(&self.read_count);
        Ok(Page::from_bytes(*self.pages[page_id as usize].to_bytes()))
    }

    /// Writes `page` at the position that its page id names: over the page
    /// that is there, or behind the last page, by which the file grows by
    /// exactly that page. Fails, and changes nothing, if that would leave
    /// a gap or if the file is full.
    pub fn write_page_to_file(&mut self, page: &Page) -> (written: Result<(), CrustyError>)
        requires
            old(self).wf(),
            is_heap_page(page@),
        ensures
            final(self).wf(),
            final(self).container() == old(self).container(),
            written is Ok <==> can_write(old(self)@, page@),
            final(self)@ == images_after_write(old(self)@, page@),
            written is Err ==> written->Err_0 is IOError,
    {
        let page_id: usize = page.get_page_id() as usize;
        let copy = Page::from_bytes(*page.to_bytes());
        if page_id < self.pages.len() {
            self.pages.set(page_id, copy);
            assert(self@ =~= old(self)@.update(page_id as int, page@));
        } else if page_id == self.pages.len() && page_id < MAX_PAGES {
            self.pages.push(copy);
            assert(self@ =~= old(self)@.push(page@));
        } else {
            return Err(CrustyError::IOError("page is not next to the file".to_owned()));
        }
        count_one(&self.write_count);
        Ok(())
    }

    /// The file image: the page images one after the other.
    pub fn to_bytes(&self) -> (bytes: Vec<u8>)
        ensures
            bytes@.len() == self@.len() * PAGE_SIZE,
            pages_of_image(bytes@) == self@,
            self.wf() ==> is_file_image(bytes@),
    {
        let mut bytes: Vec<u8> = Vec::new();
        let mut n: usize = 0;
        while n < self.pages.len()
            invariant
                n <= self.pages@.len(),
                bytes@.len() == n * PAGE_SIZE,
                forall|m: int| 0 <= m < n ==> #[trigger] page_image_at(bytes@, m) == self@[m],
            decreases self.pages@.len() - n,
        {
            let ghost before = bytes@;
            let page = &self.pages[n];
            let mut k: usize = 0;
            while k < PAGE_SIZE
                invariant
                    k <= PAGE_SIZE,
                    n < self.pages@.len(),
                    page == self.pages@[n as int],
                    bytes@ == before + page@.take(k as int),
                decreases PAGE_SIZE - k,
            {
                bytes.push(page.data[k]);
                k += 1;
                assert(bytes@ =~= before + page@.take(k as int));
            }
            proof {
                assert(page@.take(PAGE_SIZE as int) =~= page@);
                assert forall|m: int| 0 <= m < n + 1 implies #[trigger] page_image_at(bytes@, m)
                    == self@[m] by {
                    if m < n {
                        assert(page_image_at(bytes@, m) =~= page_image_at(before, m));
                    } else {
                        assert(page_image_at(bytes@, m) =~= page@);
                    }
                }
            }
            n += 1;
        }
        assert(bytes@.len() % 4096 == 0 && bytes@.len() / 4096 == n) by {
            assert(bytes@.len() == n * 4096);
        }
        assert(pages_of_image(bytes@) =~= self@);
        bytes
    }

    /// The file whose image is `bytes`. Fails unless the bytes are whole
    /// pages, no more than a file holds, each a sound heap page that
    /// carries its position as page id.
    pub fn from_bytes(container_id: ContainerId, bytes: &[u8]) -> (read: Result<
        HeapFile,
        CrustyError,
    >)
        ensures
            match read {
                Ok(file) => {
                    &&& is_file_image(bytes@)
                    &&& file.wf()
                    &&& file@ == pages_of_image(bytes@)
                    &&& file.container() == container_id
                },
                Err(e) => !is_file_image(bytes@) && e is IOError,
            },
    {
        if bytes.len() % PAGE_SIZE != 0 || bytes.len() / PAGE_SIZE > MAX_PAGES {
            return Err(CrustyError::IOError("not the image of a heap file".to_owned()));
        }
        let count: usize = bytes.len() / PAGE_SIZE;
        let mut file = HeapFile::new(container_id);
        let mut n: usize = 0;
        while n < count
            invariant
                n <= count,
                count == bytes@.len() / PAGE_SIZE as nat,
                bytes@.len() % PAGE_SIZE as nat == 0,
                count <= MAX_PAGES,
                file.wf(),
                file.container() == container_id,
                file@ == pages_of_image(bytes@).take(n as int),
            decreases count - n,
        {
            assert((n + 1) * 4096 <= bytes@.len()) by {
                assert(bytes@.len() == 4096 * (bytes@.len() / 4096) + bytes@.len() % 4096);
            }
            let base: usize = n * PAGE_SIZE;
            let mut page = Page::new(0);
            let mut k: usize = 0;
            while k < PAGE_SIZE
                invariant
                    k <= PAGE_SIZE,
                    base == n * PAGE_SIZE,
                    base + PAGE_SIZE <= bytes@.len(),
                    forall|j: int| 0 <= j < k ==> page@[j] == bytes@[base + j],
                decreases PAGE_SIZE - k,
            {
                let ghost before = page@;
                page.data[k] = bytes[base + k];
                assert(page@ =~= before.update(k as int, bytes@[base + k]));
                k += 1;
            }
            assert(page@ =~= pages_of_image(bytes@)[n as int]);
            if !page.is_heap_page() || page.get_page_id() as usize != n {
                return Err(CrustyError::IOError("not the image of a heap file".to_owned()));
            }
            let done = file.write_page_to_file(&page);
            assert(file@ =~= pages_of_image(bytes@).take(n + 1));
            n += 1;
        }
        assert(pages_of_image(bytes@).take(n as int) =~= pages_of_image(bytes@));
        Ok(file)
    }
}

} // verus!
