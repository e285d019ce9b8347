//! The fixed-size byte block that is the unit of storage.
use vstd::prelude::*;
use crate::heap_page::{is_heap_page, lemma_empty_page, metadata_of, records_of};
use crate::{PageId, PAGE_SIZE};

verus! {

/// Bytes taken by the fixed part of a page header.
pub const FIXED_HEADER_SIZE: usize = 8;

/// The 16-bit little-endian number stored at `at` and `at + 1`.
pub open spec fn u16_at(bytes: Seq<u8>, at: int) -> u16 {
    (bytes[at] as int + 256 * (bytes[at + 1] as int)) as u16
}

/// Low byte of the little-endian encoding of `v`.
pub open spec fn low_byte(v: u16) -> u8 {
    (v % 256) as u8
}

/// High byte of the little-endian encoding of `v`.
pub open spec fn high_byte(v: u16) -> u8 {
    (v / 256) as u8
}

/// `bytes` with the little-endian encoding of `v` stored at `at` and `at + 1`.
pub open spec fn with_u16_at(bytes: Seq<u8>, at: int, v: u16) -> Seq<u8> {
    bytes.update(at, low_byte(v)).update(at + 1, high_byte(v))
}

/// `image` with `bytes` stored from `start` on.
pub open spec fn with_bytes_at(image: Seq<u8>, start: int, bytes: Seq<u8>) -> Seq<u8> {
    Seq::new(
        image.len(),
        |k: int|
            if start <= k < start + bytes.len() {
                bytes[k - start]
            } else {
                image[k]
            },
    )
}

/// A page: exactly `PAGE_SIZE` bytes, of which the first two hold its id.
#[derive(Debug, Clone)]
pub struct Page {
    /// The page image, byte for byte as it is stored.
    pub data: [u8; PAGE_SIZE],
}

impl View for Page {
    type V = Seq<u8>;

    open spec fn view(&self) -> Seq<u8> {
        self.data@
    }
}

/// The image of a page that holds no slot: its id, no slots, and all the
/// space behind the fixed header free.
pub open spec fn empty_page_image(page_id: PageId) -> Seq<u8> {
    let zero = Seq::new(PAGE_SIZE as nat, |i: int| 0u8);
    with_u16_at(
        with_u16_at(with_u16_at(with_u16_at(zero, 0, page_id), 2, 0), 4, 8),
        6,
        4088,
    )
}

impl Page {
    /// The number stored little-endian at `at`.
    pub fn read_u16(&self, at: usize) -> (v: u16)
        requires
            at + 1 < PAGE_SIZE,
        ensures
            v == u16_at(self@, at as int),
    {
        let lo: u16 = self.data[at] as u16;
        let hi: u16 = self.data[at + 1] as u16;
        lo + 256 * hi
    }

    /// Stores `v` little-endian at `at`.
    pub fn write_u16(&mut self, at: usize, v: u16)
        requires
            at + 1 < PAGE_SIZE,
        ensures
            final(self)@ == with_u16_at(old(self)@, at as int, v),
    {
        self.data[at] = (v % 256) as u8;
        self.data[at + 1] = (v / 256) as u8;
    }

    /// A copy of the `len` bytes from `start` on.
    pub fn read_range(&self, start: usize, len: usize) -> (bytes: Vec<u8>)
        requires
            start + len <= PAGE_SIZE,
        ensures
            bytes@ == self@.subrange(start as int, start + len),
    {
        let mut bytes: Vec<u8> = Vec::new();
        let mut k: usize = 0;
        while k < len
            invariant
                k <= len,
                start + len <= PAGE_SIZE,
                bytes@ == self@.subrange(start as int, start + k),
            decreases len - k,
        {
            bytes.push(self.data[start + k]);
            k += 1;
            assert(bytes@ =~= self@.subrange(start as int, start + k));
        }
        bytes
    }

    /// Stores `bytes` from `start` on.
    pub fn write_range(&mut self, start: usize, bytes: &[u8])
        requires
            start + bytes@.len() <= PAGE_SIZE,
        ensures
            final(self)@ == with_bytes_at(old(self)@, start as int, bytes@),
    {
        let mut k: usize = 0;
        while k < bytes.len()
            invariant
                k <= bytes@.len(),
                start + bytes@.len() <= PAGE_SIZE,
                self@ == with_bytes_at(old(self)@, start as int, bytes@.take(k as int)),
            decreases bytes@.len() - k,
        {
            self.data[start + k] = bytes[k];
            k += 1;
            assert(self@ =~= with_bytes_at(old(self)@, start as int, bytes@.take(k as int)));
        }
        assert(bytes@.take(k as int) =~= bytes@);
    }

    /// A page with the given id and no slots.
    pub fn new(page_id: PageId) -> (page: Page)
        ensures
            page@ == empty_page_image(page_id),
            is_heap_page(page@),
            records_of(page@) == Seq::<Option<Seq<u8>>>::empty(),
            metadata_of(page@).page_id == page_id,
    {
        proof {
            lemma_empty_page(page_id);
        }
        let mut page = Page { data: [0u8; PAGE_SIZE] };
        assert(page@ =~= Seq::new(PAGE_SIZE as nat, |i: int| 0u8));
        page.write_u16(0, page_id);
        page.write_u16(2, 0);
        page.write_u16(4, 8);
        page.write_u16(6, 4088);
        page
    }

    /// The id that the page carries in its header.
    pub fn get_page_id(&self) -> (id: PageId)
        ensures
            id == u16_at(self@, 0),
    {
        self.read_u16(0)
    }

    /// The page image: always `PAGE_SIZE` bytes.
    pub open spec fn image(&self) -> [u8; PAGE_SIZE] {
        self.data
    }

    /// The page whose image is `data`.
    pub open spec fn of_image(data: [u8; PAGE_SIZE]) -> Page {
        Page { data }
    }

    /// The page image: always `PAGE_SIZE` bytes.
    pub fn to_bytes(&self) -> (bytes: &[u8; PAGE_SIZE])
        ensures
            *bytes == self.image(),
            bytes@ == self@,
            bytes@.len() == PAGE_SIZE,
    {
        &self.data
    }

    /// The page whose image is `data`.
    pub fn from_bytes(data: [u8; PAGE_SIZE]) -> (page: Page)
        ensures
            page == Page::of_image(data),
            page@ == data@,
    {
        Page { data }
    }
}

/// A page is the page of its image, and its image has `PAGE_SIZE` bytes:
/// writing a page out and reading it back gives the same page.
pub proof fn lemma_page_round_trip(page: Page)
    ensures
        Page::of_image(page.image()) == page,
        page.image()@.len() == PAGE_SIZE,
        page.image()@ == page@,
{
}

/// The page of an image has that image.
pub proof fn lemma_image_round_trip(data: [u8; PAGE_SIZE])
    ensures
        Page::of_image(data).image() == data,
{
}

} // verus!
