use crustydb::heap_page::{HeapPage, PageMetadata, Slot};
use crustydb::page::Page;
use crustydb::PAGE_SIZE;

fn law_bytes(seed: u8, len: usize) -> Vec<u8> {
    (0..len).map(|k| seed.wrapping_add((k * 31) as u8)).collect()
}

#[test]
fn page_round_trip() {
    let mut p = Page::new(9);
    p.add_value(&law_bytes(1, 77)).unwrap();
    p.add_value(&law_bytes(2, 33)).unwrap();
    p.delete_value(0).unwrap();
    let bytes = *p.to_bytes();
    assert_eq!(PAGE_SIZE, bytes.len());
    let q = Page::from_bytes(bytes);
    assert_eq!(9, q.get_page_id());
    assert_eq!(bytes[..], q.to_bytes()[..]);
    assert_eq!(None, q.get_value(0));
    assert_eq!(Some(law_bytes(2, 33)), q.get_value(1));
}

#[test]
fn new_page_header_bytes() {
    let p = Page::new(0x0102);
    let bytes = p.to_bytes();
    // page id, no slots, free space from 8 on, 4088 bytes of it
    assert_eq!([0x02, 0x01, 0, 0, 8, 0, 0xf8, 0x0f], bytes[..8]);
    assert!(bytes[8..].iter().all(|b| *b == 0));
    assert!(p.is_heap_page());
    assert_eq!(8, p.get_header_size());
    assert_eq!(4088, p.get_free_space());
}

#[test]
fn header_layout_after_insert() {
    let mut p = Page::new(1);
    assert_eq!(Some(0), p.add_value(&[0xaa, 0xbb, 0xcc]));
    let bytes = p.to_bytes();
    // one slot, free space from 14 on, 4088 - 6 - 3 bytes of it
    assert_eq!([1, 0, 1, 0, 14, 0, 0xef, 0x0f], bytes[..8]);
    // slot 0 at 4093 with 3 bytes
    assert_eq!([0, 0, 0xfd, 0x0f, 3, 0], bytes[8..14]);
    assert_eq!([0xaa, 0xbb, 0xcc], bytes[4093..]);
    let meta = p.get_metadata();
    assert_eq!(
        PageMetadata {
            page_id: 1,
            num_slots: 1,
            offset_of_free_space: 14,
            size_of_free_space: 4079
        },
        meta
    );
    let header = p.read_header();
    assert_eq!(
        vec![Slot {
            slot_id: 0,
            offset_of_record: 4093,
            size_of_record: 3
        }],
        header.slots
    );
}

#[test]
fn metadata_and_slot_bytes() {
    let meta = PageMetadata {
        page_id: 0x1234,
        num_slots: 2,
        offset_of_free_space: 20,
        size_of_free_space: 0x0abc,
    };
    let bytes = meta.to_bytes();
    assert_eq!(vec![0x34, 0x12, 2, 0, 20, 0, 0xbc, 0x0a], bytes);
    assert_eq!(meta, PageMetadata::from_bytes(&bytes));
    let slot = Slot {
        slot_id: 3,
        offset_of_record: 0x0ff0,
        size_of_record: 16,
    };
    let bytes = slot.to_bytes();
    assert_eq!(vec![3, 0, 0xf0, 0x0f, 16, 0], bytes);
    assert_eq!(slot, Slot::from_bytes(&bytes));
}

#[test]
fn slot_ids_are_stable() {
    let mut p = Page::new(0);
    let vals: Vec<Vec<u8>> = (0..10).map(|k| law_bytes(k, 100 + k as usize)).collect();
    for (k, v) in vals.iter().enumerate() {
        assert_eq!(Some(k as u16), p.add_value(v));
    }
    p.delete_value(3).unwrap();
    p.delete_value(6).unwrap();
    p.add_value(&law_bytes(50, 500)).unwrap();
    p.add_value(&law_bytes(51, 20)).unwrap();
    p.add_value(&law_bytes(52, 900)).unwrap();
    for (k, v) in vals.iter().enumerate() {
        if k != 3 && k != 6 {
            assert_eq!(Some(v.clone()), p.get_value(k as u16));
        }
    }
    assert_eq!(Some(law_bytes(50, 500)), p.get_value(3));
    assert_eq!(Some(law_bytes(51, 20)), p.get_value(6));
    assert_eq!(Some(law_bytes(52, 900)), p.get_value(10));
}

#[test]
fn lowest_deleted_slot_is_reused() {
    let mut p = Page::new(0);
    for k in 0..6 {
        p.add_value(&law_bytes(k, 10)).unwrap();
    }
    p.delete_value(4).unwrap();
    p.delete_value(2).unwrap();
    let header_size = p.get_header_size();
    assert_eq!(Some(2), p.add_value(&law_bytes(9, 10)));
    assert_eq!(Some(4), p.add_value(&law_bytes(9, 10)));
    assert_eq!(header_size, p.get_header_size());
    assert_eq!(Some(6), p.add_value(&law_bytes(9, 10)));
    assert_eq!(header_size + 6, p.get_header_size());
}

#[test]
fn free_space_accounting() {
    let mut p = Page::new(0);
    let sizes = [10usize, 200, 3000, 1, 57];
    let mut live = 0;
    for (k, s) in sizes.iter().enumerate() {
        if p.add_value(&law_bytes(k as u8, *s)).is_some() {
            live += s;
        }
        assert_eq!(PAGE_SIZE - (8 + 6 * (k + 1)) - live, p.get_free_space());
    }
    p.delete_value(1).unwrap();
    assert_eq!(PAGE_SIZE - (8 + 6 * 5) - (live - 200), p.get_free_space());
    // deleting again changes nothing
    p.delete_value(1).unwrap();
    assert_eq!(PAGE_SIZE - (8 + 6 * 5) - (live - 200), p.get_free_space());
}

#[test]
fn add_fails_without_change_when_full() {
    let mut p = Page::new(0);
    // exactly the free space of an empty page: 4096 - 8 - 6
    assert_eq!(None, p.add_value(&law_bytes(1, 4083)));
    assert_eq!(Some(0), p.add_value(&law_bytes(1, 4082)));
    assert_eq!(0, p.get_free_space());
    let before = *p.to_bytes();
    assert_eq!(None, p.add_value(&[1]));
    assert_eq!(None, p.add_value(&[]));
    assert_eq!(before[..], p.to_bytes()[..]);
    // a deleted slot is used again without a new entry
    p.delete_value(0).unwrap();
    assert_eq!(Some(0), p.add_value(&law_bytes(2, 4082)));
    assert_eq!(Some(law_bytes(2, 4082)), p.get_value(0));
}

#[test]
fn delete_out_of_range_changes_nothing() {
    let mut p = Page::new(0);
    p.add_value(&law_bytes(1, 10)).unwrap();
    let before = *p.to_bytes();
    assert_eq!(None, p.delete_value(1));
    assert_eq!(None, p.delete_value(65535));
    assert_eq!(before[..], p.to_bytes()[..]);
    assert_eq!(None, p.get_value(1));
}

#[test]
fn empty_record_takes_a_slot_and_reads_as_deleted() {
    let mut p = Page::new(0);
    assert_eq!(Some(0), p.add_value(&[]));
    assert_eq!(None, p.get_value(0));
    assert_eq!(14, p.get_header_size());
    // the slot holds nothing, so the next record gets it
    assert_eq!(Some(0), p.add_value(&[5]));
    assert_eq!(Some(vec![5]), p.get_value(0));
}

#[test]
fn compaction_packs_records_in_order() {
    let mut p = Page::new(0);
    p.add_value(&law_bytes(1, 1000)).unwrap();
    p.add_value(&law_bytes(2, 1000)).unwrap();
    p.add_value(&law_bytes(3, 1000)).unwrap();
    p.add_value(&law_bytes(4, 1000)).unwrap();
    p.delete_value(0).unwrap();
    p.delete_value(2).unwrap();
    p.compact();
    assert!(p.is_heap_page());
    let header = p.read_header();
    assert_eq!(14 + 18, header.pagemetadata.offset_of_free_space);
    assert_eq!(4096 - 32 - 2000, header.pagemetadata.size_of_free_space);
    // slot 1 lay above slot 3 and stays above it
    assert_eq!(3096, header.slots[1].offset_of_record);
    assert_eq!(2096, header.slots[3].offset_of_record);
    // deleted slots point at the beginning of the record area
    assert_eq!(2096, header.slots[0].offset_of_record);
    assert_eq!(2096, header.slots[2].offset_of_record);
    assert_eq!(0, header.slots[0].size_of_record);
    assert_eq!(Some(law_bytes(2, 1000)), p.get_value(1));
    assert_eq!(Some(law_bytes(4, 1000)), p.get_value(3));
    assert_eq!(p.get_free_space(), 4096 - 32 - 2000);
    // compaction of a compact page changes nothing
    let before = *p.to_bytes();
    p.compact();
    assert_eq!(before[..], p.to_bytes()[..]);
}

#[test]
fn insert_compacts_when_space_is_scattered() {
    let mut p = Page::new(0);
    p.add_value(&law_bytes(1, 1300)).unwrap();
    p.add_value(&law_bytes(2, 1300)).unwrap();
    p.add_value(&law_bytes(3, 1300)).unwrap();
    p.delete_value(0).unwrap();
    p.delete_value(1).unwrap();
    // 160 bytes are contiguous, 2760 are free in all
    assert_eq!(4096 - 26 - 1300, p.get_free_space());
    assert_eq!(Some(0), p.add_value(&law_bytes(4, 2000)));
    assert_eq!(Some(law_bytes(4, 2000)), p.get_value(0));
    assert_eq!(Some(law_bytes(3, 1300)), p.get_value(2));
    assert_eq!(None, p.get_value(1));
    assert!(p.is_heap_page());
}

#[test]
fn find_next_useable_slot_follows_offsets() {
    let mut p = Page::new(0);
    p.add_value(&law_bytes(1, 10)).unwrap();
    p.add_value(&law_bytes(2, 10)).unwrap();
    p.add_value(&law_bytes(3, 10)).unwrap();
    // records grow down: slot 0 lies highest
    assert_eq!(None, p.find_next_useable_slot(0));
    assert_eq!(Some(0), p.find_next_useable_slot(1));
    assert_eq!(Some(1), p.find_next_useable_slot(2));
    p.delete_value(1).unwrap();
    assert_eq!(Some(0), p.find_next_useable_slot(2));
}

#[test]
fn unsound_bytes_are_told_apart() {
    assert!(!Page::from_bytes([0xffu8; PAGE_SIZE]).is_heap_page());
    assert!(!Page::from_bytes([0u8; PAGE_SIZE]).is_heap_page());
    let mut p = Page::new(0);
    p.add_value(&law_bytes(1, 10)).unwrap();
    p.add_value(&law_bytes(2, 10)).unwrap();
    let mut bytes = *p.to_bytes();
    // the second record is made to overlap the first
    bytes[16] = bytes[10];
    bytes[17] = bytes[11];
    assert!(!Page::from_bytes(bytes).is_heap_page());
    let mut bytes = *p.to_bytes();
    // a slot that carries the wrong id
    bytes[14] = 7;
    assert!(!Page::from_bytes(bytes).is_heap_page());
}
