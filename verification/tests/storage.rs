use crustydb::heap_page::HeapPage;
use crustydb::heapfile::HeapFile;
use crustydb::heapfileiter::HeapFileIterator;
use crustydb::ids::{Permissions, TransactionId, ValueId};
use crustydb::page::Page;
use crustydb::storage_manager::{counts_or_zeros, StorageManager};
use crustydb::PAGE_SIZE;

fn store_bytes(seed: u64, len: usize) -> Vec<u8> {
    let mut state = seed.wrapping_mul(2862933555777941757).wrapping_add(3037000493);
    (0..len)
        .map(|_| {
            state = state
                .wrapping_mul(6364136223846793005)
                .wrapping_add(1442695040888963407);
            (state >> 56) as u8
        })
        .collect()
}

fn store_values(sm: &StorageManager, cid: u16) -> Vec<(Vec<u8>, ValueId)> {
    let mut iter = sm.get_iterator(cid, TransactionId::new(), Permissions::ReadOnly);
    let mut all = Vec::new();
    while let Some(item) = iter.next() {
        all.push(item);
    }
    all
}

#[test]
fn hs_sm_a_insert() {
    let mut sm = StorageManager::new();
    let cid = 1;
    sm.create_table(cid).unwrap();

    let bytes = store_bytes(1, 40);
    let tid = TransactionId::new();

    let val1 = sm.insert_value(cid, bytes.clone(), tid);
    assert_eq!(1, sm.get_num_pages(cid));
    assert_eq!(0, val1.page_id.unwrap());
    assert_eq!(0, val1.slot_id.unwrap());

    let p1 = sm
        .get_page(cid, 0, tid, Permissions::ReadOnly, false)
        .unwrap();

    let val2 = sm.insert_value(cid, bytes, tid);
    assert_eq!(1, sm.get_num_pages(cid));
    assert_eq!(0, val2.page_id.unwrap());
    assert_eq!(1, val2.slot_id.unwrap());

    let p2 = sm
        .get_page(cid, 0, tid, Permissions::ReadOnly, false)
        .unwrap();
    assert_ne!(p1.to_bytes()[..], p2.to_bytes()[..]);
}

#[test]
fn hs_sm_b_iter_small() {
    let mut sm = StorageManager::new();
    let cid = 1;
    sm.create_table(cid).unwrap();
    let tid = TransactionId::new();

    //Test one page
    let mut byte_vec: Vec<Vec<u8>> = vec![
        store_bytes(1, 400),
        store_bytes(2, 400),
        store_bytes(3, 400),
    ];
    for val in &byte_vec {
        sm.insert_value(cid, val.clone(), tid);
    }
    for (i, x) in store_values(&sm, cid).into_iter().enumerate() {
        assert_eq!(byte_vec[i], x.0);
    }

    // Should be on two pages
    let mut byte_vec2: Vec<Vec<u8>> = vec![
        store_bytes(4, 400),
        store_bytes(5, 400),
        store_bytes(6, 400),
        store_bytes(7, 400),
    ];

    for val in &byte_vec2 {
        sm.insert_value(cid, val.clone(), tid);
    }
    byte_vec.append(&mut byte_vec2);

    for (i, x) in store_values(&sm, cid).into_iter().enumerate() {
        assert_eq!(byte_vec[i], x.0);
    }

    // Should be on 3 pages
    let mut byte_vec2: Vec<Vec<u8>> = vec![
        store_bytes(8, 300),
        store_bytes(9, 500),
        store_bytes(10, 400),
    ];

    for val in &byte_vec2 {
        sm.insert_value(cid, val.clone(), tid);
    }
    byte_vec.append(&mut byte_vec2);

    let all = store_values(&sm, cid);
    assert_eq!(byte_vec.len(), all.len());
    for (i, x) in all.into_iter().enumerate() {
        assert_eq!(byte_vec[i], x.0);
    }
}

#[test]
fn hs_sm_b_iter_large() {
    let mut sm = StorageManager::new();
    let cid = 1;
    sm.create_table(cid).unwrap();
    let tid = TransactionId::new();

    let vals: Vec<Vec<u8>> = (0..1000u64)
        .map(|i| store_bytes(i, 40 + (i as usize * 7) % 360))
        .collect();
    let ids = sm.insert_values(cid, vals.clone(), tid);
    assert_eq!(1000, ids.len());
    assert_eq!(1000, store_values(&sm, cid).len());
    for (i, id) in ids.iter().enumerate() {
        assert_eq!(vals[i], sm.get_value(*id, tid, Permissions::ReadOnly).unwrap());
    }
}

#[test]
fn sm_insert_get_is_identity() {
    let mut sm = StorageManager::new();
    sm.create_table(7).unwrap();
    let tid = TransactionId::new();
    let bytes = store_bytes(11, 123);
    let id = sm.insert_value(7, bytes.clone(), tid);
    assert_eq!(
        ValueId {
            container_id: 7,
            segment_id: None,
            page_id: Some(0),
            slot_id: Some(0)
        },
        id
    );
    assert_eq!(bytes, sm.get_value(id, tid, Permissions::ReadOnly).unwrap());
    // other insertions do not disturb it
    for k in 0..50 {
        sm.insert_value(7, store_bytes(k, 300), tid);
    }
    assert_eq!(bytes, sm.get_value(id, tid, Permissions::ReadOnly).unwrap());
}

#[test]
fn sm_insert_delete_get_is_error() {
    let mut sm = StorageManager::new();
    sm.create_table(7).unwrap();
    let tid = TransactionId::new();
    let id = sm.insert_value(7, store_bytes(12, 50), tid);
    assert!(sm.delete_value(id, tid).is_ok());
    let got = sm.get_value(id, tid, Permissions::ReadOnly);
    assert!(matches!(
        got,
        Err(crustydb::error::CrustyError::ValidationError(_))
    ));
    // deleting again is no failure
    assert!(sm.delete_value(id, tid).is_ok());
}

#[test]
fn sm_delete_value_without_page_or_slot_changes_nothing() {
    let mut sm = StorageManager::new();
    sm.create_table(7).unwrap();
    let tid = TransactionId::new();
    let id = sm.insert_value(7, store_bytes(13, 50), tid);
    let before = sm.container_bytes(7).unwrap();
    assert!(sm.delete_value(ValueId::new(7), tid).is_ok());
    assert!(sm
        .delete_value(
            ValueId {
                container_id: 7,
                segment_id: None,
                page_id: Some(0),
                slot_id: None
            },
            tid
        )
        .is_ok());
    assert_eq!(before, sm.container_bytes(7).unwrap());
    assert!(sm.get_value(id, tid, Permissions::ReadOnly).is_ok());
    // a missing id is an error for a read
    assert!(sm.get_value(ValueId::new(7), tid, Permissions::ReadOnly).is_err());
}

#[test]
fn sm_delete_value_errors() {
    let mut sm = StorageManager::new();
    sm.create_table(7).unwrap();
    let tid = TransactionId::new();
    // no such container
    let gone = ValueId {
        container_id: 9,
        segment_id: None,
        page_id: Some(0),
        slot_id: Some(0),
    };
    assert!(matches!(
        sm.delete_value(gone, tid),
        Err(crustydb::error::CrustyError::CrustyError(_))
    ));
    // no such page
    let far = ValueId {
        container_id: 7,
        segment_id: None,
        page_id: Some(3),
        slot_id: Some(0),
    };
    assert!(matches!(
        sm.delete_value(far, tid),
        Err(crustydb::error::CrustyError::IOError(_))
    ));
}

#[test]
fn sm_update_value_gives_new_id() {
    let mut sm = StorageManager::new();
    sm.create_table(7).unwrap();
    let tid = TransactionId::new();
    let a = sm.insert_value(7, store_bytes(14, 50), tid);
    let b = sm.insert_value(7, store_bytes(15, 50), tid);
    let new_bytes = store_bytes(16, 80);
    let c = sm.update_value(new_bytes.clone(), b, tid).unwrap();
    // the deleted slot is used again
    assert_eq!(b, c);
    assert_eq!(new_bytes, sm.get_value(c, tid, Permissions::ReadOnly).unwrap());
    assert_eq!(
        store_bytes(14, 50),
        sm.get_value(a, tid, Permissions::ReadOnly).unwrap()
    );
}

#[test]
fn sm_insert_never_loses_pages_and_adds_at_most_one() {
    let mut sm = StorageManager::new();
    sm.create_table(2).unwrap();
    let tid = TransactionId::new();
    let mut pages = sm.get_num_pages(2);
    assert_eq!(0, pages);
    for k in 0..200u64 {
        sm.insert_value(2, store_bytes(k, 100 + (k as usize * 37) % 900), tid);
        let now = sm.get_num_pages(2);
        assert!(now == pages || now == pages + 1);
        pages = now;
    }
}

#[test]
fn sm_first_fit_uses_lowest_page() {
    let mut sm = StorageManager::new();
    sm.create_table(2).unwrap();
    let tid = TransactionId::new();
    // two values of 2000 bytes fill page 0, the third goes to page 1
    let a = sm.insert_value(2, store_bytes(1, 2000), tid);
    let b = sm.insert_value(2, store_bytes(2, 2000), tid);
    let c = sm.insert_value(2, store_bytes(3, 2000), tid);
    assert_eq!((Some(0), Some(0)), (a.page_id, a.slot_id));
    assert_eq!((Some(0), Some(1)), (b.page_id, b.slot_id));
    assert_eq!((Some(1), Some(0)), (c.page_id, c.slot_id));
    // a small value still fits page 0
    let d = sm.insert_value(2, store_bytes(4, 50), tid);
    assert_eq!((Some(0), Some(2)), (d.page_id, d.slot_id));
    // the greatest value that an empty page takes
    let e = sm.insert_value(2, store_bytes(5, PAGE_SIZE - 14), tid);
    assert_eq!((Some(2), Some(0)), (e.page_id, e.slot_id));
}

#[test]
fn sm_iterator_yields_live_values_in_order() {
    let mut sm = StorageManager::new();
    sm.create_table(3).unwrap();
    let tid = TransactionId::new();
    let vals: Vec<Vec<u8>> = (0..12).map(|k| store_bytes(k, 1000)).collect();
    let ids = sm.insert_values(3, vals.clone(), tid);
    sm.delete_value(ids[1], tid).unwrap();
    sm.delete_value(ids[7], tid).unwrap();
    let all = store_values(&sm, 3);
    let expected: Vec<(Vec<u8>, ValueId)> = (0..12)
        .filter(|k| *k != 1 && *k != 7)
        .map(|k| (vals[k].clone(), ids[k]))
        .collect();
    assert_eq!(expected, all);
    for w in all.windows(2) {
        assert!((w[0].1.page_id, w[0].1.slot_id) < (w[1].1.page_id, w[1].1.slot_id));
    }
}

#[test]
fn sm_iterator_from_starts_at_first_slot_of_page() {
    let mut sm = StorageManager::new();
    sm.create_table(3).unwrap();
    let tid = TransactionId::new();
    let vals: Vec<Vec<u8>> = (0..9).map(|k| store_bytes(k, 1000)).collect();
    let ids = sm.insert_values(3, vals.clone(), tid);
    // four values of 1000 bytes fit a page: ids[5] is slot 1 of page 1
    assert_eq!((Some(1), Some(1)), (ids[5].page_id, ids[5].slot_id));
    let mut iter = sm.get_iterator_from(3, tid, Permissions::ReadOnly, ids[5]);
    let mut seen = Vec::new();
    while let Some((bytes, id)) = iter.next() {
        seen.push((bytes, id));
    }
    let expected: Vec<(Vec<u8>, ValueId)> = (4..9).map(|k| (vals[k].clone(), ids[k])).collect();
    assert_eq!(expected, seen);
}

#[test]
fn sm_containers_are_made_and_removed() {
    let mut sm = StorageManager::new();
    assert!(!sm.has_container(4));
    assert_eq!(0, sm.get_num_pages(4));
    sm.create_table(4).unwrap();
    assert!(sm.has_container(4));
    let tid = TransactionId::new();
    let id = sm.insert_value(4, store_bytes(1, 10), tid);
    // making it again keeps what it holds
    sm.create_table(4).unwrap();
    assert!(sm.get_value(id, tid, Permissions::ReadOnly).is_ok());
    sm.remove_container(4).unwrap();
    assert!(!sm.has_container(4));
    assert!(sm.get_value(id, tid, Permissions::ReadOnly).is_err());
    assert!(sm.container_bytes(4).is_none());
    sm.create_table(5).unwrap();
    sm.reset().unwrap();
    assert!(!sm.has_container(5));
    sm.clear_cache();
    sm.shutdown();
}

#[test]
fn sm_container_image_round_trip() {
    let mut sm = StorageManager::new();
    sm.create_table(6).unwrap();
    let tid = TransactionId::new();
    let vals: Vec<Vec<u8>> = (0..9).map(|k| store_bytes(k, 1000)).collect();
    let ids = sm.insert_values(6, vals.clone(), tid);
    let image = sm.container_bytes(6).unwrap();
    assert_eq!(3 * PAGE_SIZE, image.len());

    let mut other = StorageManager::new();
    other.load_container(6, &image).unwrap();
    for (k, id) in ids.iter().enumerate() {
        assert_eq!(vals[k], other.get_value(*id, tid, Permissions::ReadOnly).unwrap());
    }
    assert_eq!(image, other.container_bytes(6).unwrap());
    // bytes that are no heap file are refused
    assert!(other.load_container(8, &image[1..]).is_err());
    let mut broken = image.clone();
    broken[2] = 0xff;
    broken[3] = 0xff;
    assert!(other.load_container(8, &broken).is_err());
    assert!(!other.has_container(8));
}

#[test]
fn sm_page_debug_and_counts() {
    let mut sm = StorageManager::new();
    sm.create_table(1).unwrap();
    let tid = TransactionId::new();
    sm.insert_value(1, store_bytes(1, 10), tid);
    assert!(!sm.get_page_debug(1, 0).is_empty());
    assert_eq!(String::new(), sm.get_page_debug(1, 5));
    assert_eq!(String::new(), sm.get_page_debug(2, 0));
    assert_eq!((0, 0), sm.get_hf_read_write_count(9));
    let (reads, writes) = sm.get_hf_read_write_count(1);
    assert!(reads >= 1 && writes >= 1);
}

#[test]
fn sm_counts_follow_reads_and_writes() {
    assert_eq!((0, 0), counts_or_zeros(None));
    assert_eq!((3, 7), counts_or_zeros(Some((3, 7))));
    let mut sm = StorageManager::new();
    sm.create_table(1).unwrap();
    let tid = TransactionId::new();
    assert_eq!((0, 0), sm.get_hf_read_write_count(1));
    // the first value goes to a new page: one write and no read
    let id = sm.insert_value(1, store_bytes(1, 10), tid);
    assert_eq!((0, 1), sm.get_hf_read_write_count(1));
    // the second is tried on page 0: one read and one write more
    sm.insert_value(1, store_bytes(2, 10), tid);
    assert_eq!((1, 2), sm.get_hf_read_write_count(1));
    sm.get_value(id, tid, Permissions::ReadOnly).unwrap();
    assert_eq!((2, 2), sm.get_hf_read_write_count(1));
    sm.delete_value(id, tid).unwrap();
    assert_eq!((3, 3), sm.get_hf_read_write_count(1));
}

#[test]
fn sm_write_page_of_read_page_changes_nothing() {
    let mut sm = StorageManager::new();
    sm.create_table(1).unwrap();
    let tid = TransactionId::new();
    for k in 0..9 {
        sm.insert_value(1, store_bytes(k, 1000), tid);
    }
    let before = sm.container_bytes(1).unwrap();
    let page = sm.get_page(1, 1, tid, Permissions::ReadOnly, false).unwrap();
    sm.write_page(1, &page, tid).unwrap();
    assert_eq!(before, sm.container_bytes(1).unwrap());
    // a page that would leave a gap is refused
    assert!(sm.write_page(1, &Page::new(7), tid).is_err());
    assert!(sm.write_page(2, &Page::new(0), tid).is_err());
    assert_eq!(before, sm.container_bytes(1).unwrap());
}

#[test]
fn heap_file_pages_are_read_and_written() {
    let mut hf = HeapFile::new(3);
    assert_eq!(3, hf.get_container_id());
    assert_eq!(0, hf.num_pages());
    assert!(hf.read_page_from_file(0).is_err());
    let mut p0 = Page::new(0);
    p0.add_value(&store_bytes(1, 30)).unwrap();
    hf.write_page_to_file(&p0).unwrap();
    assert_eq!(1, hf.num_pages());
    // no gaps
    assert!(hf.write_page_to_file(&Page::new(2)).is_err());
    assert_eq!(1, hf.num_pages());
    hf.write_page_to_file(&Page::new(1)).unwrap();
    assert_eq!(2, hf.num_pages());
    let read = hf.read_page_from_file(0).unwrap();
    assert_eq!(p0.to_bytes()[..], read.to_bytes()[..]);
    // overwriting keeps the number of pages
    p0.add_value(&store_bytes(2, 30)).unwrap();
    hf.write_page_to_file(&p0).unwrap();
    assert_eq!(2, hf.num_pages());
    assert_eq!(
        p0.to_bytes()[..],
        hf.read_page_from_file(0).unwrap().to_bytes()[..]
    );
    assert_eq!(2, hf.read_count());
    assert_eq!(3, hf.write_count());

    let image = hf.to_bytes();
    assert_eq!(2 * PAGE_SIZE, image.len());
    assert_eq!(p0.to_bytes()[..], image[..PAGE_SIZE]);
    let back = HeapFile::from_bytes(3, &image).unwrap();
    assert_eq!(image, back.to_bytes());

    let mut iter = HeapFileIterator::new(TransactionId::new(), &hf);
    assert_eq!(store_bytes(1, 30), iter.next().unwrap().0);
    let second = iter.next().unwrap();
    assert_eq!(store_bytes(2, 30), second.0);
    assert_eq!(
        ValueId {
            container_id: 3,
            segment_id: None,
            page_id: Some(0),
            slot_id: Some(1)
        },
        second.1
    );
    assert!(iter.next().is_none());
    assert!(iter.next().is_none());
}
