//! Tests of the mapping layer: copy-on-write fault resolution, cloning,
//! splitting, applying to a transaction, write-back and unmapping.

use kmem::backing::{BackingFile, VecFile};
use kmem::buddy::{allocated_pages, init, MemmapInfo, Zones};
use kmem::mapping::{
    MemMapping, MAPPING_FLAG_SHARED, MAPPING_FLAG_USER, MAPPING_FLAG_WRITE,
};
use kmem::memory::PAGE_SIZE;
use kmem::residence::{MapResidence, PageStore};
use kmem::vmem::{VMemOp, VMemTransaction, COPY_BUFFER, FLAG_USER, FLAG_WRITE, FLAG_XD};

/// A memory map giving the user zone 255 allocatable pages whose data
/// region starts at `0x4000_1000`.
fn user_zones() -> Zones {
    init(&MemmapInfo { phys_alloc_begin: 0x3ff0_0000, available_memory: 0x20_0000 })
}

const USER_DATA_BEGIN: usize = 0x4000_1000;
const VIRT: usize = 0x1000_0000;

/// The address of the first user page the allocator hands out.
const FIRST_PAGE: usize = USER_DATA_BEGIN + 254 * PAGE_SIZE;

/// The address of the second user page the allocator hands out.
const SECOND_PAGE: usize = USER_DATA_BEGIN + 252 * PAGE_SIZE;

#[test]
fn mapping_getters() {
    let m = MemMapping::new(VIRT, 4, MAPPING_FLAG_WRITE | MAPPING_FLAG_USER, MapResidence::Anonymous {
        default_page: None,
    })
        .unwrap();
    assert_eq!(m.get_begin(), VIRT);
    assert_eq!(m.get_size(), 4);
    assert_eq!(m.get_flags(), MAPPING_FLAG_WRITE | MAPPING_FLAG_USER);
}

#[test]
fn fault_commits_a_fresh_page() {
    let mut zones = user_zones();
    let mut store = PageStore::new();
    let mut tx = VMemTransaction::new();
    let mut m = MemMapping::new(VIRT, 1, MAPPING_FLAG_WRITE, MapResidence::Anonymous {
        default_page: None,
    })
        .unwrap();
    m.alloc_page(0, &mut tx, &mut store, &mut zones).unwrap();
    assert_eq!(allocated_pages(&zones), 1);
    assert_eq!(store.page_count(), 1);
    assert_eq!(store.get_page(0).ref_count(), 1);
    assert_eq!(store.get_page(0).get(), FIRST_PAGE);
    // The page is staged read-only for its initialization, then staged
    // again with write enabled.
    assert_eq!(tx.op_count(), 2);
    assert_eq!(
        tx.get_op(0),
        VMemOp::Install { phys: FIRST_PAGE, virt: VIRT, flags: FLAG_XD },
    );
    assert_eq!(
        tx.get_op(1),
        VMemOp::Install { phys: FIRST_PAGE, virt: VIRT, flags: FLAG_WRITE | FLAG_XD },
    );
    // A second fault on the same offset maps the committed page directly.
    m.alloc_page(0, &mut tx, &mut store, &mut zones).unwrap();
    assert_eq!(tx.op_count(), 3);
    assert_eq!(
        tx.get_op(2),
        VMemOp::Install { phys: FIRST_PAGE, virt: VIRT, flags: FLAG_WRITE | FLAG_XD },
    );
    assert_eq!(allocated_pages(&zones), 1);
}

#[test]
fn fault_out_of_range_fails() {
    let mut zones = user_zones();
    let mut store = PageStore::new();
    let mut tx = VMemTransaction::new();
    let mut m = MemMapping::new(VIRT, 1, MAPPING_FLAG_WRITE, MapResidence::Anonymous {
        default_page: None,
    })
        .unwrap();
    assert!(m.alloc_page(1, &mut tx, &mut store, &mut zones).is_err());
    assert_eq!(tx.op_count(), 0);
}

#[test]
fn cow_fault_copies_for_one_owner() {
    // Two mappings share one page with reference count 2, neither
    // shared-flagged; a write fault through one owner yields a distinct
    // page for it, and the original page's count drops to 1.
    let mut zones = user_zones();
    let mut store = PageStore::new();
    let mut tx = VMemTransaction::new();
    let mut m = MemMapping::new(VIRT, 1, MAPPING_FLAG_WRITE, MapResidence::Anonymous {
        default_page: None,
    })
        .unwrap();
    m.alloc_page(0, &mut tx, &mut store, &mut zones).unwrap();
    let m2 = m.try_clone(&mut store);
    assert_eq!(m2.get_size(), 1);
    assert_eq!(store.get_page(0).ref_count(), 2);
    let before = tx.op_count();
    m.alloc_page(0, &mut tx, &mut store, &mut zones).unwrap();
    // The faulting owner got a fresh page; the other owner keeps the
    // original, whose count dropped back to 1.
    assert_eq!(store.page_count(), 2);
    assert_eq!(store.get_page(0).ref_count(), 1);
    assert_eq!(store.get_page(1).ref_count(), 1);
    assert_eq!(store.get_page(1).get(), SECOND_PAGE);
    assert_eq!(allocated_pages(&zones), 2);
    // The previous page is staged at the scratch address for the copy,
    // the new page read-only, then the new page writable.
    assert_eq!(tx.op_count(), before + 3);
    assert_eq!(
        tx.get_op(before),
        VMemOp::Install { phys: FIRST_PAGE, virt: COPY_BUFFER, flags: 0 },
    );
    assert_eq!(
        tx.get_op(before + 1),
        VMemOp::Install { phys: SECOND_PAGE, virt: VIRT, flags: FLAG_XD },
    );
    assert_eq!(
        tx.get_op(before + 2),
        VMemOp::Install { phys: SECOND_PAGE, virt: VIRT, flags: FLAG_WRITE | FLAG_XD },
    );
}

#[test]
fn shared_mapping_never_copies() {
    let mut zones = user_zones();
    let mut store = PageStore::new();
    let mut tx = VMemTransaction::new();
    let mut m = MemMapping::new(
        VIRT,
        1,
        MAPPING_FLAG_WRITE | MAPPING_FLAG_SHARED,
        MapResidence::Anonymous { default_page: None },
    )
        .unwrap();
    m.alloc_page(0, &mut tx, &mut store, &mut zones).unwrap();
    let _m2 = m.try_clone(&mut store);
    assert_eq!(store.get_page(0).ref_count(), 2);
    // A shared mapping is never in copy-on-write state: the fault maps
    // the existing page.
    let before = tx.op_count();
    m.alloc_page(0, &mut tx, &mut store, &mut zones).unwrap();
    assert_eq!(store.page_count(), 1);
    assert_eq!(store.get_page(0).ref_count(), 2);
    assert_eq!(tx.op_count(), before + 1);
}

#[test]
fn default_page_defers_allocation() {
    let mut zones = user_zones();
    let mut store = PageStore::new();
    // The shared pre-zeroed default page, held by the residence.
    let d = store.alloc_page(&mut zones).unwrap();
    let mut m = MemMapping::new(VIRT, 2, MAPPING_FLAG_USER, MapResidence::Anonymous {
        default_page: Some(d),
    })
        .unwrap();
    let mut tx = VMemTransaction::new();
    // Applying the mapping maps every offset read-only to the default
    // page, without allocating anything.
    m.apply_to(&mut tx, &mut store, &mut zones).unwrap();
    assert_eq!(tx.op_count(), 2);
    assert_eq!(
        tx.get_op(0),
        VMemOp::Install { phys: FIRST_PAGE, virt: VIRT, flags: FLAG_USER | FLAG_XD },
    );
    assert_eq!(
        tx.get_op(1),
        VMemOp::Install {
            phys: FIRST_PAGE,
            virt: VIRT + PAGE_SIZE,
            flags: FLAG_USER | FLAG_XD,
        },
    );
    assert_eq!(store.page_count(), 1);
    assert_eq!(store.get_page(d).ref_count(), 1);
    // A fault hands out another reference to the default page and
    // releases it again, leaving the slot uncommitted.
    m.alloc_page(0, &mut tx, &mut store, &mut zones).unwrap();
    assert_eq!(store.page_count(), 1);
    assert_eq!(store.get_page(d).ref_count(), 1);
    assert_eq!(allocated_pages(&zones), 1);
}

#[test]
fn apply_to_resolves_eagerly_without_default() {
    let mut zones = user_zones();
    let mut store = PageStore::new();
    let mut tx = VMemTransaction::new();
    let mut m = MemMapping::new(VIRT, 3, MAPPING_FLAG_WRITE, MapResidence::Anonymous {
        default_page: None,
    })
        .unwrap();
    m.apply_to(&mut tx, &mut store, &mut zones).unwrap();
    // Every offset was resolved: three fresh pages, staged read-only for
    // their initialization and then with the mapping's true permissions.
    assert_eq!(store.page_count(), 3);
    assert_eq!(allocated_pages(&zones), 3);
    assert_eq!(tx.op_count(), 6);
    let pages = [FIRST_PAGE, SECOND_PAGE, SECOND_PAGE + PAGE_SIZE];
    for (k, page) in pages.iter().enumerate() {
        assert_eq!(
            tx.get_op(2 * k),
            VMemOp::Install { phys: *page, virt: VIRT + k * PAGE_SIZE, flags: FLAG_XD },
        );
        assert_eq!(
            tx.get_op(2 * k + 1),
            VMemOp::Install {
                phys: *page,
                virt: VIRT + k * PAGE_SIZE,
                flags: FLAG_WRITE | FLAG_XD,
            },
        );
    }
}

#[test]
fn apply_to_aborts_on_exhaustion() {
    // A user zone of two pages cannot eagerly resolve a three-page
    // mapping: the first two offsets are committed and staged, then the
    // first failing offset aborts with an out-of-memory result.
    let mut zones = init(&MemmapInfo {
        phys_alloc_begin: 0x3fff_f000,
        available_memory: 0x4000,
    });
    let mut store = PageStore::new();
    let mut tx = VMemTransaction::new();
    let mut m = MemMapping::new(VIRT, 3, MAPPING_FLAG_WRITE, MapResidence::Anonymous {
        default_page: None,
    })
        .unwrap();
    assert!(m.apply_to(&mut tx, &mut store, &mut zones).is_err());
    assert_eq!(store.page_count(), 2);
    assert_eq!(allocated_pages(&zones), 2);
    assert_eq!(tx.op_count(), 4);
}

#[test]
fn split_partitions_pages() {
    // Splitting an N-page mapping at (begin, size) yields a prefix of
    // `begin` pages, a gap of `size` pages and a suffix of the rest; the
    // removed pages lose their only reference and return to the
    // allocator.
    let mut zones = user_zones();
    let mut store = PageStore::new();
    let mut tx = VMemTransaction::new();
    let mut m = MemMapping::new(VIRT, 5, MAPPING_FLAG_WRITE, MapResidence::Anonymous {
        default_page: None,
    })
        .unwrap();
    m.apply_to(&mut tx, &mut store, &mut zones).unwrap();
    assert_eq!(allocated_pages(&zones), 5);
    let (prefix, gap, suffix) = m.split(1, 2, &mut store, &mut zones);
    let prefix = prefix.unwrap();
    let gap = gap.unwrap();
    let suffix = suffix.unwrap();
    assert_eq!(prefix.get_begin(), VIRT);
    assert_eq!(prefix.get_size(), 1);
    assert_eq!(gap.get_begin(), VIRT + PAGE_SIZE);
    assert_eq!(gap.get_size(), 2);
    assert_eq!(suffix.get_begin(), VIRT + 3 * PAGE_SIZE);
    assert_eq!(suffix.get_size(), 2);
    // The two removed pages were released back to the frame allocator.
    assert_eq!(allocated_pages(&zones), 3);
}

#[test]
fn split_truncates_out_of_range_end() {
    let mut zones = user_zones();
    let mut store = PageStore::new();
    let mut tx = VMemTransaction::new();
    let mut m = MemMapping::new(VIRT, 5, MAPPING_FLAG_WRITE, MapResidence::Anonymous {
        default_page: None,
    })
        .unwrap();
    m.apply_to(&mut tx, &mut store, &mut zones).unwrap();
    let (prefix, gap, suffix) = m.split(3, 10, &mut store, &mut zones);
    assert_eq!(prefix.unwrap().get_size(), 3);
    assert_eq!(gap.unwrap().get_size(), 10);
    assert!(suffix.is_none());
    assert_eq!(allocated_pages(&zones), 3);
}

#[test]
fn split_at_zero_has_no_prefix() {
    let mut zones = user_zones();
    let mut store = PageStore::new();
    let mut m = MemMapping::new(VIRT, 2, MAPPING_FLAG_WRITE, MapResidence::Anonymous {
        default_page: None,
    })
        .unwrap();
    let (prefix, gap, suffix) = m.split(0, 1, &mut store, &mut zones);
    assert!(prefix.is_none());
    assert_eq!(gap.unwrap().get_size(), 1);
    assert_eq!(suffix.unwrap().get_size(), 1);
}

#[test]
fn fs_sync_writes_back_shared_file_mapping() {
    let zones = user_zones();
    let mut m_bytes = vec![0u8; PAGE_SIZE];
    for (i, b) in m_bytes.iter_mut().enumerate() {
        *b = (i % 251) as u8;
    }
    let m = MemMapping::new(
        VIRT,
        1,
        MAPPING_FLAG_WRITE | MAPPING_FLAG_SHARED,
        MapResidence::File { off: 2 },
    )
        .unwrap();
    let mut file = VecFile::new();
    m.fs_sync(&m_bytes, &mut file).unwrap();
    // The file was extended with zeroes up to the mapping's byte offset,
    // then received the mapping's bytes.
    assert_eq!(file.byte_len(), 3 * PAGE_SIZE);
    assert_eq!(file.byte_at(0), 0);
    assert_eq!(file.byte_at(2 * PAGE_SIZE), 0);
    assert_eq!(file.byte_at(2 * PAGE_SIZE + 1), 1);
    assert_eq!(file.byte_at(2 * PAGE_SIZE + 250), 250 % 251);
    let _ = zones;
}

#[test]
fn fs_sync_ignores_private_and_anonymous_mappings() {
    let not_shared = MemMapping::new(VIRT, 1, MAPPING_FLAG_WRITE, MapResidence::File { off: 0 })
        .unwrap();
    let anon = MemMapping::new(
        VIRT,
        1,
        MAPPING_FLAG_WRITE | MAPPING_FLAG_SHARED,
        MapResidence::Anonymous { default_page: None },
    )
        .unwrap();
    let bytes = vec![7u8; PAGE_SIZE];
    let mut file = VecFile::new();
    not_shared.fs_sync(&bytes, &mut file).unwrap();
    assert_eq!(file.byte_len(), 0);
    anon.fs_sync(&bytes, &mut file).unwrap();
    assert_eq!(file.byte_len(), 0);
}

#[test]
fn unmap_stages_a_removal() {
    let m = MemMapping::new(VIRT, 4, MAPPING_FLAG_WRITE, MapResidence::Anonymous {
        default_page: None,
    })
        .unwrap();
    let mut tx = VMemTransaction::new();
    let mut file = VecFile::new();
    let empty: [u8; 0] = [];
    m.unmap(1, 2, &mut tx, &empty, &mut file).unwrap();
    assert_eq!(tx.op_count(), 1);
    assert_eq!(
        tx.get_op(0),
        VMemOp::RemoveRange { virt: VIRT + PAGE_SIZE, count: 2 },
    );
    assert_eq!(file.byte_len(), 0);
}

#[test]
fn backing_file_write_pads_and_overwrites() {
    let mut file = VecFile::new();
    assert_eq!(file.write(4, &[1, 2, 3]), Ok(3));
    assert_eq!(file.byte_len(), 7);
    assert_eq!(file.byte_at(0), 0);
    assert_eq!(file.byte_at(4), 1);
    assert_eq!(file.byte_at(6), 3);
    assert_eq!(file.write(5, &[9]), Ok(1));
    assert_eq!(file.byte_len(), 7);
    assert_eq!(file.byte_at(5), 9);
    assert_eq!(file.write(0, &[]), Ok(0));
    assert_eq!(file.byte_len(), 7);
}

#[test]
fn transaction_records_edits_in_order() {
    let mut tx = VMemTransaction::new();
    assert_eq!(tx.op_count(), 0);
    tx.map(0x1000, 0x2000, FLAG_WRITE).unwrap();
    tx.unmap_range(0x3000, 4).unwrap();
    assert_eq!(tx.op_count(), 2);
    assert_eq!(tx.get_op(0), VMemOp::Install { phys: 0x1000, virt: 0x2000, flags: FLAG_WRITE });
    assert_eq!(tx.get_op(1), VMemOp::RemoveRange { virt: 0x3000, count: 4 });
}
