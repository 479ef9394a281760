use reedos::hal::{
    flags_hal_to_ptable, pgtbl_free, pgtbl_insert_range, pgtbl_new_empty,
    pgtbl_remove_range, pgtbl_swap, HALVMError, PageMapFlags,
};
use reedos::palloc::PagePool;

const PAGE: u64 = 4096;

fn pool(npages: u64) -> PagePool {
    PagePool::new(0x8000_0000, 0x8000_0000 + npages * PAGE)
}

fn rw() -> PageMapFlags {
    PageMapFlags::read().or(PageMapFlags::write())
}

#[test]
fn insert_then_lookup() {
    let mut p = pool(32);
    let mut t = pgtbl_new_empty(&mut p).unwrap();
    pgtbl_insert_range(&mut t, &mut p, 0x4000, 0x8001_0000, 2 * PAGE, rw()).unwrap();
    // read | write | valid = 2 + 4 + 1
    assert_eq!(t.walk_lookup(4), Some((0x8001_0000, 7)));
    assert_eq!(t.walk_lookup(5), Some((0x8001_1000, 7)));
    assert_eq!(t.walk_lookup(3), None);
    assert_eq!(t.walk_lookup(6), None);
}

#[test]
fn a_partial_last_page_is_still_mapped() {
    let mut p = pool(32);
    let mut t = pgtbl_new_empty(&mut p).unwrap();
    // one byte into a second page: two pages get mapped
    pgtbl_insert_range(&mut t, &mut p, 0x4000, 0x8001_0000, PAGE + 1, rw()).unwrap();
    assert!(t.walk_lookup(4).is_some());
    assert!(t.walk_lookup(5).is_some());
    assert!(t.walk_lookup(6).is_none());
}

#[test]
fn overlap_is_rejected_and_nothing_changes() {
    let mut p = pool(32);
    let mut t = pgtbl_new_empty(&mut p).unwrap();
    pgtbl_insert_range(&mut t, &mut p, 0x4000, 0x8001_0000, 2 * PAGE, rw()).unwrap();
    let free_before = p.free_page_count();
    let r = pgtbl_insert_range(&mut t, &mut p, 0x5000, 0x8002_0000, 2 * PAGE,
        PageMapFlags::read());
    assert_eq!(r.unwrap_err(), HALVMError::AlreadyMapped);
    // the earlier mapping is untouched, and no pages were consumed
    assert_eq!(t.walk_lookup(4), Some((0x8001_0000, 7)));
    assert_eq!(t.walk_lookup(5), Some((0x8001_1000, 7)));
    assert_eq!(t.walk_lookup(6), None);
    assert_eq!(p.free_page_count(), free_before);
}

#[test]
fn remove_then_reinsert_succeeds() {
    let mut p = pool(32);
    let mut t = pgtbl_new_empty(&mut p).unwrap();
    pgtbl_insert_range(&mut t, &mut p, 0x4000, 0x8001_0000, 2 * PAGE, rw()).unwrap();
    pgtbl_remove_range(&mut t, &mut p, 0x4000, 2 * PAGE).unwrap();
    assert_eq!(t.walk_lookup(4), None);
    assert_eq!(t.walk_lookup(5), None);
    // re-inserting the same range with different flags is accepted
    pgtbl_insert_range(&mut t, &mut p, 0x4000, 0x8002_0000,
        2 * PAGE, PageMapFlags::read().or(PageMapFlags::execute())).unwrap();
    // read | execute | valid = 2 + 8 + 1
    assert_eq!(t.walk_lookup(4), Some((0x8002_0000, 11)));
}

#[test]
fn removing_an_unpopulated_range_allocates_levels() {
    let mut p = pool(32);
    let mut t = pgtbl_new_empty(&mut p).unwrap();
    let free_before = p.free_page_count();
    // nothing was ever mapped here, yet the walk must build the path
    pgtbl_remove_range(&mut t, &mut p, 0x4000, PAGE).unwrap();
    assert!(p.free_page_count() < free_before);
    assert_eq!(t.walk_lookup(4), None);
}

#[test]
fn freeing_a_table_returns_every_level() {
    let mut p = pool(64);
    let baseline = p.free_page_count();
    let mut t = pgtbl_new_empty(&mut p).unwrap();
    // two widely separated ranges force separate subtrees
    pgtbl_insert_range(&mut t, &mut p, 0x4000, 0x8001_0000, 2 * PAGE, rw()).unwrap();
    pgtbl_insert_range(&mut t, &mut p, 0x4000_0000, 0x8002_0000, PAGE, rw()).unwrap();
    assert!(p.free_page_count() < baseline);
    pgtbl_free(t, &mut p);
    assert_eq!(p.free_page_count(), baseline);
}

#[test]
fn out_of_bounds_ranges_are_rejected() {
    let mut p = pool(32);
    let mut t = pgtbl_new_empty(&mut p).unwrap();
    let top: u64 = 1 << 39;
    let r = pgtbl_insert_range(&mut t, &mut p, top - PAGE, 0x8001_0000, 2 * PAGE, rw());
    assert_eq!(r.unwrap_err(), HALVMError::OutOfBounds);
    let r = pgtbl_remove_range(&mut t, &mut p, top, PAGE);
    assert_eq!(r.unwrap_err(), HALVMError::OutOfBounds);
}

#[test]
fn allocation_failure_reports_and_leaves_translations_alone() {
    // pool with a single page: the root exists, no level can be added
    let mut p = pool(1);
    let mut t = pgtbl_new_empty(&mut p).unwrap();
    let r = pgtbl_insert_range(&mut t, &mut p, 0x4000, 0x8001_0000, PAGE, rw());
    assert_eq!(r.unwrap_err(), HALVMError::FailedAllocation);
    assert_eq!(t.walk_lookup(4), None);
}

#[test]
fn flag_words_translate_bit_by_bit() {
    // read = 2, write = 4, execute = 8, valid = 1
    assert_eq!(flags_hal_to_ptable(PageMapFlags::read()), 2);
    assert_eq!(flags_hal_to_ptable(rw()), 6);
    assert_eq!(flags_hal_to_ptable(PageMapFlags::empty()), 0);
    let f = PageMapFlags::from_bits(0x1F).unwrap();
    assert!(f.read && f.write && f.execute && f.valid && f.user);
    assert!(!f.global_page && !f.accessed && !f.dirty);
    assert_eq!(flags_hal_to_ptable(f), 0x1F);
}

#[test]
fn unsupported_flag_bits_are_reported() {
    assert_eq!(
        PageMapFlags::from_bits(0x1234).unwrap_err(),
        HALVMError::UnsupportedFlags(0x1234)
    );
}

#[test]
fn satp_encodes_mode_and_frame() {
    let mut p = pool(4);
    let t = pgtbl_new_empty(&mut p).unwrap();
    let satp = pgtbl_swap(&t);
    assert_eq!(satp, 0x8000_0000_0000_0000u64 + t.base / PAGE);
    assert_eq!(t.write_satp(), satp);
}
