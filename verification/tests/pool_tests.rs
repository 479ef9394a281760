use reedos::palloc::{Page, PagePool};
use reedos::vm::{request_phys_page, test_phys_page, VmError};

const PAGE: u64 = 4096;

fn pool(npages: u64) -> PagePool {
    PagePool::new(0x8000_0000, 0x8000_0000 + npages * PAGE)
}

#[test]
fn palloc_hands_out_distinct_pages() {
    let mut p = pool(8);
    let a = p.palloc().unwrap();
    let b = p.palloc().unwrap();
    assert_ne!(a.addr, b.addr);
    assert_eq!(a.addr % PAGE, 0);
    assert_eq!(b.addr % PAGE, 0);
    assert!(p.allocated(a.addr));
    assert!(p.allocated(b.addr));
}

#[test]
fn palloc_and_free_round() {
    // allocate one page and a run of five, then free both
    let mut p = pool(16);
    let baseline = p.free_page_count();
    let one = p.palloc().unwrap();
    let many = p.palloc_plural(5).unwrap();
    assert_eq!(p.free_page_count(), baseline - 6);
    p.pfree(one).unwrap();
    p.pfree_plural(many, 5).unwrap();
    assert_eq!(p.free_page_count(), baseline);
}

#[test]
fn palloc_exhaustion_is_reported() {
    let mut p = pool(2);
    assert!(p.palloc().is_ok());
    assert!(p.palloc().is_ok());
    assert_eq!(p.palloc().unwrap_err(), VmError::OutOfPages);
}

#[test]
fn palloc_plural_needs_a_contiguous_run() {
    let mut p = pool(4);
    let a = p.palloc().unwrap(); // page 0
    let _b = p.palloc().unwrap(); // page 1
    let _c = p.palloc().unwrap(); // page 2
    p.pfree(Page { addr: a.addr }).unwrap(); // page 0 free again
    // free pages are 0 and 3: two in total, but never adjacent
    assert_eq!(p.free_page_count(), 2);
    assert_eq!(p.palloc_plural(2).unwrap_err(), VmError::OutOfPages);
    assert!(p.palloc_plural(1).is_ok());
}

#[test]
fn double_free_is_rejected() {
    let mut p = pool(4);
    let a = p.palloc().unwrap();
    let addr = a.addr;
    p.pfree(a).unwrap();
    assert_eq!(p.pfree(Page { addr }).unwrap_err(), VmError::PfreeFail);
}

#[test]
fn freeing_an_unknown_page_is_rejected() {
    let mut p = pool(4);
    // outside the pool
    assert_eq!(p.pfree(Page { addr: 0x1000 }).unwrap_err(), VmError::PfreeFail);
    // misaligned
    assert_eq!(p.pfree(Page { addr: 0x8000_0001 }).unwrap_err(), VmError::PfreeFail);
    // in range but never allocated
    assert_eq!(p.pfree(Page { addr: 0x8000_0000 }).unwrap_err(), VmError::PfreeFail);
}

#[test]
fn extents_never_share_pages() {
    let mut p = pool(8);
    let e1 = request_phys_page(&mut p, 2).unwrap();
    let e2 = request_phys_page(&mut p, 3).unwrap();
    let (s1, n1) = (e1.head, e1.num);
    let (s2, n2) = (e2.head, e2.num);
    assert!(s1 + n1 * PAGE <= s2 || s2 + n2 * PAGE <= s1);
    e1.release(&mut p);
    e2.release(&mut p);
}

#[test]
fn extent_round_trip_restores_the_pool() {
    let mut p = pool(16);
    let _held = request_phys_page(&mut p, 3).unwrap();
    let occupancy: Vec<bool> = p.used.clone();
    let e = request_phys_page(&mut p, 4).unwrap();
    e.release(&mut p);
    assert_eq!(p.used, occupancy);
}

#[test]
fn extent_request_rejected_when_fragmented() {
    let mut p = pool(3);
    let _e = request_phys_page(&mut p, 3).unwrap();
    assert_eq!(request_phys_page(&mut p, 1).unwrap_err(), VmError::OutOfPages);
}

#[test]
fn builtin_extent_exercise_passes() {
    let mut p = pool(8);
    let before = p.free_page_count();
    assert!(test_phys_page(&mut p));
    assert_eq!(p.free_page_count(), before);
}
