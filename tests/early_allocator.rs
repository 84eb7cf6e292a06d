use bump_allocator::early::AllocError;
use bump_allocator::early::EarlyAllocator;

type Early = EarlyAllocator<0x1000>;

fn region() -> Early {
    let mut a = Early::new();
    a.init(0x1000, 0x2000);
    a
}

#[test]
fn new_allocator_is_empty() {
    let a = Early::new();
    assert_eq!(a.total_bytes(), 0);
    assert_eq!(a.used_bytes(), 0);
    assert_eq!(a.available_bytes(), 0);
    assert_eq!(a.total_pages(), 0);
}

#[test]
fn init_sets_both_cursors() {
    let a = region();
    assert_eq!(a.total_bytes(), 0x2000);
    assert_eq!(a.used_bytes(), 0);
    assert_eq!(a.available_bytes(), 0x2000);
    assert_eq!(a.total_pages(), 2);
    assert_eq!(a.used_pages(), 0);
    assert_eq!(a.available_pages(), 2);
    assert_eq!(Early::page_size(), 0x1000);
}

#[test]
fn scenario_a_first_byte_allocation() {
    let mut a = region();
    assert_eq!(a.allocate(16, 8), Ok(0x1000));
    assert_eq!(a.used_bytes(), 0x10);
}

#[test]
fn scenario_b_first_page_allocation() {
    let mut a = region();
    assert_eq!(a.allocate(16, 8), Ok(0x1000));
    assert_eq!(a.allocate_pages(1, 0x1000), Ok(0x2000));
    assert_eq!(a.used_pages(), 1);
    assert_eq!(a.available_bytes(), 0x2000 - 0x1010);
}

#[test]
fn scenario_c_exhaustion_keeps_cursors() {
    let mut a = region();
    assert_eq!(a.allocate(16, 8), Ok(0x1000));
    assert_eq!(a.allocate_pages(1, 0x1000), Ok(0x2000));
    assert_eq!(a.available_bytes(), 0xFF0);
    assert_eq!(a.allocate(0x1000, 8), Err(AllocError::NoMemory));
    assert_eq!(a.used_bytes(), 0x10);
    assert_eq!(a.available_bytes(), 0xFF0);
    assert_eq!(a.used_pages(), 1);
    assert_eq!(a.allocate(8, 8), Ok(0x1010));
}

#[test]
fn scenario_d_bulk_reclaim() {
    let mut a = region();
    assert_eq!(a.allocate(8, 8), Ok(0x1000));
    assert_eq!(a.allocate(8, 8), Ok(0x1008));
    a.deallocate(0x1000, 8, 8);
    assert_eq!(a.used_bytes(), 16);
    a.deallocate(0x1008, 8, 8);
    assert_eq!(a.used_bytes(), 0);
    assert_eq!(a.available_bytes(), 0x2000);
    assert_eq!(a.allocate(8, 8), Ok(0x1000));
}

#[test]
fn byte_area_stays_while_any_allocation_lives() {
    let mut a = region();
    assert_eq!(a.allocate(8, 8), Ok(0x1000));
    assert_eq!(a.allocate(8, 8), Ok(0x1008));
    a.deallocate(0x1000, 8, 8);
    assert_eq!(a.allocate(8, 8), Ok(0x1010));
    a.deallocate(0x1008, 8, 8);
    assert_eq!(a.used_bytes(), 0x18);
    a.deallocate(0x1010, 8, 8);
    assert_eq!(a.used_bytes(), 0);
}

#[test]
fn reclaim_restores_everything_below_the_pages() {
    let mut a = region();
    assert_eq!(a.allocate(3, 1), Ok(0x1000));
    assert_eq!(a.allocate_pages(1, 0x1000), Ok(0x2000));
    a.deallocate(0x1000, 3, 1);
    assert_eq!(a.used_bytes(), 0);
    assert_eq!(a.available_bytes(), 0x2000 - 0x1000);
}

#[test]
fn allocation_rounds_up_to_alignment() {
    let mut a = region();
    assert_eq!(a.allocate(1, 1), Ok(0x1000));
    assert_eq!(a.allocate(4, 16), Ok(0x1010));
    assert_eq!(a.allocate(2, 2), Ok(0x1014));
    assert_eq!(a.used_bytes(), 0x16);
}

#[test]
fn successive_allocations_do_not_overlap() {
    let mut a = region();
    let mut end = 0x1000;
    for (size, align) in [(5, 1), (7, 8), (1, 64), (32, 4), (0, 128)] {
        let p = a.allocate(size, align).unwrap();
        assert!(p >= end);
        assert_eq!(p % align, 0);
        end = p + size;
    }
}

#[test]
fn accounting_adds_up() {
    let mut a = region();
    assert_eq!(a.allocate(100, 4), Ok(0x1000));
    assert_eq!(a.used_bytes() + a.available_bytes(), a.total_bytes());
    assert_eq!(a.allocate_pages(1, 0x1000), Ok(0x2000));
    assert!(a.used_bytes() + a.available_bytes() < a.total_bytes());
}

#[test]
fn byte_allocation_may_fill_the_region_exactly() {
    let mut a = region();
    assert_eq!(a.allocate(0x2000, 8), Ok(0x1000));
    assert_eq!(a.available_bytes(), 0);
    assert_eq!(a.allocate(1, 1), Err(AllocError::NoMemory));
    assert_eq!(a.allocate_pages(1, 0x1000), Err(AllocError::NoMemory));
}

#[test]
fn huge_byte_request_fails_without_overflow() {
    let mut a = region();
    assert_eq!(a.allocate(usize::MAX, 1), Err(AllocError::NoMemory));
    assert_eq!(a.used_bytes(), 0);
}

#[test]
fn page_allocation_aligns_down() {
    let mut a = EarlyAllocator::<0x1000>::new();
    a.init(0x1000, 0x4800);
    // end is 0x5800; one page gives 0x4800, aligned down to 0x4000
    assert_eq!(a.allocate_pages(1, 0x2000), Ok(0x4000));
    assert_eq!(a.used_pages(), 1);
    assert_eq!(a.allocate_pages(1, 0x1000), Ok(0x3000));
    assert_eq!(a.total_pages(), 4);
}

#[test]
fn page_allocation_collision_fails_and_keeps_cursors() {
    let mut a = region();
    assert_eq!(a.allocate(0x1001, 1), Ok(0x1000));
    assert_eq!(a.allocate_pages(1, 0x1000), Err(AllocError::NoMemory));
    a.deallocate(0x1000, 0x1001, 1);
    assert_eq!(a.allocate(0x1000, 1), Ok(0x1000));
    assert_eq!(a.allocate_pages(1, 0x1000), Ok(0x2000));
    assert_eq!(a.allocate_pages(1, 0x1000), Err(AllocError::NoMemory));
    assert_eq!(a.used_pages(), 1);
    assert_eq!(a.used_bytes(), 0x1000);
    assert_eq!(a.available_pages(), 0);
}

#[test]
fn page_allocation_larger_than_cursor_fails() {
    let mut a = region();
    assert_eq!(a.allocate_pages(4, 0x1000), Err(AllocError::NoMemory));
    assert_eq!(a.allocate_pages(usize::MAX, 1), Err(AllocError::NoMemory));
    assert_eq!(a.used_pages(), 0);
    assert_eq!(a.available_bytes(), 0x2000);
}

#[test]
fn total_pages_never_changes() {
    let mut a = region();
    assert_eq!(a.total_pages(), 2);
    assert_eq!(a.allocate(8, 8), Ok(0x1000));
    assert_eq!(a.allocate_pages(1, 0x1000), Ok(0x2000));
    assert_eq!(a.allocate_pages(1, 0x1000), Err(AllocError::NoMemory));
    a.deallocate(0x1000, 8, 8);
    assert_eq!(a.total_pages(), 2);
}

#[test]
fn extend_always_fails() {
    let mut a = Early::new();
    assert_eq!(a.extend(0, 0), Err(AllocError::NoMemory));
    let mut b = region();
    assert_eq!(b.allocate(8, 8), Ok(0x1000));
    assert_eq!(b.extend(0x3000, 0x1000), Err(AllocError::NoMemory));
    assert_eq!(b.total_bytes(), 0x2000);
    assert_eq!(b.used_bytes(), 8);
}

#[test]
fn page_deallocation_is_unsupported() {
    let mut a = region();
    assert_eq!(a.allocate_pages(1, 0x1000), Ok(0x2000));
    assert_eq!(a.deallocate_pages(0x2000, 1), Err(AllocError::Unsupported));
    assert_eq!(a.used_pages(), 1);
}
