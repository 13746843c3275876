use bump_allocator::region::{AllocError, EarlyAllocator};

const PAGE_SIZE: usize = 0x1000;

fn ready(base: usize, len: usize) -> EarlyAllocator<PAGE_SIZE> {
    let mut a = EarlyAllocator::<PAGE_SIZE>::new();
    a.init(base, len);
    a
}

#[test]
fn init_establishes_bounds() {
    let a = ready(0x8000, 0x5000);
    assert_eq!(a.total_bytes(), 0x5000);
    assert_eq!(a.used_bytes(), 0);
    assert_eq!(a.available_bytes(), 0x5000);
    assert_eq!(a.total_pages(), 5);
    assert_eq!(a.used_pages(), 0);
    assert_eq!(a.available_pages(), 5);
    assert_eq!(a.page_size(), PAGE_SIZE);
}

#[test]
fn byte_allocation_is_aligned() {
    let mut a = ready(0x1001, 0x4000);
    for &align in &[1usize, 2, 4, 8, 16, 64, 4096] {
        let addr = a.alloc_bytes(5, align).unwrap();
        assert_eq!(addr % align, 0);
        assert!(addr >= 0x1001);
    }
}

#[test]
fn byte_allocation_is_monotonic() {
    let mut a = ready(0x1000, 0x4000);
    let mut last = a.used_bytes();
    for size in [0usize, 3, 17, 1, 256, 0, 9] {
        a.alloc_bytes(size, 4).unwrap();
        let used = a.used_bytes();
        assert!(used >= last);
        last = used;
    }
}

#[test]
fn collective_free_resets_exactly_at_zero() {
    let mut a = ready(0x1000, 0x2000);
    let first = a.alloc_bytes(10, 8).unwrap();
    assert_eq!(first, 0x1000);
    let b = a.alloc_bytes(300, 4).unwrap();
    let c = a.alloc_bytes(7, 1).unwrap();
    assert!(a.used_bytes() > 0);
    a.dealloc(c, 7, 1);
    assert!(a.used_bytes() > 0);
    a.dealloc(first, 10, 8);
    assert!(a.used_bytes() > 0);
    a.dealloc(b, 300, 4);
    assert_eq!(a.used_bytes(), 0);
    let again = a.alloc_bytes(24, 8).unwrap();
    assert_eq!(again, 0x1000);
}

#[test]
fn byte_allocation_checks_the_gap() {
    let mut a = ready(0x1000, 0x100);
    let r = a.alloc_bytes(0x200, 1);
    assert_eq!(r, Err(AllocError::MemoryOverlap));
    assert_eq!(a.used_bytes(), 0);
    assert_eq!(a.available_bytes(), 0x100);
    let ok = a.alloc_bytes(0x100, 1).unwrap();
    assert_eq!(ok, 0x1000);
}

#[test]
fn page_allocation_moves_downward() {
    let mut a = ready(0, 3 * PAGE_SIZE);
    let p1 = a.alloc_pages(1, 12).unwrap();
    assert_eq!(p1, 2 * PAGE_SIZE);
    let p2 = a.alloc_pages(1, 12).unwrap();
    assert_eq!(p2, PAGE_SIZE);
    assert_eq!(a.used_pages(), 2);
    assert_eq!(a.available_pages(), 1);
}

#[test]
fn failed_page_allocation_has_no_side_effects() {
    let mut a = ready(0, 3 * PAGE_SIZE);
    let r = a.alloc_pages(4, 12);
    assert_eq!(r, Err(AllocError::MemoryOverlap));
    assert_eq!(a.used_pages(), 0);
    let p = a.alloc_pages(2, 12).unwrap();
    assert_eq!(p, PAGE_SIZE);

    let mut b = ready(0, 3 * PAGE_SIZE);
    let q = b.alloc_pages(2, 12).unwrap();
    assert_eq!(q, p);
}

#[test]
fn zones_stay_disjoint() {
    let mut a = ready(0x1000, 0x4000);
    a.alloc_bytes(0x800, 8).unwrap();
    a.alloc_pages(1, 12).unwrap();
    a.alloc_bytes(0x900, 16).unwrap();
    let r = a.alloc_pages(3, 12);
    assert_eq!(r, Err(AllocError::MemoryOverlap));
    assert!(a.used_bytes() + a.available_bytes() + a.used_pages() * PAGE_SIZE == a.total_bytes());
}

#[test]
fn worked_example() {
    let mut a = ready(0x1000, 0x2000);
    let addr = a.alloc_bytes(16, 8).unwrap();
    assert_eq!(addr, 0x1000);
    assert_eq!(a.used_bytes(), 16);
    let page = a.alloc_pages(1, 12).unwrap();
    assert_eq!(page, 0x2000);
    assert_eq!(a.used_pages(), 1);
    assert_eq!(a.available_bytes(), 0x1000 - 16);
    let r = a.alloc_pages(1, 12);
    assert_eq!(r, Err(AllocError::MemoryOverlap));
}

#[test]
fn unsupported_capabilities_report_errors() {
    let mut a = ready(0x1000, 0x1000);
    assert_eq!(a.add_memory(0x4000, 0x1000), Err(AllocError::Unsupported));
    let p = a.alloc_pages(1, 12).unwrap();
    assert_eq!(a.dealloc_pages(p, 1), Err(AllocError::Unsupported));
    assert_eq!(a.used_pages(), 1);
}

#[test]
fn reinit_resets_all_accounting() {
    let mut a = ready(0x1000, 0x1000);
    a.alloc_bytes(64, 8).unwrap();
    a.init(0x2000, 0x3000);
    assert_eq!(a.used_bytes(), 0);
    assert_eq!(a.total_bytes(), 0x3000);
    assert_eq!(a.alloc_bytes(8, 8).unwrap(), 0x2000);
}

#[test]
fn page_alignment_rounds_down() {
    let mut a = ready(0, 0x10000);
    let p = a.alloc_pages(1, 13).unwrap();
    assert_eq!(p % 0x2000, 0);
    assert_eq!(p, 0xE000);
}
