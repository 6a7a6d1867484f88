use kernel_mm::buddy::{BuddyAllocator, ExhaustedError, SharedAllocator};

const MIB: usize = 0x100000;
const BASE: usize = 0x8000_0000;

#[test]
fn transfer_then_allocate_returns_the_region() {
    // a coarse allocator with 4096-byte base blocks holding exactly one
    // frame serves it back, and a second request is exhausted
    let mut a = BuddyAllocator::new(12, 5);
    a.transfer(BASE, 4096);
    assert_eq!(a.allocate(4096, 4096), Ok((BASE, 4096)));
    assert_eq!(a.allocate(4096, 4096), Err(ExhaustedError));
}

#[test]
fn allocate_splits_larger_blocks() {
    let mut a = BuddyAllocator::new(12, 5);
    a.transfer(BASE, 4 * 4096);
    // no 4096-byte block exists, so a larger one is split lazily
    let (p0, s0) = a.allocate(4096, 4096).unwrap();
    assert_eq!((p0, s0), (BASE, 4096));
    let (p1, s1) = a.allocate(4096, 4096).unwrap();
    assert_eq!(s1, 4096);
    assert_ne!(p0, p1);
    assert_eq!(p1 % 4096, 0);
}

#[test]
fn deallocate_merges_buddies() {
    let mut a = BuddyAllocator::new(12, 3);
    a.transfer(BASE, 2 * 4096);
    let (p0, _) = a.allocate(4096, 4096).unwrap();
    let (p1, _) = a.allocate(4096, 4096).unwrap();
    // both halves returned: they must merge back into one 8192 block
    a.deallocate(p0, 4096);
    a.deallocate(p1, 4096);
    assert_eq!(a.allocate(8192, 8192), Ok((BASE, 8192)));
}

#[test]
fn allocate_is_aligned() {
    let mut a = BuddyAllocator::new(3, 14);
    a.transfer(BASE, 2 * MIB / 16);
    let (p, s) = a.allocate(256, 24).unwrap();
    // the returned block starts at a multiple of the alignment and of
    // its own (possibly larger) size
    assert_eq!(p % 256, 0);
    assert_eq!(p % s, 0);
    assert!(s >= 24);
}

#[test]
fn allocate_rounds_up_small_requests() {
    let mut a = BuddyAllocator::new(12, 5);
    a.transfer(BASE, 4096);
    // a request smaller than the base block still gets a whole block
    assert_eq!(a.allocate(8, 16), Ok((BASE, 4096)));
}

#[test]
fn conservation_over_a_round_trip() {
    let mut a = BuddyAllocator::new(12, 5);
    a.transfer(BASE, 16 * 4096);
    let (p0, s0) = a.allocate(4096, 4096).unwrap();
    let (p1, s1) = a.allocate(8192, 8192).unwrap();
    a.deallocate(p0, s0);
    a.deallocate(p1, s1);
    // everything returned: the whole region is one free block again
    assert_eq!(a.allocate(16 * 4096, 16 * 4096), Ok((BASE, 16 * 4096)));
}

#[test]
fn shared_allocator_refills_once_from_coarse() {
    // the fine instance is empty; the coarse one holds one block of the
    // fine instance's largest order (2^(3+13) = 64 KiB), so the request
    // succeeds after exactly one refill
    let fine = BuddyAllocator::new(3, 14);
    let mut coarse = BuddyAllocator::new(12, 5);
    coarse.transfer(BASE, 0x10000);
    let mut shared = SharedAllocator::new(fine);
    let (p, s) = shared.allocate(&mut coarse, 8, 16).unwrap();
    assert_eq!(p % 8, 0);
    assert!(s >= 16);
    // the fine instance is now stocked: further requests need no refill
    // and the exhausted coarse instance is not consulted
    let (p2, _) = shared.allocate(&mut coarse, 8, 16).unwrap();
    assert_ne!(p, p2);
}

#[test]
fn shared_allocator_reports_fatal_exhaustion() {
    let fine = BuddyAllocator::new(3, 14);
    let mut coarse = BuddyAllocator::new(12, 5);
    let mut shared = SharedAllocator::new(fine);
    assert!(shared.allocate(&mut coarse, 8, 16).is_err());
}

#[test]
fn shared_allocator_returns_blocks_to_fine() {
    let fine = BuddyAllocator::new(3, 14);
    let mut coarse = BuddyAllocator::new(12, 5);
    coarse.transfer(BASE, 0x10000);
    let mut shared = SharedAllocator::new(fine);
    let (p, s) = shared.allocate(&mut coarse, 64, 64).unwrap();
    shared.deallocate(p, s);
    let (p2, _) = shared.allocate(&mut coarse, 64, 64).unwrap();
    assert_eq!(p, p2);
}

#[test]
fn transfer_decomposes_into_maximal_blocks() {
    let mut a = BuddyAllocator::new(12, 5);
    // an oddly sized region decomposes into one 4096 block and one 8192
    // block; three frames come out, a fourth does not
    a.transfer(BASE + 0x1000, 3 * 4096);
    assert!(a.allocate(4096, 4096).is_ok());
    assert!(a.allocate(4096, 4096).is_ok());
    assert!(a.allocate(4096, 4096).is_ok());
    assert_eq!(a.allocate(4096, 4096), Err(ExhaustedError));
}

#[test]
fn init_resets_the_free_lists() {
    let mut a = BuddyAllocator::new(12, 5);
    a.transfer(BASE, 4096);
    a.init(12);
    assert_eq!(a.allocate(4096, 4096), Err(ExhaustedError));
}
