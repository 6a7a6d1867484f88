use kernel_mm::buddy::BuddyAllocator;
use kernel_mm::page_table::{build_kernel_table, KernelBounds, PageTable};

const BASE: usize = 0x8000_0000;
const ROOT: usize = 0x8100_0000;
const POOL: usize = 0x8020_0000;

fn bounds() -> KernelBounds {
    KernelBounds {
        text: BASE,
        transit: BASE + 0x2000,
        rodata: BASE + 0x3000,
        data: BASE + 0x4000,
        end: BASE + 0x6000,
    }
}

fn build() -> PageTable {
    let mut alloc = BuddyAllocator::new(12, 5);
    // enough frames for one level-1 and one level-0 table node
    alloc.transfer(POOL, 2 * 4096);
    let (table, _alloc, res) = build_kernel_table(bounds(), alloc, ROOT);
    assert_eq!(res, Ok((BASE + 0x6000) / 4096));
    table
}

#[test]
fn code_region_is_executable_and_readable() {
    let table = build();
    assert_eq!(table.translate(BASE), Some((BASE / 4096, 0x0b)));
    assert_eq!(table.translate(BASE + 0x1000), Some((BASE / 4096 + 1, 0x0b)));
}

#[test]
fn transition_region_is_fully_permissive() {
    let table = build();
    assert_eq!(table.translate(BASE + 0x2000), Some((BASE / 4096 + 2, 0x0f)));
}

#[test]
fn read_only_data_is_read_only() {
    let table = build();
    assert_eq!(table.translate(BASE + 0x3000), Some((BASE / 4096 + 3, 0x03)));
}

#[test]
fn writable_data_is_read_write() {
    let table = build();
    assert_eq!(table.translate(BASE + 0x4000), Some((BASE / 4096 + 4, 0x07)));
    assert_eq!(table.translate(BASE + 0x5fff), Some((BASE / 4096 + 5, 0x07)));
}

#[test]
fn beyond_image_end_is_unmapped() {
    let table = build();
    assert_eq!(table.translate(BASE + 0x6000), None);
    assert_eq!(table.translate(0), None);
    assert_eq!(table.translate(0x4000_0000), None);
}

#[test]
fn mapping_is_identity() {
    let table = build();
    for off in (0..0x6000).step_by(4096) {
        let (ppn, _flags) = table.translate(BASE + off).unwrap();
        assert_eq!(ppn, (BASE + off) / 4096);
    }
}

#[test]
fn table_frames_come_from_the_allocator() {
    let mut alloc = BuddyAllocator::new(12, 5);
    alloc.transfer(POOL, 2 * 4096);
    let (table, alloc_after, res) = build_kernel_table(bounds(), alloc, ROOT);
    assert!(res.is_ok());
    // two table nodes were created beyond the root; their frames are the
    // two pool frames
    assert_eq!(table.nodes.len(), 3);
    for node in table.nodes.iter().skip(1) {
        assert!(node.addr == POOL || node.addr == POOL + 4096);
    }
    // the pool is exhausted now
    let mut alloc_after = alloc_after;
    assert!(alloc_after.allocate(4096, 4096).is_err());
}

#[test]
fn exhausted_pool_fails_the_build() {
    let alloc = BuddyAllocator::new(12, 5);
    let (_table, _alloc, res) = build_kernel_table(bounds(), alloc, ROOT);
    assert!(res.is_err());
}
