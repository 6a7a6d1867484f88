use kernel_mm::footprint::{calculate_page_count, try_calculate_page_count, Segment};

fn seg(vaddr: usize, mem_size: usize) -> Segment {
    Segment { offset: 0, file_size: mem_size, vaddr, mem_size, flags: 0 }
}

#[test]
fn two_page_segment_needs_nine_frames() {
    // one top-level table, one level-1 table, one level-0 table, two
    // data pages, plus the fixed stack reservation of two data pages,
    // one level-0 table and one level-1 table
    let segments = vec![seg(0x1000, 0x2000)];
    assert_eq!(calculate_page_count(&segments), 9);
}

#[test]
fn no_segments_still_reserve_the_stack() {
    // top-level table + stack: 2 data pages, 1 level-0, 1 level-1
    let segments: Vec<Segment> = Vec::new();
    assert_eq!(calculate_page_count(&segments), 5);
}

#[test]
fn two_segments_in_one_region_share_tables() {
    // both segments live in the same 2 MiB (and 1 GiB) region: one
    // level-0 table and one level-1 table between them
    let segments = vec![seg(0x1000, 0x1000), seg(0x3000, 0x1000)];
    // 2 data + 1 level-0 + 1 level-1 + 1 top + stack (2 + 1 + 1)
    assert_eq!(calculate_page_count(&segments), 9);
}

#[test]
fn appending_a_segment_never_shrinks_the_footprint() {
    let shorter = vec![seg(0x1000, 0x2000)];
    let longer = vec![seg(0x1000, 0x2000), seg(0x40000000, 0x1000)];
    assert!(calculate_page_count(&longer) >= calculate_page_count(&shorter));
}

#[test]
fn segment_crossing_region_boundaries() {
    // a segment spanning two 2 MiB regions needs two level-0 tables
    let segments = vec![seg(0x1ff000, 0x2000)];
    // 2 data + 2 level-0 + 1 level-1 + 1 top + stack (2 + 1 + 1)
    assert_eq!(calculate_page_count(&segments), 10);
}

#[test]
fn partial_pages_are_rounded_to_whole_pages() {
    let segments = vec![seg(0x1800, 0x1000)];
    // the range 0x1800..0x2800 touches two 4 KiB pages
    // 2 data + 1 level-0 + 1 level-1 + 1 top + stack (2 + 1 + 1)
    assert_eq!(calculate_page_count(&segments), 9);
}

#[test]
fn checked_prediction_matches_the_exact_one() {
    let segments = vec![seg(0x1000, 0x2000), seg(0x40000000, 0x1000)];
    let n = calculate_page_count(&segments);
    assert_eq!(try_calculate_page_count(&segments), Some(n));
}

#[test]
fn mem_size_governs_not_file_size() {
    let mut s = seg(0x1000, 0x2000);
    s.file_size = 0x10;
    let segments = vec![s];
    assert_eq!(calculate_page_count(&segments), 9);
}
