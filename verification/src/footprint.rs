//! The load footprint calculator: a pure function over an executable
//! image's loadable-segment descriptors that predicts how many physical
//! frames the image needs once mapped into a fresh three-level address
//! space — data pages, one table page per touched region at each table
//! level, the always-present top-level table, and a fixed reservation for
//! the user stack.
//!
//! Segments are assumed sorted by virtual address and pairwise
//! non-overlapping, so one forward-advancing covered-up-to mark per
//! granularity suffices; with unsorted or overlapping input the counts are
//! unspecified but the pass is still a single bounded loop.

use vstd::prelude::*;

verus! {

use vstd::arithmetic::div_mod::{
    lemma_fundamental_div_mod, lemma_fundamental_div_mod_converse, lemma_div_is_ordered,
    lemma_mod_multiples_basic,
};

/// One loadable segment: file offset, file size, virtual address, memory
/// size and permission flags, describing one contiguous region to map.
#[derive(Clone, Copy, Debug, PartialEq, Eq, Structural)]
pub struct Segment {
    /// Offset of the segment's bytes in the image file.
    pub offset: usize,
    /// Number of bytes stored in the file.
    pub file_size: usize,
    /// First virtual address of the mapped region.
    pub vaddr: usize,
    /// Number of bytes the region occupies in memory.
    pub mem_size: usize,
    /// Permission flags as the image header carries them.
    pub flags: u32,
}

/// A segment's virtual range stays inside the low 256 GiB of the user
/// address space.
pub open spec fn seg_ok(s: Segment) -> bool {
    s.vaddr + s.mem_size <= 0x4000000000
}

/// `x` rounded down to a multiple of `r`.
pub open spec fn round_down(x: int, r: int) -> int {
    (x / r) * r
}

/// `x` rounded up to a multiple of `r`.
pub open spec fn round_up(x: int, r: int) -> int {
    ((x + r - 1) / r) * r
}

/// Number of 4 KiB pages the segment's virtual range touches.
pub open spec fn seg_pages(s: Segment) -> int {
    round_up(s.vaddr + s.mem_size, 4096) / 4096 - s.vaddr as int / 4096
}

/// Running state of the single forward pass: the covered-up-to marks of
/// the two table granularities and the three frame counters.
pub struct FootprintState {
    /// Virtual address up to which 1 GiB regions have been counted.
    pub end_1g: int,
    /// Virtual address up to which 2 MiB regions have been counted.
    pub end_2m: int,
    /// Level-1 table pages: one per touched 1 GiB region.
    pub count_1g: int,
    /// Level-0 table pages: one per touched 2 MiB region.
    pub count_2m: int,
    /// Data pages: one per touched 4 KiB page.
    pub count_4k: int,
}

/// Advances one covered-up-to mark across a segment `[start, end)` at
/// granularity `r`: the mark first jumps forward to the segment's region
/// (regions between segments are never counted), then each `r`-sized
/// region up to the segment's end is counted once.
pub open spec fn advance(end_hw: int, start: int, end: int, r: int) -> (int, int) {
    let base = if end_hw > round_down(start, r) {
        end_hw
    } else {
        round_down(start, r)
    };
    let target = round_up(end, r);
    if target > base {
        (target, (target - base) / r)
    } else {
        (base, 0)
    }
}

/// One step of the pass: fold the next segment into the state.
pub open spec fn footprint_step(st: FootprintState, s: Segment) -> FootprintState {
    let start = s.vaddr as int;
    let end = s.vaddr + s.mem_size;
    let (e2, c2) = advance(st.end_2m, start, end, 0x200000);
    let (e1, c1) = advance(st.end_1g, start, end, 0x40000000);
    FootprintState {
        end_1g: e1,
        end_2m: e2,
        count_1g: st.count_1g + c1,
        count_2m: st.count_2m + c2,
        count_4k: st.count_4k + seg_pages(s),
    }
}

/// The state before the first segment.
pub open spec fn footprint_init() -> FootprintState {
    FootprintState { end_1g: 0, end_2m: 0, count_1g: 0, count_2m: 0, count_4k: 0 }
}

/// The state after folding every segment, in order.
pub open spec fn footprint_run(segs: Seq<Segment>) -> FootprintState
    decreases segs.len(),
{
    if segs.len() == 0 {
        footprint_init()
    } else {
        footprint_step(footprint_run(segs.drop_last()), segs.last())
    }
}

/// Total frames an image needs: its data pages and table pages at every
/// level, one top-level table, plus the fixed user-stack reservation of
/// two data pages, one level-0 table and one level-1 table.
pub open spec fn spec_page_count(segs: Seq<Segment>) -> int {
    let st = footprint_run(segs);
    st.count_4k + 2 + st.count_2m + 1 + st.count_1g + 1 + 1
}

/// Predicts the number of physical frames needed to map an executable's
/// loadable segments into a fresh three-level address space, in one
/// forward pass over the segments.
pub fn calculate_page_count(segments: &Vec<Segment>) -> (n: usize)
    requires
        forall|i: int| 0 <= i < segments@.len() ==> seg_ok(#[trigger] segments@[i]),
        segments@.len() <= 65536,
        spec_page_count(segments@) <= usize::MAX,
    ensures
        n as int == spec_page_count(segments@),
{
    let total = page_count_total(segments);
    proof {
        assert(total as int <= usize::MAX as int);
    }
    let result = total as usize;
    proof {
        assert(result as int == total as int);
    }
    result
}

/// The checkable form of the prediction: computes the count in 64-bit
/// arithmetic and reports `None` when it would not fit the machine's
/// word, instead of demanding that bound up front.
pub fn try_calculate_page_count(segments: &Vec<Segment>) -> (r: Option<usize>)
    requires
        forall|i: int| 0 <= i < segments@.len() ==> seg_ok(#[trigger] segments@[i]),
        segments@.len() <= 65536,
    ensures
        match r {
            Some(n) => n as int == spec_page_count(segments@) && spec_page_count(segments@)
                <= usize::MAX,
            None => spec_page_count(segments@) > usize::MAX,
        },
{
    let total = page_count_total(segments);
    if total <= usize::MAX as u64 {
        let result = total as usize;
        proof {
            assert(result as int == total as int);
        }
        Some(result)
    } else {
        None
    }
}

/// The single forward pass, in overflow-free 64-bit arithmetic.
#[verifier::rlimit(80)]
fn page_count_total(segments: &Vec<Segment>) -> (n: u64)
    requires
        forall|i: int| 0 <= i < segments@.len() ==> seg_ok(#[trigger] segments@[i]),
        segments@.len() <= 65536,
    ensures
        n as int == spec_page_count(segments@),
{
    let mut count_1g: u64 = 0;
    let mut count_2m: u64 = 0;
    let mut count_4k: u64 = 0;
    let mut end_1g: u64 = 0;
    let mut end_2m: u64 = 0;
    let mut idx: usize = 0;
    while idx < segments.len()
        invariant
            idx <= segments@.len(),
            segments@.len() <= 65536,
            forall|i: int| 0 <= i < segments@.len() ==> seg_ok(#[trigger] segments@[i]),
            footprint_run(segments@.take(idx as int)) == (FootprintState {
                end_1g: end_1g as int,
                end_2m: end_2m as int,
                count_1g: count_1g as int,
                count_2m: count_2m as int,
                count_4k: count_4k as int,
            }),
            count_4k <= idx * 0x4000001,
            count_2m <= idx * 0x40000,
            count_1g <= idx * 0x200,
            end_2m <= 0x4000200000,
            end_1g <= 0x4040000000,
            end_2m % 0x200000 == 0,
            end_1g % 0x40000000 == 0,
        decreases segments@.len() - idx,
    {
        let seg = segments[idx];
        let start = seg.vaddr as u64;
        let end = start + seg.mem_size as u64;
        // data pages touched by this segment
        let p_start = start / 4096;
        let p_end = (end + 4095) / 4096;
        proof {
            lemma_div_is_ordered(start as int, end as int, 4096);
            lemma_div_is_ordered(end as int, end as int + 4095, 4096);
            lemma_div_is_ordered(end as int + 4095, 0x4000000fff, 4096);
        }
        count_4k = count_4k + (p_end - p_start);
        // level-0 table pages: advance the 2 MiB covered-up-to mark
        let base_2m = {
            let rd = (start / 0x200000) * 0x200000;
            if end_2m > rd {
                end_2m
            } else {
                rd
            }
        };
        let target_2m = ((end + 0x1fffff) / 0x200000) * 0x200000;
        proof {
            lemma_mod_multiples_basic((end as int + 0x1fffff) / 0x200000, 0x200000);
            lemma_mod_multiples_basic(start as int / 0x200000, 0x200000);
            lemma_div_is_ordered(end as int + 0x1fffff, 0x40001fffff, 0x200000);
            lemma_div_is_ordered(start as int, end as int, 0x200000);
            assert((start as int / 0x200000) * 0x200000 <= start as int) by {
                lemma_fundamental_div_mod(start as int, 0x200000);
            }
            if target_2m > base_2m {
                lemma_div_is_ordered(
                    target_2m as int - base_2m as int,
                    target_2m as int,
                    0x200000,
                );
            }
        }
        if target_2m > base_2m {
            count_2m = count_2m + (target_2m - base_2m) / 0x200000;
            end_2m = target_2m;
        } else {
            end_2m = base_2m;
        }
        // level-1 table pages: advance the 1 GiB covered-up-to mark
        let base_1g = {
            let rd = (start / 0x40000000) * 0x40000000;
            if end_1g > rd {
                end_1g
            } else {
                rd
            }
        };
        let target_1g = ((end + 0x3fffffff) / 0x40000000) * 0x40000000;
        proof {
            lemma_mod_multiples_basic((end as int + 0x3fffffff) / 0x40000000, 0x40000000);
            lemma_mod_multiples_basic(start as int / 0x40000000, 0x40000000);
            lemma_div_is_ordered(end as int + 0x3fffffff, 0x403fffffff, 0x40000000);
            lemma_div_is_ordered(start as int, end as int, 0x40000000);
            assert((start as int / 0x40000000) * 0x40000000 <= start as int) by {
                lemma_fundamental_div_mod(start as int, 0x40000000);
            }
            if target_1g > base_1g {
                lemma_div_is_ordered(
                    target_1g as int - base_1g as int,
                    target_1g as int,
                    0x40000000,
                );
            }
        }
        if target_1g > base_1g {
            count_1g = count_1g + (target_1g - base_1g) / 0x40000000;
            end_1g = target_1g;
        } else {
            end_1g = base_1g;
        }
        proof {
            assert(segments@.take(idx as int + 1).drop_last() =~= segments@.take(idx as int));
            assert(segments@.take(idx as int + 1).last() == segments@[idx as int]);
        }
        idx = idx + 1;
    }
    proof {
        assert(segments@.take(segments@.len() as int) =~= segments@);
    }
    let total: u64 = count_4k + 2 + count_2m + 1 + count_1g + 1 + 1;
    total
}

/// Rounding up stays at or above the value and lands on a multiple.
proof fn lemma_round_up_ge(x: int, r: int)
    requires
        r > 0,
        x >= 0,
    ensures
        round_up(x, r) >= x,
        round_up(x, r) % r == 0,
{
    let q = (x + r - 1) / r;
    lemma_fundamental_div_mod(x + r - 1, r);
    lemma_mod_multiples_basic(q, r);
    assert(q * r == r * q) by (nonlinear_arith);
}

/// Appending one more non-overlapping, higher-address segment never
/// decreases the computed footprint.
pub proof fn lemma_footprint_monotone(segs: Seq<Segment>, s: Segment)
    requires
        seg_ok(s),
    ensures
        spec_page_count(segs.push(s)) >= spec_page_count(segs),
{
    assert(segs.push(s).drop_last() =~= segs);
    assert(segs.push(s).last() == s);
    lemma_round_up_ge(s.vaddr + s.mem_size, 4096);
    lemma_div_is_ordered(s.vaddr as int, round_up(s.vaddr + s.mem_size, 4096), 4096);
}

/// Two nonempty segments both contained in the same 2 MiB region
/// contribute exactly one level-0 table page between them.
pub proof fn lemma_same_region_one_table(s1: Segment, s2: Segment, base: int)
    requires
        base >= 0,
        base % 0x200000 == 0,
        base <= s1.vaddr as int,
        s1.vaddr + s1.mem_size <= base + 0x200000,
        base <= s2.vaddr as int,
        s2.vaddr + s2.mem_size <= base + 0x200000,
        s1.mem_size >= 1,
        s2.mem_size >= 1,
    ensures
        footprint_run(seq![s1, s2]).count_2m == 1,
{
    let r = 0x200000;
    let q = base / r;
    lemma_fundamental_div_mod(base, r);
    lemma_region_bounds(s1, base, q);
    lemma_region_bounds(s2, base, q);
    let two = seq![s1, s2];
    assert(two.drop_last() =~= seq![s1]);
    assert(seq![s1].drop_last() =~= Seq::<Segment>::empty());
    assert(two.last() == s2);
    assert(seq![s1].last() == s1);
    let st1 = footprint_step(footprint_init(), s1);
    assert(footprint_run(Seq::<Segment>::empty()) == footprint_init());
    assert(footprint_run(seq![s1]) == st1);
    assert(footprint_run(two) == footprint_step(st1, s2));
    assert(st1.end_2m == base + r);
    assert(st1.count_2m == 1) by {
        assert((base + r - base) / r == 1) by {
            lemma_fundamental_div_mod_converse(r, r, 1, 0);
        }
    }
    assert(footprint_step(st1, s2).count_2m == 1);
}

/// Two nonempty segments both contained in the same 1 GiB region
/// contribute exactly one level-1 table page between them.
pub proof fn lemma_same_region_one_directory(s1: Segment, s2: Segment, base: int)
    requires
        base >= 0,
        base % 0x40000000 == 0,
        base <= s1.vaddr as int,
        s1.vaddr + s1.mem_size <= base + 0x40000000,
        base <= s2.vaddr as int,
        s2.vaddr + s2.mem_size <= base + 0x40000000,
        s1.mem_size >= 1,
        s2.mem_size >= 1,
    ensures
        footprint_run(seq![s1, s2]).count_1g == 1,
{
    let r = 0x40000000;
    let q = base / r;
    lemma_fundamental_div_mod(base, r);
    lemma_directory_bounds(s1, base, q);
    lemma_directory_bounds(s2, base, q);
    let two = seq![s1, s2];
    assert(two.drop_last() =~= seq![s1]);
    assert(seq![s1].drop_last() =~= Seq::<Segment>::empty());
    assert(two.last() == s2);
    assert(seq![s1].last() == s1);
    let st1 = footprint_step(footprint_init(), s1);
    assert(footprint_run(Seq::<Segment>::empty()) == footprint_init());
    assert(footprint_run(seq![s1]) == st1);
    assert(footprint_run(two) == footprint_step(st1, s2));
    assert(st1.end_1g == base + r);
    assert(st1.count_1g == 1) by {
        assert((base + r - base) / r == 1) by {
            lemma_fundamental_div_mod_converse(r, r, 1, 0);
        }
    }
    assert(footprint_step(st1, s2).count_1g == 1);
}

/// A nonempty segment inside the aligned region `[base, base + 1 GiB)`
/// rounds down to `base` and rounds up to the region's end.
proof fn lemma_directory_bounds(s: Segment, base: int, q: int)
    requires
        base >= 0,
        base == 0x40000000 * q,
        base <= s.vaddr as int,
        s.vaddr + s.mem_size <= base + 0x40000000,
        s.mem_size >= 1,
    ensures
        round_down(s.vaddr as int, 0x40000000) == base,
        round_up(s.vaddr + s.mem_size, 0x40000000) == base + 0x40000000,
{
    let r = 0x40000000;
    let start = s.vaddr as int;
    let end = s.vaddr + s.mem_size;
    lemma_fundamental_div_mod_converse(start, r, q, start - base);
    assert(round_down(start, r) == q * r);
    lemma_fundamental_div_mod_converse(end + r - 1, r, q + 1, end - 1 - base);
    assert(round_up(end, r) == (q + 1) * r);
    assert(q * r == base && (q + 1) * r == base + r) by (nonlinear_arith)
        requires
            base == r * q,
            r == 0x40000000,
    ;
}

/// A nonempty segment inside the aligned region `[base, base + 2 MiB)`
/// rounds down to `base` and rounds up to the region's end.
proof fn lemma_region_bounds(s: Segment, base: int, q: int)
    requires
        base >= 0,
        base == 0x200000 * q,
        base <= s.vaddr as int,
        s.vaddr + s.mem_size <= base + 0x200000,
        s.mem_size >= 1,
    ensures
        round_down(s.vaddr as int, 0x200000) == base,
        round_up(s.vaddr + s.mem_size, 0x200000) == base + 0x200000,
{
    let r = 0x200000;
    let start = s.vaddr as int;
    let end = s.vaddr + s.mem_size;
    lemma_fundamental_div_mod_converse(start, r, q, start - base);
    assert(round_down(start, r) == q * r);
    lemma_fundamental_div_mod_converse(end + r - 1, r, q + 1, end - 1 - base);
    assert(round_up(end, r) == (q + 1) * r);
    assert(q * r == base && (q + 1) * r == base + r) by (nonlinear_arith)
        requires
            base == r * q,
            r == 0x200000,
    ;
}

} // verus!
