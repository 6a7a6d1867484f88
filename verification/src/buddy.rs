//! The frame/heap allocator: a buddy allocator over plain physical
//! addresses.
//!
//! An instance manages `order_count` doubling size classes, the smallest of
//! size `2^base_order` bytes.  Each free list holds the start addresses of
//! the free blocks of one size class; every block is naturally aligned (its
//! address is a multiple of its size), all free blocks are pairwise
//! disjoint, and no two free sibling blocks (the two halves of one larger
//! block) coexist unmerged in a well-formed instance.

use vstd::prelude::*;

verus! {

use vstd::arithmetic::power2::{pow2, lemma_pow2_adds, lemma_pow2_strictly_increases, lemma_pow2_pos};
use vstd::arithmetic::div_mod::{
    lemma_fundamental_div_mod, lemma_fundamental_div_mod_converse, lemma_mod_multiples_basic,
};

/// A buddy allocator instance could not satisfy a request from its free
/// lists, even after splitting the largest available block.
#[derive(Clone, Copy, Debug, PartialEq, Eq, Structural)]
pub struct ExhaustedError;

/// One buddy allocator instance (one tier of the frame/heap allocator).
pub struct BuddyAllocator {
    /// log2 of the smallest allocatable block size.
    pub base_order: usize,
    /// Smallest allocatable block size, `2^base_order` bytes.
    pub base_size: usize,
    /// `free_lists[o]` holds the start addresses of the free blocks of size
    /// `base_size * 2^o`.
    pub free_lists: Vec<Vec<usize>>,
    /// Total bytes currently issued to callers and not yet returned.
    pub allocated: Ghost<nat>,
    /// Total bytes ever transferred into this instance.
    pub transferred: Ghost<nat>,
}

impl BuddyAllocator {
    /// Number of size classes this instance manages.
    pub open spec fn order_count(self) -> int {
        self.free_lists@.len() as int
    }

    /// The free list of size class `o`.
    pub open spec fn list(self, o: int) -> Seq<usize> {
        self.free_lists@[o]@
    }

    /// Block size of size class `o`.
    pub open spec fn size_of(self, o: int) -> nat {
        pow2((self.base_order + o) as nat)
    }

    /// Bytes held by the free lists of the size classes below `o`.
    pub open spec fn free_bytes_up_to(self, o: int) -> nat
        decreases o,
    {
        if o <= 0 {
            0
        } else {
            self.free_bytes_up_to(o - 1) + self.list(o - 1).len() * self.size_of(o - 1)
        }
    }

    /// Bytes held by all free lists.
    pub open spec fn free_bytes(self) -> nat {
        self.free_bytes_up_to(self.order_count())
    }

    /// A block of class `o` at address `a` is naturally aligned and does not
    /// wrap around the address space.
    pub open spec fn block_ok(self, o: int, a: usize) -> bool {
        &&& a as int % self.size_of(o) as int == 0
        &&& a + self.size_of(o) <= usize::MAX
    }

    /// Two distinct free blocks are disjoint in address, and two free blocks
    /// of one mergeable size class are never the two halves of the same
    /// parent block (the buddy property: siblings merge eagerly).
    pub open spec fn pair_ok(self, o1: int, a1: usize, o2: int, a2: usize) -> bool {
        &&& (a1 + self.size_of(o1) <= a2 || a2 + self.size_of(o2) <= a1)
        &&& !(o1 == o2 && o1 + 1 < self.order_count() && a1 as int / (2 * self.size_of(o1) as int)
            == a2 as int / (2 * self.size_of(o2) as int))
    }

    /// Structural well-formedness of the free lists.
    pub open spec fn wf_lists(self) -> bool {
        &&& 1 <= self.order_count()
        &&& self.base_order + self.order_count() <= 58
        &&& self.base_size == pow2(self.base_order as nat)
        &&& pow2((self.base_order + self.order_count() - 1) as nat) <= usize::MAX
        &&& forall|o: int, j: int|
            0 <= o < self.order_count() && 0 <= j < self.list(o).len() ==> self.block_ok(
                o,
                #[trigger] self.list(o)[j],
            )
        &&& forall|o1: int, j1: int, o2: int, j2: int|
            0 <= o1 < self.order_count() && 0 <= j1 < self.list(o1).len() && 0 <= o2
                < self.order_count() && 0 <= j2 < self.list(o2).len() && (o1 != o2 || j1 != j2)
                ==> self.pair_ok(
                o1,
                #[trigger] self.list(o1)[j1],
                o2,
                #[trigger] self.list(o2)[j2],
            )
    }

    /// Well-formedness: structural invariants plus conservation, i.e. free
    /// bytes plus outstanding allocated bytes equal the bytes ever
    /// transferred in.
    pub open spec fn wf(self) -> bool {
        &&& self.wf_lists()
        &&& self.free_bytes() + self.allocated@ == self.transferred@
    }

    /// The range `[a, a + len)` overlaps no free block.
    pub open spec fn range_free_disjoint(self, a: int, len: int) -> bool {
        forall|o: int, j: int|
            0 <= o < self.order_count() && 0 <= j < self.list(o).len() ==> (a + len
                <= #[trigger] self.list(o)[j] || self.list(o)[j] + self.size_of(o) <= a)
    }

    /// Creates an instance with the given base order and number of size
    /// classes; no memory is available until `transfer` is called.
    pub fn new(base_order: usize, order_count: usize) -> (r: Self)
        requires
            1 <= order_count,
            base_order + order_count <= 58,
            pow2((base_order + order_count - 1) as nat) <= usize::MAX,
        ensures
            r.wf(),
            r.base_order == base_order,
            r.order_count() == order_count,
            r.free_bytes() == 0,
            r.allocated@ == 0,
            r.transferred@ == 0,
            forall|o: int| 0 <= o < order_count ==> r.list(o).len() == 0,
    {
        proof {
            lemma_pow2_le_max(base_order as nat, (base_order + order_count - 1) as nat);
        }
        let base_size = pow2_exec(base_order);
        let mut free_lists: Vec<Vec<usize>> = Vec::new();
        let mut o: usize = 0;
        while o < order_count
            invariant
                o <= order_count,
                free_lists@.len() == o,
                forall|i: int| 0 <= i < o ==> free_lists@[i]@.len() == 0,
            decreases order_count - o,
        {
            free_lists.push(Vec::new());
            o = o + 1;
        }
        let r = BuddyAllocator {
            base_order,
            base_size,
            free_lists,
            allocated: Ghost(0),
            transferred: Ghost(0),
        };
        proof {
            r.lemma_free_bytes_all_empty(r.order_count());
        }
        r
    }

    /// Resets the free lists to empty and records a new base order; makes no
    /// memory available.
    pub fn init(&mut self, base_order: usize)
        requires
            1 <= old(self).order_count(),
            base_order + old(self).order_count() <= 58,
            pow2((base_order + old(self).order_count() - 1) as nat) <= usize::MAX,
        ensures
            final (self).wf(),
            final (self).base_order == base_order,
            final (self).order_count() == old(self).order_count(),
            final (self).free_bytes() == 0,
            final (self).allocated@ == 0,
            final (self).transferred@ == 0,
            forall|o: int| 0 <= o < old(self).order_count() ==> final (self).list(o).len() == 0,
    {
        let count = self.free_lists.len();
        let fresh = Self::new(base_order, count);
        *self = fresh;
    }

    /// If every free list is empty, no class below `o` holds any bytes.
    pub proof fn lemma_free_bytes_all_empty(self, o: int)
        requires
            forall|i: int| 0 <= i < self.order_count() ==> self.list(i).len() == 0,
            o <= self.order_count(),
        ensures
            self.free_bytes_up_to(o) == 0,
        decreases o,
    {
        if o > 0 {
            self.lemma_free_bytes_all_empty(o - 1);
        }
    }
}

/// Where the block at slot `(i, k)` of the lists after removing slot
/// `(o, j)` stood before the removal.
pub open spec fn remove_map(o: int, j: int, i: int, k: int) -> int {
    if i == o && k >= j {
        k + 1
    } else {
        k
    }
}

impl BuddyAllocator {
    /// Address of the sibling of the class-`o` block at `a`: the other half
    /// of their common parent block.
    pub open spec fn buddy_of(self, o: int, a: usize) -> int {
        if (a as int / self.size_of(o) as int) % 2 == 0 {
            a + self.size_of(o)
        } else {
            a - self.size_of(o)
        }
    }

    /// Block size of class `o`, computed by doubling.
    pub fn block_size(&self, o: usize) -> (s: usize)
        requires
            self.wf_lists(),
            o < self.order_count(),
        ensures
            s == self.size_of(o as int),
            s >= 1,
    {
        proof {
            lemma_pow2_le_max(
                (self.base_order + o) as nat,
                (self.base_order + self.order_count() - 1) as nat,
            );
            lemma_pow2_pos((self.base_order + o) as nat);
        }
        pow2_exec(self.base_order + o)
    }

    /// Doubling one size class.
    pub proof fn lemma_size_of_double(self, o: int)
        requires
            0 <= o,
        ensures
            self.size_of(o + 1) == 2 * self.size_of(o),
    {
        lemma_pow2_adds(1, (self.base_order + o) as nat);
        vstd::arithmetic::power2::lemma2_to64();
    }

    /// Changing one free list changes `free_bytes_up_to` by the
    /// corresponding byte count and nothing else.
    proof fn lemma_free_bytes_update_list(pre: Self, post: Self, o: int, upto: int)
        requires
            post.base_order == pre.base_order,
            post.order_count() == pre.order_count(),
            0 <= o < pre.order_count(),
            forall|i: int| 0 <= i < pre.order_count() && i != o ==> post.list(i) == pre.list(i),
            upto <= pre.order_count(),
        ensures
            o < upto ==> post.free_bytes_up_to(upto) + pre.list(o).len() * pre.size_of(o)
                == pre.free_bytes_up_to(upto) + post.list(o).len() * pre.size_of(o),
            upto <= o ==> post.free_bytes_up_to(upto) == pre.free_bytes_up_to(upto),
        decreases upto,
    {
        if upto > 0 {
            Self::lemma_free_bytes_update_list(pre, post, o, upto - 1);
        }
    }

    /// A state with the same base order and the same free lists has the
    /// same structural properties; only the ghost accounting may differ.
    proof fn lemma_same_lists_frame(pre: Self, post: Self)
        requires
            post.base_order == pre.base_order,
            post.base_size == pre.base_size,
            post.order_count() == pre.order_count(),
            forall|i: int| 0 <= i < pre.order_count() ==> post.list(i) == pre.list(i),
        ensures
            post.free_bytes() == pre.free_bytes(),
            pre.wf_lists() ==> post.wf_lists(),
            forall|a: int, l: int|
                #[trigger] pre.range_free_disjoint(a, l) ==> post.range_free_disjoint(a, l),
    {
        if pre.order_count() > 0 {
            Self::lemma_free_bytes_update_list(pre, post, 0, pre.order_count());
        }
        if pre.wf_lists() {
            assert forall|o: int, j: int|
                0 <= o < post.order_count() && 0 <= j < post.list(o).len() implies post.block_ok(
                o,
                #[trigger] post.list(o)[j],
            ) by {
                assert(post.list(o)[j] == pre.list(o)[j]);
                assert(pre.block_ok(o, pre.list(o)[j]));
            }
            assert forall|o1: int, j1: int, o2: int, j2: int|
                0 <= o1 < post.order_count() && 0 <= j1 < post.list(o1).len() && 0 <= o2
                    < post.order_count() && 0 <= j2 < post.list(o2).len() && (o1 != o2 || j1 != j2)
                implies post.pair_ok(
                o1,
                #[trigger] post.list(o1)[j1],
                o2,
                #[trigger] post.list(o2)[j2],
            ) by {
                assert(post.list(o1)[j1] == pre.list(o1)[j1]);
                assert(post.list(o2)[j2] == pre.list(o2)[j2]);
                assert(pre.pair_ok(o1, pre.list(o1)[j1], o2, pre.list(o2)[j2]));
            }
        }
        assert forall|a: int, l: int|
            #[trigger] pre.range_free_disjoint(a, l) implies post.range_free_disjoint(a, l) by {
            assert forall|o: int, j: int|
                0 <= o < post.order_count() && 0 <= j < post.list(o).len() implies (a + l
                <= #[trigger] post.list(o)[j] || post.list(o)[j] + post.size_of(o) <= a) by {
                assert(post.list(o)[j] == pre.list(o)[j]);
            }
        }
    }

    /// Removing one entry from one free list keeps the lists well formed,
    /// and every remaining block is one of the old blocks, at a slot other
    /// than the removed one.
    proof fn lemma_wf_lists_after_remove(pre: Self, post: Self, o: int, j: int)
        requires
            pre.wf_lists(),
            0 <= o < pre.order_count(),
            0 <= j < pre.list(o).len(),
            post.base_order == pre.base_order,
            post.base_size == pre.base_size,
            post.order_count() == pre.order_count(),
            forall|i: int| 0 <= i < pre.order_count() && i != o ==> post.list(i) == pre.list(i),
            post.list(o) == pre.list(o).remove(j),
        ensures
            post.wf_lists(),
            forall|i: int, k: int|
                0 <= i < post.order_count() && 0 <= k < post.list(i).len() ==> {
                    let k2 = remove_map(o, j, i, k);
                    0 <= k2 < pre.list(i).len() && (i != o || k2 != j) && pre.list(i)[k2]
                        == #[trigger] post.list(i)[k]
                },
    {
        pre.list(o).remove_ensures(j);
        let map_k = |i: int, k: int| remove_map(o, j, i, k);
        assert forall|i: int, k: int|
            0 <= i < post.order_count() && 0 <= k < post.list(i).len() implies {
            let k2 = remove_map(o, j, i, k);
            0 <= k2 < pre.list(i).len() && (i != o || k2 != j) && pre.list(i)[k2]
                == #[trigger] post.list(i)[k]
        } by {
            let k2 = map_k(i, k);
            assert(0 <= k2 < pre.list(i).len() && (i != o || k2 != j) && pre.list(i)[k2]
                == post.list(i)[k]);
        }
        assert forall|i: int, k: int|
            0 <= i < post.order_count() && 0 <= k < post.list(i).len() implies post.block_ok(
            i,
            #[trigger] post.list(i)[k],
        ) by {
            let k2 = map_k(i, k);
            assert(post.list(i)[k] == pre.list(i)[k2]);
            assert(pre.block_ok(i, pre.list(i)[k2]));
        }
        assert forall|o1: int, j1: int, o2: int, j2: int|
            0 <= o1 < post.order_count() && 0 <= j1 < post.list(o1).len() && 0 <= o2
                < post.order_count() && 0 <= j2 < post.list(o2).len() && (o1 != o2 || j1 != j2)
            implies post.pair_ok(
            o1,
            #[trigger] post.list(o1)[j1],
            o2,
            #[trigger] post.list(o2)[j2],
        ) by {
            let k1 = map_k(o1, j1);
            let k2 = map_k(o2, j2);
            assert(post.list(o1)[j1] == pre.list(o1)[k1]);
            assert(post.list(o2)[j2] == pre.list(o2)[k2]);
            assert(o1 != o2 || k1 != k2);
            assert(pre.pair_ok(o1, pre.list(o1)[k1], o2, pre.list(o2)[k2]));
        }
    }
}

impl BuddyAllocator {
    /// Inserts the block `[addr, addr + size_of(order))` into its free
    /// list, then repeatedly merges it with its buddy while the buddy is
    /// also free, propagating the merge upward to the largest order.
    #[verifier::rlimit(50)]
    fn insert_block(&mut self, addr: usize, order: usize)
        requires
            old(self).wf_lists(),
            (order as int) < old(self).order_count(),
            old(self).block_ok(order as int, addr),
            old(self).range_free_disjoint(addr as int, old(self).size_of(order as int) as int),
        ensures
            final (self).wf_lists(),
            final (self).base_order == old(self).base_order,
            final (self).base_size == old(self).base_size,
            final (self).order_count() == old(self).order_count(),
            final (self).allocated@ == old(self).allocated@,
            final (self).transferred@ == old(self).transferred@,
            final (self).free_bytes() == old(self).free_bytes() + old(self).size_of(
                order as int,
            ),
            final (self).list(old(self).order_count() - 1).len() >= old(self).list(
                old(self).order_count() - 1,
            ).len(),
            forall|x: int, l: int|
                #![trigger old(self).range_free_disjoint(x, l)]
                0 < l && old(self).range_free_disjoint(x, l) && (x + l <= addr as int || addr as int + old(
                    self,
                ).size_of(order as int) <= x) ==> final (self).range_free_disjoint(x, l),
            order as int == old(self).order_count() - 1 ==> final (self).list(order as int).len()
                == old(self).list(order as int).len() + 1,
            exists|o2: int|
                order as int <= o2 < old(self).order_count() && #[trigger] final (self).list(
                    o2,
                ).len() > 0,
    {
        broadcast use lemma_pow2_pos;

        let ghost orig = *self;
        let mut a = addr;
        let mut o = order;
        let count = self.free_lists.len();
        loop
            invariant
                self.wf_lists(),
                self.base_order == orig.base_order,
                self.base_size == orig.base_size,
                self.order_count() == count as int,
                count as int == orig.order_count(),
                self.allocated@ == orig.allocated@,
                self.transferred@ == orig.transferred@,
                order <= o,
                (o as int) < count as int,
                self.block_ok(o as int, a),
                self.range_free_disjoint(a as int, self.size_of(o as int) as int),
                self.free_bytes() + self.size_of(o as int) == orig.free_bytes() + orig.size_of(
                    order as int,
                ),
                self.list(count as int - 1).len() >= orig.list(count as int - 1).len(),
                forall|x: int, l: int|
                    #![trigger orig.range_free_disjoint(x, l)]
                    0 < l && orig.range_free_disjoint(x, l) && (x + l <= addr as int || addr as int
                        + orig.size_of(order as int) <= x) ==> self.range_free_disjoint(x, l) && (
                    x + l <= a as int || a as int + self.size_of(o as int) <= x),
                order as int == count as int - 1 ==> (o == order && self.free_lists@
                    == orig.free_lists@),
            ensures
                self.wf_lists(),
                self.base_order == orig.base_order,
                self.base_size == orig.base_size,
                self.order_count() == count as int,
                self.allocated@ == orig.allocated@,
                self.transferred@ == orig.transferred@,
                order <= o,
                (o as int) < count as int,
                self.block_ok(o as int, a),
                self.range_free_disjoint(a as int, self.size_of(o as int) as int),
                self.free_bytes() + self.size_of(o as int) == orig.free_bytes() + orig.size_of(
                    order as int,
                ),
                self.list(count as int - 1).len() >= orig.list(count as int - 1).len(),
                forall|x: int, l: int|
                    #![trigger orig.range_free_disjoint(x, l)]
                    0 < l && orig.range_free_disjoint(x, l) && (x + l <= addr as int || addr as int
                        + orig.size_of(order as int) <= x) ==> self.range_free_disjoint(x, l) && (
                    x + l <= a as int || a as int + self.size_of(o as int) <= x),
                order as int == count as int - 1 ==> (o == order && self.free_lists@
                    == orig.free_lists@),
                o as int + 1 == count as int || (forall|k: int|
                    0 <= k < self.list(o as int).len() ==> #[trigger] self.list(o as int)[k] as int
                        != self.buddy_of(o as int, a)),
            decreases count as int - o as int,
        {
            if o + 1 >= count {
                break ;
            }
            let s = self.block_size(o);
            let bn = a / s;
            proof {
                lemma_fundamental_div_mod(a as int, s as int);
                assert(a as int == s as int * bn as int);
            }
            let buddy: usize;
            if bn % 2 == 0 {
                buddy = a + s;
            } else {
                proof {
                    assert(a as int >= s as int) by (nonlinear_arith)
                        requires
                            a as int == s as int * bn as int,
                            bn as int >= 1,
                            s as int > 0,
                    ;
                }
                buddy = a - s;
            }
            let j_opt = find_in_list(&self.free_lists[o], buddy);
            match j_opt {
                None => {
                    proof {
                        assert(buddy as int == self.buddy_of(o as int, a));
                    }
                    break ;
                },
                Some(j) => {
                    let ghost pre = *self;
                    let _removed = self.free_lists[o].remove(j);
                    let merged = if bn % 2 == 0 {
                        a
                    } else {
                        buddy
                    };
                    proof {
                        let oi = o as int;
                        let ji = j as int;
                        let si = s as int;
                        assert(self.list(oi) == pre.list(oi).remove(ji));
                        assert(forall|i: int|
                            0 <= i < count as int && i != oi ==> self.list(i) == pre.list(i));
                        Self::lemma_wf_lists_after_remove(pre, *self, oi, ji);
                        Self::lemma_free_bytes_update_list(pre, *self, oi, count as int);
                        pre.list(oi).remove_ensures(ji);
                        assert(self.free_bytes() + pre.size_of(oi) == pre.free_bytes())
                            by (nonlinear_arith)
                            requires
                                self.free_bytes() + pre.list(oi).len() * pre.size_of(oi)
                                    == pre.free_bytes() + self.list(oi).len() * pre.size_of(oi),
                                self.list(oi).len() + 1 == pre.list(oi).len(),
                        ;
                        pre.lemma_size_of_double(oi);
                        assert(pre.block_ok(oi, pre.list(oi)[ji]));
                        assert(pre.list(oi)[ji] == buddy);
                        // alignment and bounds of the merged block
                        lemma_fundamental_div_mod(bn as int, 2);
                        let h = bn as int / 2;
                        assert(0 < 2 * si);
                        if bn % 2 == 0 {
                            assert(a as int == h * (2 * si) + 0) by (nonlinear_arith)
                                requires
                                    a as int == si * (bn as int),
                                    bn as int == 2 * h,
                            ;
                            lemma_fundamental_div_mod_converse(a as int, 2 * si, h, 0);
                        } else {
                            assert(merged as int == h * (2 * si) + 0) by (nonlinear_arith)
                                requires
                                    merged as int == a as int - si,
                                    a as int == si * (bn as int),
                                    bn as int == 2 * h + 1,
                            ;
                            lemma_fundamental_div_mod_converse(merged as int, 2 * si, h, 0);
                        }
                        assert(merged as int % (2 * si) == 0);
                        assert(self.size_of(oi + 1) == 2 * si);
                        assert(self.block_ok(oi + 1, merged));
                        // the merged range is the union of the two halves,
                        // so it stays disjoint from every remaining block
                        assert forall|i: int, k: int|
                            0 <= i < count as int && 0 <= k < self.list(i).len() implies (merged
                            + self.size_of(oi + 1) <= #[trigger] self.list(i)[k] || self.list(
                            i,
                        )[k] + self.size_of(i) <= merged) by {
                            let k2 = remove_map(oi, ji, i, k);
                            let x = pre.list(i)[k2];
                            assert(self.list(i)[k] == x);
                            assert(pre.pair_ok(oi, pre.list(oi)[ji], i, pre.list(i)[k2]));
                            assert(buddy as int + si <= x || x + pre.size_of(i) <= buddy as int);
                            assert(a as int + si <= x || x + pre.size_of(i) <= a as int);
                            lemma_pow2_pos((pre.base_order + i) as nat);
                            assert(pre.size_of(i) > 0);
                            assert(self.size_of(i) == pre.size_of(i));
                            if bn % 2 == 0 {
                                assert(merged == a && buddy as int == a as int + si);
                            } else {
                                assert(merged as int == a as int - si && merged == buddy);
                            }
                        }
                        if bn % 2 == 0 {
                            assert(merged == a && buddy as int == a as int + si);
                        } else {
                            assert(merged as int == a as int - si && merged == buddy);
                        }
                        assert forall|x: int, l: int|
                            #![trigger orig.range_free_disjoint(x, l)]
                            0 < l && orig.range_free_disjoint(x, l) && (x + l <= addr as int || addr
                                as int + orig.size_of(order as int) <= x) implies
                            self.range_free_disjoint(x, l) && (x + l <= merged as int || merged
                            as int + self.size_of(oi + 1) <= x) by {
                            assert(pre.range_free_disjoint(x, l));
                            assert(x + l <= a as int || a as int + si <= x);
                            assert forall|i: int, k: int|
                                0 <= i < count as int && 0 <= k < self.list(i).len() implies (x
                                + l <= #[trigger] self.list(i)[k] || self.list(i)[k]
                                + self.size_of(i) <= x) by {
                                let k2 = remove_map(oi, ji, i, k);
                                assert(self.list(i)[k] == pre.list(i)[k2]);
                                assert(x + l <= pre.list(i)[k2] || pre.list(i)[k2] + pre.size_of(
                                    i,
                                ) <= x);
                            }
                            assert(self.range_free_disjoint(x, l));
                            assert(x + l <= pre.list(oi)[ji] || pre.list(oi)[ji] + pre.size_of(
                                oi,
                            ) <= x);
                        }
                    }
                    a = merged;
                    o = o + 1;
                },
            }
        }
        // push the block; no free buddy remains, so the lists stay
        // well formed
        let ghost pre2 = *self;
        self.free_lists[o].push(a);
        proof {
            let oi = o as int;
            let si = pre2.size_of(oi) as int;
            assert(self.list(oi) == pre2.list(oi).push(a));
            assert(forall|i: int| 0 <= i < count as int && i != oi ==> self.list(i) == pre2.list(i));
            let newlen = pre2.list(oi).len() as int;
            assert forall|i: int, k: int|
                0 <= i < count as int && 0 <= k < self.list(i).len() implies self.block_ok(
                i,
                #[trigger] self.list(i)[k],
            ) by {
                if i == oi && k == newlen {
                    assert(self.list(i)[k] == a);
                } else {
                    assert(self.list(i)[k] == pre2.list(i)[k]);
                    assert(pre2.block_ok(i, pre2.list(i)[k]));
                }
            }
            assert forall|o1: int, j1: int, o2: int, j2: int|
                0 <= o1 < count as int && 0 <= j1 < self.list(o1).len() && 0 <= o2 < count as int
                    && 0 <= j2 < self.list(o2).len() && (o1 != o2 || j1 != j2)
                implies self.pair_ok(
                o1,
                #[trigger] self.list(o1)[j1],
                o2,
                #[trigger] self.list(o2)[j2],
            ) by {
                let new1 = o1 == oi && j1 == newlen;
                let new2 = o2 == oi && j2 == newlen;
                if new1 && new2 {
                    assert(false);
                } else if !new1 && !new2 {
                    assert(self.list(o1)[j1] == pre2.list(o1)[j1]);
                    assert(self.list(o2)[j2] == pre2.list(o2)[j2]);
                    assert(pre2.pair_ok(o1, pre2.list(o1)[j1], o2, pre2.list(o2)[j2]));
                } else {
                    let (oo, jj) = if new1 {
                        (o2, j2)
                    } else {
                        (o1, j1)
                    };
                    let x = pre2.list(oo)[jj];
                    assert(self.list(oo)[jj] == x);
                    assert(a as int + si <= x || x + pre2.size_of(oo) <= a as int);
                    assert(pre2.block_ok(oo, pre2.list(oo)[jj]));
                    if oo == oi && oi + 1 < count as int && a as int / (2 * si) == x as int / (2
                        * si) {
                        lemma_same_parent_is_buddy(a as int, x as int, si);
                        assert(x as int == pre2.buddy_of(oi, a));
                        assert(pre2.list(oi)[jj] as int != pre2.buddy_of(oi, a));
                        assert(false);
                    }
                }
            }
            Self::lemma_free_bytes_update_list(pre2, *self, oi, count as int);
            assert(self.free_bytes() == pre2.free_bytes() + pre2.size_of(oi)) by (nonlinear_arith)
                requires
                    self.free_bytes() + pre2.list(oi).len() * pre2.size_of(oi) == pre2.free_bytes()
                        + self.list(oi).len() * pre2.size_of(oi),
                    self.list(oi).len() == pre2.list(oi).len() + 1,
            ;
            assert(self.list(oi).len() > 0);
            assert(order as int <= oi < count as int && self.list(oi).len() > 0);
            assert forall|x: int, l: int|
                #![trigger orig.range_free_disjoint(x, l)]
                0 < l && orig.range_free_disjoint(x, l) && (x + l <= addr as int || addr as int
                    + orig.size_of(order as int) <= x) implies self.range_free_disjoint(x, l) by {
                assert(pre2.range_free_disjoint(x, l));
                assert(x + l <= a as int || a as int + pre2.size_of(oi) <= x);
                assert forall|i: int, k: int|
                    0 <= i < count as int && 0 <= k < self.list(i).len() implies (x + l
                    <= #[trigger] self.list(i)[k] || self.list(i)[k] + self.size_of(i) <= x) by {
                    if i == oi && k == newlen {
                        assert(self.list(i)[k] == a);
                    } else {
                        assert(self.list(i)[k] == pre2.list(i)[k]);
                        assert(x + l <= pre2.list(i)[k] || pre2.list(i)[k] + pre2.size_of(i)
                            <= x);
                    }
                }
            }
        }
    }
}

impl BuddyAllocator {
    /// Returns the block `[addr, addr + size)` to its size-class free list,
    /// then repeatedly merges it with its buddy while the buddy is also
    /// free, propagating the merge upward until no further merge is
    /// possible or the largest order is reached.
    pub fn deallocate(&mut self, addr: usize, size: usize)
        requires
            old(self).wf(),
            exists|o: int| 0 <= o < old(self).order_count() && size == old(self).size_of(o),
            addr as int % size as int == 0,
            addr + size <= usize::MAX,
            old(self).range_free_disjoint(addr as int, size as int),
            old(self).allocated@ >= size,
        ensures
            final (self).wf(),
            final (self).base_order == old(self).base_order,
            final (self).base_size == old(self).base_size,
            final (self).order_count() == old(self).order_count(),
            final (self).free_bytes() == old(self).free_bytes() + size,
            final (self).allocated@ == old(self).allocated@ - size,
            final (self).transferred@ == old(self).transferred@,
            forall|x: int, l: int|
                #![trigger old(self).range_free_disjoint(x, l)]
                0 < l && old(self).range_free_disjoint(x, l) && (x + l <= addr as int || addr
                    as int + size <= x) ==> final (self).range_free_disjoint(x, l),
            exists|o2: int|
                0 <= o2 < old(self).order_count() && size <= final (self).size_of(o2)
                    && #[trigger] final (self).list(o2).len() > 0,
    {
        let ghost ow = choose|o: int|
            0 <= o < old(self).order_count() && size == old(self).size_of(o);
        let ghost orig = *self;
        let mut o: usize = 0;
        loop
            invariant
                *self == orig,
                orig.wf(),
                0 <= ow < orig.order_count(),
                size == orig.size_of(ow),
                0 <= o as int <= ow,
            ensures
                *self == orig,
                (o as int) < self.order_count(),
                size == self.size_of(o as int),
            decreases ow - o as int,
        {
            if self.block_size(o) == size {
                break ;
            }
            proof {
                assert(o as int != ow);
            }
            o = o + 1;
        }
        let ghost mid = *self;
        self.allocated = Ghost((self.allocated@ - size as nat) as nat);
        proof {
            Self::lemma_same_lists_frame(mid, *self);
        }
        self.insert_block(addr, o);
        proof {
            let o2 = choose|o2: int|
                o as int <= o2 < self.order_count() && #[trigger] self.list(o2).len() > 0;
            lemma_pow2_le((self.base_order + o) as nat, (self.base_order + o2) as nat);
        }
    }

    /// Decomposes the region `[addr, addr + len)` greedily into maximal
    /// naturally aligned power-of-two blocks and inserts each into the
    /// matching free list, merging with adjacent free buddies.
    #[verifier::rlimit(50)]
    pub fn transfer(&mut self, addr: usize, len: usize)
        requires
            old(self).wf(),
            addr as int % old(self).base_size as int == 0,
            len as int % old(self).base_size as int == 0,
            addr + len <= usize::MAX,
            len > 0 ==> old(self).range_free_disjoint(addr as int, len as int),
        ensures
            final (self).wf(),
            final (self).base_order == old(self).base_order,
            final (self).base_size == old(self).base_size,
            final (self).order_count() == old(self).order_count(),
            final (self).free_bytes() == old(self).free_bytes() + len,
            final (self).allocated@ == old(self).allocated@,
            final (self).transferred@ == old(self).transferred@ + len,
            (addr as int % old(self).size_of(old(self).order_count() - 1) as int == 0 && len
                >= old(self).size_of(old(self).order_count() - 1)) ==> final (self).list(
                old(self).order_count() - 1,
            ).len() >= 1,
            forall|x: int, l: int|
                #![trigger old(self).range_free_disjoint(x, l)]
                0 < l && old(self).range_free_disjoint(x, l) && (x + l <= addr as int || addr
                    as int + len <= x) ==> final (self).range_free_disjoint(x, l),
    {
        broadcast use lemma_pow2_pos;

        let ghost orig = *self;
        let count = self.free_lists.len();
        let ghost top = count as int - 1;
        let ghost tsize = orig.size_of(top);
        let mut cur = addr;
        let mut rem = len;
        loop
            invariant
                self.wf_lists(),
                self.base_order == orig.base_order,
                self.base_size == orig.base_size,
                self.order_count() == count as int,
                count as int == orig.order_count(),
                self.allocated@ == orig.allocated@,
                self.transferred@ == orig.transferred@,
                top == count as int - 1,
                tsize == orig.size_of(top),
                cur as int == addr as int + len - rem,
                rem <= len,
                addr + len <= usize::MAX,
                cur as int % self.base_size as int == 0,
                rem as int % self.base_size as int == 0,
                rem > 0 ==> self.range_free_disjoint(cur as int, rem as int),
                self.free_bytes() == orig.free_bytes() + len - rem,
                (addr as int % tsize as int == 0 && len >= tsize) ==> (self.list(top).len() >= 1
                    || (cur == addr && rem == len)),
                forall|x: int, l: int|
                    #![trigger orig.range_free_disjoint(x, l)]
                    0 < l && orig.range_free_disjoint(x, l) && (x + l <= addr as int || addr
                        as int + len <= x) ==> self.range_free_disjoint(x, l),
            ensures
                rem == 0,
                self.wf_lists(),
                self.base_order == orig.base_order,
                self.base_size == orig.base_size,
                self.order_count() == count as int,
                self.allocated@ == orig.allocated@,
                self.transferred@ == orig.transferred@,
                self.free_bytes() == orig.free_bytes() + len,
                (addr as int % tsize as int == 0 && len >= tsize) ==> (self.list(top).len() >= 1
                    || (cur == addr && rem == len)),
                forall|x: int, l: int|
                    #![trigger orig.range_free_disjoint(x, l)]
                    0 < l && orig.range_free_disjoint(x, l) && (x + l <= addr as int || addr
                        as int + len <= x) ==> self.range_free_disjoint(x, l),
            decreases rem,
        {
            if rem == 0 {
                break ;
            }
            proof {
                if rem < self.base_size {
                    vstd::arithmetic::div_mod::lemma_small_mod(rem as nat, self.base_size as nat);
                    assert(false);
                }
            }
            // find the largest size class that fits the remaining region
            // and keeps natural alignment
            let mut o: usize = 0;
            let mut s = self.block_size(0);
            loop
                invariant
                    self.wf_lists(),
                    self.order_count() == count as int,
                    (o as int) < count as int,
                    s == self.size_of(o as int),
                    s <= rem,
                    cur as int % s as int == 0,
                ensures
                    self.wf_lists(),
                    self.order_count() == count as int,
                    (o as int) < count as int,
                    s == self.size_of(o as int),
                    s <= rem,
                    cur as int % s as int == 0,
                    o as int == count as int - 1 || self.size_of(o as int + 1) > rem || cur as int
                        % self.size_of(o as int + 1) as int != 0,
                decreases count as int - o as int,
            {
                if o + 1 >= count {
                    break ;
                }
                let s2 = self.block_size(o + 1);
                if s2 > rem {
                    break ;
                }
                if cur % s2 != 0 {
                    break ;
                }
                o = o + 1;
                s = s2;
            }
            let ghost pre = *self;
            proof {
                assert(self.block_ok(o as int, cur));
                if rem > 0 {
                    assert forall|i: int, k: int|
                        0 <= i < count as int && 0 <= k < self.list(i).len() implies (cur as int
                        + s as int <= #[trigger] self.list(i)[k] || self.list(i)[k]
                        + self.size_of(i) <= cur as int) by {
                        assert(cur as int + rem as int <= self.list(i)[k] || self.list(i)[k]
                            + self.size_of(i) <= cur as int);
                    }
                    assert(self.range_free_disjoint(cur as int, s as int));
                    if rem as int - s as int > 0 {
                        assert forall|i: int, k: int|
                            0 <= i < count as int && 0 <= k < self.list(i).len() implies (cur
                            as int + s as int + (rem as int - s as int)
                            <= #[trigger] self.list(i)[k] || self.list(i)[k] + self.size_of(i)
                            <= cur as int + s as int) by {
                            assert(cur as int + rem as int <= self.list(i)[k] || self.list(i)[k]
                                + self.size_of(i) <= cur as int);
                        }
                        assert(self.range_free_disjoint(cur as int + s as int, rem as int - s
                            as int));
                    }
                }
            }
            self.insert_block(cur, o);
            proof {
                // alignment of the advanced cursor and shrunk remainder
                lemma_pow2_pos((self.base_order + o) as nat);
                vstd::arithmetic::div_mod::lemma_mod_self_0(s as int);
                lemma_pow2_mod_divides(
                    s as int,
                    self.base_order as nat,
                    (self.base_order + o) as nat,
                );
                lemma_mod_sum_zero(cur as int, s as int, self.base_size as int);
                lemma_mod_diff_zero(rem as int, s as int, self.base_size as int);
                // a region aligned to the largest class and long enough
                // yields a largest-class block at once
                if addr as int % tsize as int == 0 && len >= tsize {
                    if cur == addr && rem == len {
                        if (o as int) < top {
                            assert(self.size_of(o as int + 1) <= tsize) by {
                                lemma_pow2_le(
                                    (self.base_order + o + 1) as nat,
                                    (self.base_order + count - 1) as nat,
                                );
                            }
                            lemma_pow2_mod_divides(
                                addr as int,
                                (self.base_order + o + 1) as nat,
                                (self.base_order + count - 1) as nat,
                            );
                            assert(false);
                        }
                        assert(self.list(top).len() >= pre.list(top).len() + 1);
                    } else {
                        assert(pre.list(top).len() >= 1);
                        assert(self.list(top).len() >= 1);
                    }
                }
                // ranges clear of the whole region stay clear of the lists
                assert forall|x: int, l: int|
                    #![trigger orig.range_free_disjoint(x, l)]
                    0 < l && orig.range_free_disjoint(x, l) && (x + l <= addr as int || addr
                        as int + len <= x) implies self.range_free_disjoint(x, l) by {
                    assert(pre.range_free_disjoint(x, l));
                    assert(x + l <= cur as int || cur as int + s as int <= x);
                }
                // and so does the remaining region itself
                if rem as int - s as int > 0 {
                    assert(self.range_free_disjoint(cur as int + s as int, rem as int - s
                        as int));
                }
            }
            cur = cur + s;
            rem = rem - s;
        }
        let ghost mid = *self;
        self.transferred = Ghost(self.transferred@ + len as nat);
        proof {
            Self::lemma_same_lists_frame(mid, *self);
        }
    }
}

impl BuddyAllocator {
    /// The block size a request needs: the smallest multiple of the base
    /// block size at least as large as the requested size and alignment.
    pub open spec fn needed_size(self, align: usize, size: usize) -> nat {
        let m: int = if align as int > size as int {
            align as int
        } else {
            size as int
        };
        if m < self.base_size as int {
            self.base_size as nat
        } else {
            m as nat
        }
    }

    /// The first size class from `o` upward whose blocks hold at least
    /// `need` bytes; `order_count()` if there is none.
    pub open spec fn fit_from(self, need: nat, o: int) -> int
        decreases self.order_count() - o,
    {
        if o < 0 || o >= self.order_count() {
            self.order_count()
        } else if self.size_of(o) >= need {
            o
        } else {
            self.fit_from(need, o + 1)
        }
    }

    /// The size class an accepted request is served from.
    pub open spec fn fit_order(self, align: usize, size: usize) -> int {
        self.fit_from(self.needed_size(align, size), 0)
    }

    /// The first size class from `o` upward whose free list is not empty;
    /// `order_count()` if all those lists are empty.
    pub open spec fn avail_from(self, o: int) -> int
        decreases self.order_count() - o,
    {
        if o < 0 || o >= self.order_count() {
            self.order_count()
        } else if self.list(o).len() > 0 {
            o
        } else {
            self.avail_from(o + 1)
        }
    }

    /// A request can be served exactly when some size class can hold it
    /// and a free block of that class or a larger one exists.
    pub open spec fn can_serve(self, align: usize, size: usize) -> bool {
        &&& self.fit_order(align, size) < self.order_count()
        &&& self.avail_from(self.fit_order(align, size)) < self.order_count()
    }

    /// Returns the smallest available free block whose size and alignment
    /// satisfy the request, splitting a larger block when no exact match
    /// exists.  On success returns the block's address and its actual
    /// (possibly larger than requested) size; fails with `ExhaustedError`
    /// exactly when no size class can satisfy the request even after
    /// splitting the largest available block.
    #[verifier::rlimit(50)]
    pub fn allocate(&mut self, align: usize, size: usize) -> (r: Result<
        (usize, usize),
        ExhaustedError,
    >)
        requires
            old(self).wf(),
            1 <= align,
            exists|k: nat| align == pow2(k),
        ensures
            r.is_ok() == old(self).can_serve(align, size),
            final (self).base_order == old(self).base_order,
            final (self).base_size == old(self).base_size,
            final (self).order_count() == old(self).order_count(),
            final (self).transferred@ == old(self).transferred@,
            forall|x: int, l: int|
                #![trigger old(self).range_free_disjoint(x, l)]
                0 < l && old(self).range_free_disjoint(x, l) ==> final (self).range_free_disjoint(
                    x,
                    l,
                ),
            match r {
                Ok((a, s)) => {
                    &&& s == old(self).size_of(old(self).fit_order(align, size))
                    &&& s >= size
                    &&& s >= align
                    &&& a as int % align as int == 0
                    &&& a as int % s as int == 0
                    &&& a + s <= usize::MAX
                    &&& a == old(self).list(
                        old(self).avail_from(old(self).fit_order(align, size)),
                    ).last()
                    &&& s <= old(self).size_of(
                        old(self).avail_from(old(self).fit_order(align, size)),
                    )
                    &&& final (self).wf()
                    &&& final (self).free_bytes() + s == old(self).free_bytes()
                    &&& final (self).allocated@ == old(self).allocated@ + s
                    &&& final (self).range_free_disjoint(a as int, s as int)
                },
                Err(_) => *final (self) == *old(self),
            },
    {
        broadcast use lemma_pow2_pos;

        let ghost orig = *self;
        let count = self.free_lists.len();
        let m = if align > size {
            align
        } else {
            size
        };
        let need = if m < self.base_size {
            self.base_size
        } else {
            m
        };
        // the smallest size class that can hold the request
        let mut fo: usize = 0;
        loop
            invariant
                *self == orig,
                orig.wf(),
                need as nat == orig.needed_size(align, size),
                count as int == orig.order_count(),
                0 <= fo as int <= count as int,
                orig.fit_from(need as nat, 0) == orig.fit_from(need as nat, fo as int),
            ensures
                *self == orig,
                fo as int == orig.fit_from(need as nat, 0),
                (fo as int) < count as int ==> orig.size_of(fo as int) >= need,
            decreases count as int - fo as int,
        {
            if fo >= count {
                break ;
            }
            if self.block_size(fo) >= need {
                break ;
            }
            fo = fo + 1;
        }
        if fo >= count {
            return Err(ExhaustedError);
        }
        // the smallest such class with a free block
        let mut ao: usize = fo;
        loop
            invariant
                *self == orig,
                orig.wf(),
                count as int == orig.order_count(),
                fo <= ao,
                ao as int <= count as int,
                orig.avail_from(fo as int) == orig.avail_from(ao as int),
            ensures
                *self == orig,
                ao as int == orig.avail_from(fo as int),
                (ao as int) < count as int ==> orig.list(ao as int).len() > 0,
            decreases count as int - ao as int,
        {
            if ao >= count {
                break ;
            }
            if self.free_lists[ao].len() > 0 {
                break ;
            }
            ao = ao + 1;
        }
        if ao >= count {
            return Err(ExhaustedError);
        }
        // take the most recently freed block of that class
        let a_opt = self.free_lists[ao].pop();
        let a = a_opt.unwrap();
        proof {
            let aoi = ao as int;
            let lst = orig.list(aoi);
            assert(self.list(aoi) =~= lst.remove(lst.len() - 1));
            Self::lemma_wf_lists_after_remove(orig, *self, aoi, lst.len() - 1);
            Self::lemma_free_bytes_update_list(orig, *self, aoi, count as int);
            assert(self.free_bytes() + orig.size_of(aoi) == orig.free_bytes())
                by (nonlinear_arith)
                requires
                    self.free_bytes() + orig.list(aoi).len() * orig.size_of(aoi)
                        == orig.free_bytes() + self.list(aoi).len() * orig.size_of(aoi),
                    self.list(aoi).len() + 1 == orig.list(aoi).len(),
            ;
            assert(orig.block_ok(aoi, orig.list(aoi)[lst.len() - 1]));
            assert(a == orig.list(aoi)[lst.len() - 1]);
            // the block in hand no longer overlaps any free block
            assert forall|i: int, k: int|
                0 <= i < count as int && 0 <= k < self.list(i).len() implies (a as int
                + self.size_of(aoi) <= #[trigger] self.list(i)[k] || self.list(i)[k]
                + self.size_of(i) <= a as int) by {
                let k2 = remove_map(aoi, lst.len() - 1, i, k);
                assert(self.list(i)[k] == orig.list(i)[k2]);
                assert(orig.pair_ok(aoi, orig.list(aoi)[lst.len() - 1], i, orig.list(i)[k2]));
            }
            assert(self.range_free_disjoint(a as int, self.size_of(aoi) as int));
            // ranges clear of the old lists stay clear, and they avoid
            // the block just taken in hand
            assert forall|x: int, l: int|
                #![trigger orig.range_free_disjoint(x, l)]
                0 < l && orig.range_free_disjoint(x, l) implies self.range_free_disjoint(x, l)
                && (x + l <= a as int || a as int + self.size_of(aoi) <= x) by {
                assert forall|i: int, k: int|
                    0 <= i < count as int && 0 <= k < self.list(i).len() implies (x + l
                    <= #[trigger] self.list(i)[k] || self.list(i)[k] + self.size_of(i) <= x) by {
                    let k2 = remove_map(aoi, lst.len() - 1, i, k);
                    assert(self.list(i)[k] == orig.list(i)[k2]);
                    assert(x + l <= orig.list(i)[k2] || orig.list(i)[k2] + orig.size_of(i) <= x);
                }
                assert(self.range_free_disjoint(x, l));
                assert(x + l <= orig.list(aoi)[lst.len() - 1] || orig.list(aoi)[lst.len() - 1]
                    + orig.size_of(aoi) <= x);
            }
        }
        // split the block down to the required class, freeing the upper
        // half at each step
        let mut co = ao;
        let mut s = self.block_size(ao);
        loop
            invariant
                self.wf_lists(),
                self.base_order == orig.base_order,
                self.base_size == orig.base_size,
                self.order_count() == count as int,
                self.allocated@ == orig.allocated@,
                self.transferred@ == orig.transferred@,
                fo <= co,
                co <= ao,
                (ao as int) < count as int,
                s == self.size_of(co as int),
                self.block_ok(co as int, a),
                self.range_free_disjoint(a as int, s as int),
                self.free_bytes() + self.size_of(co as int) == orig.free_bytes(),
                forall|x: int, l: int|
                    #![trigger orig.range_free_disjoint(x, l)]
                    0 < l && orig.range_free_disjoint(x, l) ==> self.range_free_disjoint(x, l)
                        && (x + l <= a as int || a as int + self.size_of(co as int) <= x),
            ensures
                self.wf_lists(),
                self.base_order == orig.base_order,
                self.base_size == orig.base_size,
                self.order_count() == count as int,
                self.allocated@ == orig.allocated@,
                self.transferred@ == orig.transferred@,
                co == fo,
                s == self.size_of(co as int),
                self.block_ok(co as int, a),
                self.range_free_disjoint(a as int, s as int),
                self.free_bytes() + self.size_of(co as int) == orig.free_bytes(),
                forall|x: int, l: int|
                    #![trigger orig.range_free_disjoint(x, l)]
                    0 < l && orig.range_free_disjoint(x, l) ==> self.range_free_disjoint(x, l)
                        && (x + l <= a as int || a as int + self.size_of(co as int) <= x),
            decreases co,
        {
            if co <= fo {
                break ;
            }
            let half = self.block_size(co - 1);
            proof {
                self.lemma_size_of_double(co as int - 1);
                lemma_split_align(a as int, half as int);
            }
            let upper = a + half;
            let ghost pre = *self;
            self.free_lists[co - 1].push(upper);
            proof {
                let oi = co as int - 1;
                let hi = half as int;
                assert(self.list(oi) == pre.list(oi).push(upper));
                assert(forall|i: int|
                    0 <= i < count as int && i != oi ==> self.list(i) == pre.list(i));
                let newlen = pre.list(oi).len() as int;
                assert(upper as int % hi == 0 && upper + half <= usize::MAX);
                assert(self.block_ok(oi, upper));
                assert forall|i: int, k: int|
                    0 <= i < count as int && 0 <= k < self.list(i).len() implies self.block_ok(
                    i,
                    #[trigger] self.list(i)[k],
                ) by {
                    if i == oi && k == newlen {
                        assert(self.list(i)[k] == upper);
                    } else {
                        assert(self.list(i)[k] == pre.list(i)[k]);
                        assert(pre.block_ok(i, pre.list(i)[k]));
                    }
                }
                assert forall|o1: int, j1: int, o2: int, j2: int|
                    0 <= o1 < count as int && 0 <= j1 < self.list(o1).len() && 0 <= o2 < count
                        as int && 0 <= j2 < self.list(o2).len() && (o1 != o2 || j1 != j2)
                    implies self.pair_ok(
                    o1,
                    #[trigger] self.list(o1)[j1],
                    o2,
                    #[trigger] self.list(o2)[j2],
                ) by {
                    let new1 = o1 == oi && j1 == newlen;
                    let new2 = o2 == oi && j2 == newlen;
                    if new1 && new2 {
                        assert(false);
                    } else if !new1 && !new2 {
                        assert(self.list(o1)[j1] == pre.list(o1)[j1]);
                        assert(self.list(o2)[j2] == pre.list(o2)[j2]);
                        assert(pre.pair_ok(o1, pre.list(o1)[j1], o2, pre.list(o2)[j2]));
                    } else {
                        let (oo, jj) = if new1 {
                            (o2, j2)
                        } else {
                            (o1, j1)
                        };
                        let x = pre.list(oo)[jj];
                        assert(self.list(oo)[jj] == x);
                        assert(a as int + 2 * hi <= x || x + pre.size_of(oo) <= a as int);
                        assert(pre.block_ok(oo, pre.list(oo)[jj]));
                        lemma_pow2_pos((pre.base_order + oo) as nat);
                        if oo == oi && oi + 1 < count as int && upper as int / (2 * hi) == x
                            as int / (2 * hi) {
                            lemma_same_parent_is_buddy(upper as int, x as int, hi);
                            assert(x as int == a as int);
                            assert(false);
                        }
                    }
                }
                Self::lemma_free_bytes_update_list(pre, *self, oi, count as int);
                assert(self.free_bytes() == pre.free_bytes() + pre.size_of(oi))
                    by (nonlinear_arith)
                    requires
                        self.free_bytes() + pre.list(oi).len() * pre.size_of(oi)
                            == pre.free_bytes() + self.list(oi).len() * pre.size_of(oi),
                        self.list(oi).len() == pre.list(oi).len() + 1,
                ;
                // the lower half stays in hand, disjoint from every free
                // block including the upper half just freed
                assert forall|i: int, k: int|
                    0 <= i < count as int && 0 <= k < self.list(i).len() implies (a as int + hi
                    <= #[trigger] self.list(i)[k] || self.list(i)[k] + self.size_of(i) <= a
                    as int) by {
                    if i == oi && k == newlen {
                        assert(self.list(i)[k] == upper);
                    } else {
                        assert(self.list(i)[k] == pre.list(i)[k]);
                        assert(a as int + 2 * hi <= pre.list(i)[k] || pre.list(i)[k]
                            + pre.size_of(i) <= a as int);
                    }
                }
                assert(self.range_free_disjoint(a as int, hi));
                assert(self.block_ok(oi, a));
                assert forall|x: int, l: int|
                    #![trigger orig.range_free_disjoint(x, l)]
                    0 < l && orig.range_free_disjoint(x, l) implies self.range_free_disjoint(
                    x,
                    l,
                ) && (x + l <= a as int || a as int + hi <= x) by {
                    assert(pre.range_free_disjoint(x, l));
                    assert(x + l <= a as int || a as int + 2 * hi <= x);
                    assert forall|i: int, k: int|
                        0 <= i < count as int && 0 <= k < self.list(i).len() implies (x + l
                        <= #[trigger] self.list(i)[k] || self.list(i)[k] + self.size_of(i)
                        <= x) by {
                        if i == oi && k == newlen {
                            assert(self.list(i)[k] == upper);
                        } else {
                            assert(self.list(i)[k] == pre.list(i)[k]);
                            assert(x + l <= pre.list(i)[k] || pre.list(i)[k] + pre.size_of(i)
                                <= x);
                        }
                    }
                    assert(self.range_free_disjoint(x, l));
                }
            }
            s = half;
            co = co - 1;
        }
        let ghost mid = *self;
        self.allocated = Ghost(self.allocated@ + s as nat);
        proof {
            Self::lemma_same_lists_frame(mid, *self);
            // the block is aligned to its size, hence to the requested
            // alignment, which divides it
            let k = choose|k: nat| align == pow2(k);
            if k > (orig.base_order + fo) as nat {
                lemma_pow2_strictly_increases((orig.base_order + fo) as nat, k);
                assert(false);
            }
            lemma_pow2_mod_divides(a as int, k, (orig.base_order + fo) as nat);
            lemma_pow2_le((orig.base_order + fo) as nat, (orig.base_order + ao) as nat);
        }
        Ok((a, s))
    }
}


impl BuddyAllocator {
    /// `fit_from` depends only on the base order and the class count.
    proof fn lemma_fit_from_frame(pre: Self, post: Self, need: nat, o: int)
        requires
            post.base_order == pre.base_order,
            post.order_count() == pre.order_count(),
        ensures
            post.fit_from(need, o) == pre.fit_from(need, o),
        decreases pre.order_count() - o,
    {
        if 0 <= o < pre.order_count() && pre.size_of(o) < need {
            Self::lemma_fit_from_frame(pre, post, need, o + 1);
        }
    }

    /// `fit_from` never passes a class that already fits.
    pub proof fn lemma_fit_from_le(self, need: nat, o: int, w: int)
        requires
            0 <= o <= w < self.order_count(),
            self.size_of(w) >= need,
        ensures
            self.fit_from(need, o) <= w,
        decreases w - o,
    {
        if o < w && self.size_of(o) < need {
            self.lemma_fit_from_le(need, o + 1, w);
        }
    }

    /// `fit_from` never returns a class below its starting point.
    proof fn lemma_fit_from_range(self, need: nat, o: int)
        requires
            0 <= o <= self.order_count(),
        ensures
            self.fit_from(need, o) >= o,
        decreases self.order_count() - o,
    {
        if o < self.order_count() && self.size_of(o) < need {
            self.lemma_fit_from_range(need, o + 1);
        }
    }

    /// `avail_from` lands on a class at or above its start whose free
    /// list is not empty, whenever it lands below the class count.
    pub proof fn lemma_avail_from_props(self, o: int)
        requires
            0 <= o <= self.order_count(),
        ensures
            self.avail_from(o) >= o,
            self.avail_from(o) <= self.order_count(),
            self.avail_from(o) < self.order_count() ==> self.list(self.avail_from(o)).len() > 0,
        decreases self.order_count() - o,
    {
        if o < self.order_count() && self.list(o).len() == 0 {
            self.lemma_avail_from_props(o + 1);
        }
    }

    /// The free bytes of a well-formed instance are a multiple of the
    /// base block size.
    pub proof fn lemma_free_bytes_aligned(self, upto: int)
        requires
            self.wf_lists(),
            0 <= upto <= self.order_count(),
        ensures
            self.free_bytes_up_to(upto) as int % self.base_size as int == 0,
        decreases upto,
    {
        lemma_pow2_pos(self.base_order as nat);
        if upto == 0 {
            vstd::arithmetic::div_mod::lemma_mod_self_0(self.base_size as int);
            assert(0int % self.base_size as int == 0) by {
                vstd::arithmetic::div_mod::lemma_small_mod(0, self.base_size as nat);
            }
        } else {
            self.lemma_free_bytes_aligned(upto - 1);
            let sz = self.size_of(upto - 1) as int;
            let ln = self.list(upto - 1).len() as int;
            lemma_pow2_pos((self.base_order + upto - 1) as nat);
            vstd::arithmetic::div_mod::lemma_mod_self_0(sz);
            lemma_pow2_mod_divides(sz, self.base_order as nat, (self.base_order + upto - 1) as nat);
            let q = sz / self.base_size as int;
            lemma_fundamental_div_mod(sz, self.base_size as int);
            assert(ln * sz == (ln * q) * self.base_size as int + 0) by (nonlinear_arith)
                requires
                    sz == self.base_size as int * q,
            ;
            lemma_fundamental_div_mod_converse(ln * sz, self.base_size as int, ln * q, 0);
            lemma_mod_sum_zero(
                self.free_bytes_up_to(upto - 1) as int,
                ln * sz,
                self.base_size as int,
            );
        }
    }

    /// A nonempty free list bounds the free bytes from below by one of
    /// its blocks.
    pub proof fn lemma_free_bytes_lower(self, o: int, upto: int)
        requires
            0 <= o < upto <= self.order_count(),
        ensures
            self.free_bytes_up_to(upto) >= self.list(o).len() * self.size_of(o),
        decreases upto,
    {
        if o < upto - 1 {
            self.lemma_free_bytes_lower(o, upto - 1);
        }
    }

    /// When `avail_from` runs off the end, every class from `o` upward
    /// has an empty free list.
    pub proof fn lemma_avail_from_all_empty(self, o: int)
        requires
            0 <= o <= self.order_count(),
            self.avail_from(o) == self.order_count(),
        ensures
            forall|i: int| o <= i < self.order_count() ==> self.list(i).len() == 0,
        decreases self.order_count() - o,
    {
        if o < self.order_count() {
            self.lemma_avail_from_all_empty(o + 1);
        }
    }

    /// A nonempty free list at class `w` bounds `avail_from` from above.
    proof fn lemma_avail_from_le(self, o: int, w: int)
        requires
            0 <= o <= w < self.order_count(),
            self.list(w).len() > 0,
        ensures
            self.avail_from(o) <= w,
        decreases w - o,
    {
        if o < w && self.list(o).len() == 0 {
            self.lemma_avail_from_le(o + 1, w);
        }
    }
}

/// The process-wide heap allocation has failed in both tiers: a fatal,
/// unrecoverable out-of-memory condition.
#[derive(Clone, Copy, Debug, PartialEq, Eq, Structural)]
pub struct OutOfMemoryError;

/// Every free block of the coarse instance is disjoint from every free
/// block of the fine instance: the two tiers manage separate memory.
pub open spec fn tiers_disjoint(fine: BuddyAllocator, coarse: BuddyAllocator) -> bool {
    forall|o: int, j: int|
        0 <= o < coarse.order_count() && 0 <= j < coarse.list(o).len()
            ==> fine.range_free_disjoint(
            (#[trigger] coarse.list(o)[j]) as int,
            coarse.size_of(o) as int,
        )
}

/// The shared heap-serving allocator: a fine buddy instance that, when
/// exhausted, pulls one block sized to its own largest order from the
/// coarse instance, folds it into its free lists, and retries exactly
/// once before reporting a fatal out-of-memory condition.
pub struct SharedAllocator {
    /// The fine-grained instance backing ordinary heap allocations.
    pub fine: BuddyAllocator,
}

impl SharedAllocator {
    /// The shared allocator is well formed when its fine instance is.
    pub open spec fn wf(self) -> bool {
        self.fine.wf()
    }

    /// The size of the fine instance's largest class: the refill unit.
    pub open spec fn refill_size(self) -> nat {
        self.fine.size_of(self.fine.order_count() - 1)
    }

    /// Wraps a fine instance.
    pub fn new(fine: BuddyAllocator) -> (r: Self)
        ensures
            r.fine == fine,
    {
        SharedAllocator { fine }
    }

    /// Serves an allocation from the fine instance; on exhaustion refills
    /// once from `coarse` and retries.  Succeeds whenever the fine
    /// instance can serve the request, and also whenever the request fits
    /// the fine instance's classes and the coarse instance holds a block
    /// of at least the refill size.
    #[verifier::rlimit(50)]
    pub fn allocate(&mut self, coarse: &mut BuddyAllocator, align: usize, size: usize) -> (r: Result<
        (usize, usize),
        OutOfMemoryError,
    >)
        requires
            old(self).wf(),
            old(coarse).wf(),
            1 <= align,
            exists|k: nat| align == pow2(k),
            tiers_disjoint(old(self).fine, *old(coarse)),
        ensures
            final (self).wf(),
            final (coarse).wf(),
            final (self).fine.base_order == old(self).fine.base_order,
            final (self).fine.base_size == old(self).fine.base_size,
            final (self).fine.order_count() == old(self).fine.order_count(),
            final (coarse).base_order == old(coarse).base_order,
            final (coarse).base_size == old(coarse).base_size,
            final (coarse).order_count() == old(coarse).order_count(),
            r.is_ok() == (old(self).fine.can_serve(align, size) || (old(self).fine.fit_order(
                align,
                size,
            ) < old(self).fine.order_count() && old(coarse).can_serve(
                old(self).refill_size() as usize,
                old(self).refill_size() as usize,
            ))),
            old(self).fine.can_serve(align, size) ==> *final (coarse) == *old(coarse),
            old(self).fine.can_serve(align, size) ==> (forall|x: int, l: int|
                #![trigger old(self).fine.range_free_disjoint(x, l)]
                0 < l && old(self).fine.range_free_disjoint(x, l)
                    ==> final (self).fine.range_free_disjoint(x, l)),
            match r {
                Ok((a, s)) => {
                    &&& s == old(self).fine.size_of(old(self).fine.fit_order(align, size))
                    &&& old(self).fine.fit_order(align, size) < old(self).fine.order_count()
                    &&& s >= size
                    &&& s >= align
                    &&& a as int % align as int == 0
                    &&& a as int % s as int == 0
                    &&& a + s <= usize::MAX
                    &&& final (self).fine.range_free_disjoint(a as int, s as int)
                    &&& final (self).fine.allocated@ >= s
                },
                Err(_) => {
                    &&& !old(self).fine.can_serve(align, size)
                    &&& final (self).fine.allocated@ == old(self).fine.allocated@
                    &&& (old(self).fine.fit_order(align, size) < old(self).fine.order_count()
                        ==> (*final (self) == *old(self) && *final (coarse) == *old(coarse)))
                },
            },
    {
        broadcast use lemma_pow2_pos;

        let r1 = self.fine.allocate(align, size);
        match r1 {
            Ok(p) => Ok(p),
            Err(_) => {
                // refill: one block of the fine instance's largest order
                let fcount = self.fine.free_lists.len();
                let fmax = self.fine.block_size(fcount - 1);
                proof {
                    assert(fmax == pow2(
                        (old(self).fine.base_order + old(self).fine.order_count() - 1) as nat,
                    ));
                }
                let r2 = coarse.allocate(fmax, fmax);
                match r2 {
                    Err(_) => Err(OutOfMemoryError),
                    Ok((ptr, got)) => {
                        let ghost cpre = *old(coarse);
                        let ghost fav = cpre.avail_from(cpre.fit_order(fmax, fmax));
                        proof {
                            let fb = old(self).fine.base_order as nat;
                            let fe = (old(self).fine.base_order + old(self).fine.order_count()
                                - 1) as nat;
                            let ge = (cpre.base_order + cpre.fit_order(fmax, fmax)) as nat;
                            // the returned size and address are multiples
                            // of the fine base block size
                            vstd::arithmetic::div_mod::lemma_mod_self_0(got as int);
                            lemma_pow2_le(fb, fe);
                            cpre.lemma_fit_from_range(cpre.needed_size(fmax, fmax), 0);
                            cpre.lemma_avail_from_props(cpre.fit_order(fmax, fmax));
                            assert(fmax == pow2(fe));
                            assert(fmax <= got);
                            assert(got == pow2(ge));
                            if (fb as int) > ge {
                                lemma_pow2_strictly_increases(ge, fb);
                                assert(false);
                            }
                            lemma_pow2_mod_divides(got as int, fb, ge);
                            lemma_pow2_mod_divides(ptr as int, fb, ge);
                            // the coarse block handed over is disjoint
                            // from every free block of the fine instance
                            let lst = cpre.list(fav);
                            assert(self.fine.range_free_disjoint(
                                (cpre.list(fav)[lst.len() - 1]) as int,
                                cpre.size_of(fav) as int,
                            ));
                            assert forall|o: int, j: int|
                                0 <= o < self.fine.order_count() && 0 <= j < self.fine.list(
                                    o,
                                ).len() implies (ptr as int + got as int
                                <= #[trigger] self.fine.list(o)[j] || self.fine.list(o)[j]
                                + self.fine.size_of(o) <= ptr as int) by {
                                assert(ptr as int + cpre.size_of(fav) <= self.fine.list(o)[j]
                                    || self.fine.list(o)[j] + self.fine.size_of(o) <= ptr as int);
                            }
                            assert(self.fine.range_free_disjoint(ptr as int, got as int));
                        }
                        self.fine.transfer(ptr, got);
                        proof {
                            // the refill block is aligned to and at least
                            // as large as the largest fine class, so a
                            // largest-class block now exists
                            let fe = (old(self).fine.base_order + old(self).fine.order_count()
                                - 1) as nat;
                            let ge = (cpre.base_order + cpre.fit_order(fmax, fmax)) as nat;
                            cpre.lemma_fit_from_range(cpre.needed_size(fmax, fmax), 0);
                            if fe > ge {
                                lemma_pow2_strictly_increases(ge, fe);
                                assert(false);
                            }
                            vstd::arithmetic::div_mod::lemma_mod_self_0(got as int);
                            lemma_pow2_mod_divides(ptr as int, fe, ge);
                            lemma_pow2_le(fe, ge);
                            assert(self.fine.list(self.fine.order_count() - 1).len() >= 1);
                        }
                        let ghost f2 = self.fine;
                        proof {
                            BuddyAllocator::lemma_fit_from_frame(
                                old(self).fine,
                                f2,
                                f2.needed_size(align, size),
                                0,
                            );
                            if old(self).fine.fit_order(align, size)
                                < old(self).fine.order_count() {
                                f2.lemma_fit_from_range(f2.needed_size(align, size), 0);
                                f2.lemma_avail_from_le(
                                    f2.fit_order(align, size),
                                    f2.order_count() - 1,
                                );
                            }
                        }
                        let r3 = self.fine.allocate(align, size);
                        match r3 {
                            Ok(p) => Ok(p),
                            Err(_) => Err(OutOfMemoryError),
                        }
                    },
                }
            },
        }
    }

    /// Returns a block to the fine instance, merging buddies as in
    /// `BuddyAllocator::deallocate`.
    pub fn deallocate(&mut self, addr: usize, size: usize)
        requires
            old(self).wf(),
            exists|o: int|
                0 <= o < old(self).fine.order_count() && size == old(self).fine.size_of(o),
            addr as int % size as int == 0,
            addr + size <= usize::MAX,
            old(self).fine.range_free_disjoint(addr as int, size as int),
            old(self).fine.allocated@ >= size,
        ensures
            final (self).wf(),
            final (self).fine.base_order == old(self).fine.base_order,
            final (self).fine.order_count() == old(self).fine.order_count(),
            final (self).fine.free_bytes() == old(self).fine.free_bytes() + size,
            final (self).fine.allocated@ == old(self).fine.allocated@ - size,
            final (self).fine.transferred@ == old(self).fine.transferred@,
            exists|o2: int|
                0 <= o2 < old(self).fine.order_count() && size <= final (self).fine.size_of(o2)
                    && #[trigger] final (self).fine.list(o2).len() > 0,
    {
        self.fine.deallocate(addr, size);
    }
}

/// The buddy invariant: in a well-formed allocator no two distinct free
/// blocks of one mergeable size class are the two halves of the same
/// parent block; every deallocation merges such siblings before it
/// completes.
pub proof fn lemma_buddy_invariant(a: BuddyAllocator, o: int, j1: int, j2: int)
    requires
        a.wf(),
        0 <= o < a.order_count() - 1,
        0 <= j1 < a.list(o).len(),
        0 <= j2 < a.list(o).len(),
        j1 != j2,
    ensures
        a.list(o)[j1] as int / (2 * a.size_of(o) as int) != a.list(o)[j2] as int / (2 * a.size_of(
            o,
        ) as int),
        a.list(o)[j1] + a.size_of(o) <= a.list(o)[j2] || a.list(o)[j2] + a.size_of(o) <= a.list(
            o,
        )[j1],
{
    assert(a.pair_ok(o, a.list(o)[j1], o, a.list(o)[j2]));
}

/// Conservation: in a well-formed allocator the bytes on the free lists
/// plus the bytes issued to callers and not yet returned equal the bytes
/// ever transferred in; every operation preserves this.
pub proof fn lemma_conservation(a: BuddyAllocator)
    requires
        a.wf(),
    ensures
        a.free_bytes() + a.allocated@ == a.transferred@,
{
}

/// A free block whose class can hold a request makes the request
/// servable: after returning a block of at least the needed size, an
/// identical allocation succeeds again.
pub proof fn lemma_block_serves(a: BuddyAllocator, o2: int, align: usize, size: usize)
    requires
        a.wf(),
        0 <= o2 < a.order_count(),
        a.list(o2).len() > 0,
        a.needed_size(align, size) <= a.size_of(o2),
    ensures
        a.can_serve(align, size),
{
    let need = a.needed_size(align, size);
    a.lemma_fit_from_le(need, 0, o2);
    a.lemma_fit_from_range(need, 0);
    a.lemma_avail_from_le(a.fit_order(align, size), o2);
}

/// The two halves of a naturally aligned block: the lower half keeps the
/// parent's alignment with an even half-index, the upper half is its odd
/// buddy.
proof fn lemma_split_align(a: int, h: int)
    requires
        h > 0,
        a >= 0,
        a % (2 * h) == 0,
    ensures
        a % h == 0,
        (a / h) % 2 == 0,
        (a + h) % h == 0,
        ((a + h) / h) % 2 == 1,
{
    let q = a / (2 * h);
    lemma_fundamental_div_mod(a, 2 * h);
    assert(a == (2 * q) * h + 0) by (nonlinear_arith)
        requires
            a == 2 * h * q,
    ;
    lemma_fundamental_div_mod_converse(a, h, 2 * q, 0);
    lemma_fundamental_div_mod_converse(2 * q, 2, q, 0);
    assert(a + h == (2 * q + 1) * h + 0) by (nonlinear_arith)
        requires
            a == 2 * h * q,
    ;
    lemma_fundamental_div_mod_converse(a + h, h, 2 * q + 1, 0);
    lemma_fundamental_div_mod_converse(2 * q + 1, 2, q, 1);
}

/// A multiple of `pow2(k2)` is also a multiple of `pow2(k1)` for
/// `k1 <= k2`.
proof fn lemma_pow2_mod_divides(a: int, k1: nat, k2: nat)
    requires
        k1 <= k2,
        a >= 0,
        a % pow2(k2) as int == 0,
    ensures
        a % pow2(k1) as int == 0,
{
    lemma_pow2_adds(k1, (k2 - k1) as nat);
    lemma_pow2_pos(k1);
    lemma_pow2_pos(k2);
    lemma_pow2_pos((k2 - k1) as nat);
    let p1 = pow2(k1) as int;
    let pd = pow2((k2 - k1) as nat) as int;
    let p2 = pow2(k2) as int;
    lemma_fundamental_div_mod(a, p2);
    let q = a / p2;
    assert(a == (q * pd) * p1 + 0) by (nonlinear_arith)
        requires
            a == p2 * q,
            p2 == p1 * pd,
    ;
    lemma_fundamental_div_mod_converse(a, p1, q * pd, 0);
}

/// The sum of two multiples of `m` is a multiple of `m`.
proof fn lemma_mod_sum_zero(x: int, y: int, m: int)
    requires
        m > 0,
        x >= 0,
        y >= 0,
        x % m == 0,
        y % m == 0,
    ensures
        (x + y) % m == 0,
{
    lemma_fundamental_div_mod(x, m);
    lemma_fundamental_div_mod(y, m);
    assert(x + y == (x / m + y / m) * m + 0) by (nonlinear_arith)
        requires
            x == m * (x / m),
            y == m * (y / m),
    ;
    lemma_fundamental_div_mod_converse(x + y, m, x / m + y / m, 0);
}

/// The difference of two multiples of `m` is a multiple of `m`.
proof fn lemma_mod_diff_zero(x: int, y: int, m: int)
    requires
        m > 0,
        0 <= y <= x,
        x % m == 0,
        y % m == 0,
    ensures
        (x - y) % m == 0,
{
    lemma_fundamental_div_mod(x, m);
    lemma_fundamental_div_mod(y, m);
    assert(x - y == (x / m - y / m) * m + 0) by (nonlinear_arith)
        requires
            x == m * (x / m),
            y == m * (y / m),
    ;
    lemma_fundamental_div_mod_converse(x - y, m, x / m - y / m, 0);
}

/// Two distinct naturally aligned blocks of size `s` that lie inside the
/// same parent block of size `2*s` are each other's buddy.
proof fn lemma_same_parent_is_buddy(a: int, x: int, s: int)
    requires
        s > 0,
        a >= 0,
        x >= 0,
        a % s == 0,
        x % s == 0,
        a != x,
        a / (2 * s) == x / (2 * s),
    ensures
        x == if (a / s) % 2 == 0 {
            a + s
        } else {
            a - s
        },
{
    let t = 2 * s;
    let q = a / t;
    lemma_fundamental_div_mod(a, t);
    lemma_fundamental_div_mod(x, t);
    let ra = a % t;
    let rx = x % t;
    lemma_halves(a, s, ra, q);
    lemma_halves(x, s, rx, q);
    if ra == 0 {
        assert(a == (2 * q) * s + 0) by (nonlinear_arith)
            requires
                a == t * q,
                t == 2 * s,
        ;
        lemma_fundamental_div_mod_converse(a, s, 2 * q, 0);
        lemma_mod_multiples_basic(q, 2);
        assert(rx == s);
        assert(x == a + s);
    } else {
        assert(a == (2 * q + 1) * s + 0) by (nonlinear_arith)
            requires
                a == t * q + s,
                t == 2 * s,
        ;
        lemma_fundamental_div_mod_converse(a, s, 2 * q + 1, 0);
        lemma_fundamental_div_mod_converse(2 * q + 1, 2, q, 1);
        assert(rx == 0);
        assert(x == a - s);
    }
}

/// The remainder of a naturally `s`-aligned address within its `2*s` parent
/// block is either `0` or `s`.
proof fn lemma_halves(a: int, s: int, r: int, q: int)
    requires
        s > 0,
        a >= 0,
        a % s == 0,
        r == a % (2 * s),
        q == a / (2 * s),
    ensures
        r == 0 || r == s,
{
    let t = 2 * s;
    lemma_fundamental_div_mod(a, t);
    assert((t * q) % s == 0) by {
        assert(t * q == (2 * q) * s) by (nonlinear_arith)
            requires
                t == 2 * s,
        ;
        lemma_mod_multiples_basic(2 * q, s);
    }
    assert(r % s == 0) by {
        vstd::arithmetic::div_mod::lemma_sub_mod_noop(a, t * q, s);
    }
    lemma_fundamental_div_mod(r, s);
    let h = r / s;
    assert(r == s * h);
    assert(0 <= h < 2) by (nonlinear_arith)
        requires
            r == s * h,
            0 <= r < 2 * s,
            s > 0,
    ;
    if h == 0 {
        assert(r == 0) by (nonlinear_arith)
            requires
                r == s * h,
                h == 0,
        ;
    } else {
        assert(r == s) by (nonlinear_arith)
            requires
                r == s * h,
                h == 1,
        ;
    }
}

/// Linear search for `x` in `l`.
fn find_in_list(l: &Vec<usize>, x: usize) -> (r: Option<usize>)
    ensures
        match r {
            Some(j) => (j as int) < l@.len() && l@[j as int] == x,
            None => forall|k: int| 0 <= k < l@.len() ==> l@[k] != x,
        },
{
    let mut j: usize = 0;
    while j < l.len()
        invariant
            j <= l@.len(),
            forall|k: int| 0 <= k < j ==> l@[k] != x,
        decreases l@.len() - j,
    {
        if l[j] == x {
            return Some(j);
        }
        j = j + 1;
    }
    None
}

/// `pow2(e1) <= pow2(e2)` for `e1 <= e2`.
proof fn lemma_pow2_le(e1: nat, e2: nat)
    requires
        e1 <= e2,
    ensures
        pow2(e1) <= pow2(e2),
{
    if e1 < e2 {
        lemma_pow2_strictly_increases(e1, e2);
    }
}

/// A power of two below another that fits in `usize` also fits.
proof fn lemma_pow2_le_max(e1: nat, e2: nat)
    requires
        e1 <= e2,
        pow2(e2) <= usize::MAX,
    ensures
        pow2(e1) <= usize::MAX,
{
    lemma_pow2_le(e1, e2);
}

/// Computes `2^e` by doubling.
fn pow2_exec(e: usize) -> (r: usize)
    requires
        pow2(e as nat) <= usize::MAX,
    ensures
        r == pow2(e as nat),
{
    let mut r: usize = 1;
    let mut i: usize = 0;
    proof {
        vstd::arithmetic::power2::lemma2_to64();
    }
    while i < e
        invariant
            i <= e,
            r == pow2(i as nat),
            pow2(e as nat) <= usize::MAX,
        decreases e - i,
    {
        proof {
            lemma_pow2_le((i + 1) as nat, e as nat);
            assert(pow2((i + 1) as nat) == 2 * pow2(i as nat)) by {
                lemma_pow2_adds(1, i as nat);
                vstd::arithmetic::power2::lemma2_to64();
            }
        }
        r = r * 2;
        i = i + 1;
    }
    r
}

} // verus!
