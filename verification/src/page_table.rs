//! The page table builder: a generic walker over a three-level radix
//! page table, driven by a policy that decides where traversal starts,
//! which leaf to install at each 4 KiB page, and where to stop; table
//! nodes are created on demand from frames the policy supplies.
//!
//! The table is modeled as an arena of nodes, each a physical frame
//! holding 512 entries.  The concrete policy here builds the kernel's
//! identity-mapped address space from the four linker-provided boundary
//! addresses, drawing table frames from the coarse buddy allocator.

use vstd::prelude::*;

verus! {

use crate::buddy::{BuddyAllocator, ExhaustedError};
use vstd::arithmetic::power2::pow2;
use vstd::arithmetic::div_mod::{
    lemma_fundamental_div_mod, lemma_div_denominator, lemma_div_is_ordered,
    lemma_mod_division_less_than_divisor, lemma_div_pos_is_pos,
};

/// Number of virtual pages the three-level table can address.
pub const VPN_LIMIT: usize = 0x8000000;

/// A position in the traversal: a virtual page number and a tree level.
#[derive(Clone, Copy, Debug, PartialEq, Eq, Structural)]
pub struct Pos {
    /// Virtual page number.
    pub vpn: usize,
    /// Tree level; leaves are installed at level 0.
    pub level: usize,
}

/// One page-table entry of the model.
#[derive(Clone, Copy, Debug, PartialEq, Eq, Structural)]
pub enum Entry {
    /// An unused slot.
    Invalid,
    /// A pointer to a lower-level node: the arena index of the child node
    /// and the physical page number of its frame.
    Branch { child: usize, ppn: usize },
    /// A mapping: physical page number and permission bits.
    Leaf { ppn: usize, flags: u8 },
}

/// One page-table node: a physical frame interpreted as 512 entries of
/// one level of the tree.
pub struct Node {
    /// Physical address of the frame holding this node.
    pub addr: usize,
    /// Tree level of this node; the root is level 2.
    pub level: usize,
    /// The node's 512 entries.
    pub entries: Vec<Entry>,
}

/// The three-level page table: an arena of nodes, `nodes[0]` the root.
pub struct PageTable {
    /// All nodes of the tree, in creation order.
    pub nodes: Vec<Node>,
}

impl PageTable {
    /// The entry at slot `i` of node `n`.
    pub open spec fn entry_at(self, n: int, i: int) -> Entry {
        self.nodes@[n].entries@[i]
    }

    /// The per-entry shape: a branch points to an existing non-root node
    /// one level down; a leaf appears only at level 0.
    pub open spec fn entry_ok(self, n: int, i: int) -> bool {
        match self.entry_at(n, i) {
            Entry::Branch { child, ppn } => {
                &&& 0 < child < self.nodes@.len()
                &&& self.nodes@[n].level >= 1
                &&& self.nodes@[child as int].level + 1 == self.nodes@[n].level
            },
            Entry::Leaf { ppn, flags } => self.nodes@[n].level == 0,
            Entry::Invalid => true,
        }
    }

    /// Two distinct slots never branch to the same child node.
    pub open spec fn slots_distinct(self, n1: int, i1: int, n2: int, i2: int) -> bool {
        !(self.entry_at(n1, i1) matches Entry::Branch { child: c1, .. } && self.entry_at(
            n2,
            i2,
        ) matches Entry::Branch { child: c2, .. } && c1 == c2)
    }

    /// Well-formedness: every node holds 512 entries; the root is level
    /// 2; every entry is shaped as `entry_ok` says; no two branches share
    /// a child.
    pub open spec fn wf(self) -> bool {
        &&& 1 <= self.nodes@.len()
        &&& forall|n: int|
            0 <= n < self.nodes@.len() ==> (#[trigger] self.nodes@[n]).entries@.len() == 512
        &&& self.nodes@[0].level == 2
        &&& forall|n: int, i: int|
            0 <= n < self.nodes@.len() && 0 <= i < 512 ==> #[trigger] self.entry_ok(n, i)
        &&& forall|n1: int, i1: int, n2: int, i2: int|
            0 <= n1 < self.nodes@.len() && 0 <= i1 < 512 && 0 <= n2 < self.nodes@.len() && 0 <= i2
                < 512 && (n1 != n2 || i1 != i2) ==> #[trigger] self.slots_distinct(n1, i1, n2, i2)
    }

    /// The leaf mapping the table assigns to virtual page `vpn`: follow a
    /// branch at each of the three levels and read the level-0 slot.
    pub open spec fn resolve(self, vpn: int) -> Option<(usize, u8)>
        recommends
            0 <= vpn < VPN_LIMIT,
    {
        match self.entry_at(0, vpn / 262144) {
            Entry::Branch { child: n1, .. } => match self.entry_at(
                n1 as int,
                (vpn / 512) % 512,
            ) {
                Entry::Branch { child: n0, .. } => match self.entry_at(n0 as int, vpn % 512) {
                    Entry::Leaf { ppn, flags } => Some((ppn, flags)),
                    _ => None,
                },
                _ => None,
            },
            _ => None,
        }
    }

    /// A fresh node: `level` and frame address recorded, all 512 entries
    /// invalid (the frame is conceptually zeroed).
    fn node_new(addr: usize, level: usize) -> (r: Node)
        ensures
            r.addr == addr,
            r.level == level,
            r.entries@.len() == 512,
            forall|i: int| 0 <= i < 512 ==> r.entries@[i] == Entry::Invalid,
    {
        let mut entries: Vec<Entry> = Vec::new();
        let mut i: usize = 0;
        while i < 512
            invariant
                i <= 512,
                entries@.len() == i,
                forall|j: int| 0 <= j < i ==> entries@[j] == Entry::Invalid,
            decreases 512 - i,
        {
            entries.push(Entry::Invalid);
            i = i + 1;
        }
        Node { addr, level, entries }
    }

    /// An empty table: one zeroed root node at the given frame address.
    pub fn new(root_addr: usize) -> (r: Self)
        ensures
            r.wf(),
            r.nodes@.len() == 1,
            r.nodes@[0].addr == root_addr,
            forall|v: int| 0 <= v < VPN_LIMIT ==> #[trigger] r.resolve(v) is None,
    {
        let root = Self::node_new(root_addr, 2);
        let mut nodes: Vec<Node> = Vec::new();
        nodes.push(root);
        let r = PageTable { nodes };
        proof {
            assert forall|v: int| 0 <= v < VPN_LIMIT implies #[trigger] r.resolve(v) is None by {
                lemma_vpn_decompose(v);
            }
        }
        r
    }

    /// Looks up the mapping of a virtual address as the hardware would:
    /// the physical page number and permission bits of its page's leaf
    /// entry, or `None` where the address is unmapped.
    pub fn translate(&self, vaddr: usize) -> (r: Option<(usize, u8)>)
        requires
            self.wf(),
            vaddr < 0x8000000000,
        ensures
            r == self.resolve(vaddr as int / 4096),
    {
        let vpn = vaddr / 4096;
        proof {
            lemma_div_pos_is_pos(vaddr as int, 4096);
            lemma_div_is_ordered(vaddr as int, 0x8000000000 - 1, 4096);
            lemma_vpn_decompose(vpn as int);
        }
        let i2 = vpn / 262144;
        let i1 = (vpn / 512) % 512;
        let i0 = vpn % 512;
        match self.nodes[0].entries[i2] {
            Entry::Branch { child: n1, .. } => {
                proof {
                    assert(self.entry_ok(0, i2 as int));
                }
                match self.nodes[n1].entries[i1] {
                    Entry::Branch { child: n0, .. } => {
                        proof {
                            assert(self.entry_ok(n1 as int, i1 as int));
                        }
                        match self.nodes[n0].entries[i0] {
                            Entry::Leaf { ppn, flags } => Some((ppn, flags)),
                            _ => None,
                        }
                    },
                    _ => None,
                }
            },
            _ => None,
        }
    }

    /// Appends a fresh node and returns its arena index.
    fn push_node(&mut self, addr: usize, level: usize) -> (n: usize)
        ensures
            n == old(self).nodes@.len(),
            final (self).nodes@.len() == old(self).nodes@.len() + 1,
            forall|m: int| 0 <= m < old(self).nodes@.len() ==> final (self).nodes@[m] == old(
                self,
            ).nodes@[m],
            final (self).nodes@[n as int].addr == addr,
            final (self).nodes@[n as int].level == level,
            final (self).nodes@[n as int].entries@.len() == 512,
            forall|i: int|
                0 <= i < 512 ==> final (self).entry_at(n as int, i) == Entry::Invalid,
    {
        let node = Self::node_new(addr, level);
        let n = self.nodes.len();
        self.nodes.push(node);
        n
    }

    /// Writes entry `e` into slot `i` of node `n`.
    fn set_entry(&mut self, n: usize, i: usize, e: Entry)
        requires
            (n as int) < old(self).nodes@.len(),
            (i as int) < old(self).nodes@[n as int].entries@.len(),
        ensures
            final (self).nodes@.len() == old(self).nodes@.len(),
            forall|m: int|
                0 <= m < old(self).nodes@.len() && m != n as int ==> final (self).nodes@[m]
                    == old(self).nodes@[m],
            final (self).nodes@[n as int].addr == old(self).nodes@[n as int].addr,
            final (self).nodes@[n as int].level == old(self).nodes@[n as int].level,
            final (self).nodes@[n as int].entries@ == old(self).nodes@[n as int].entries@.update(
                i as int,
                e,
            ),
    {
        self.nodes[n].entries[i] = e;
    }
}

impl PageTable {
    /// Appending an unreferenced node changes no resolution.
    proof fn lemma_resolve_after_push(pre: Self, post: Self)
        requires
            pre.wf(),
            post.nodes@.len() == pre.nodes@.len() + 1,
            forall|m: int| 0 <= m < pre.nodes@.len() ==> post.nodes@[m] == pre.nodes@[m],
            post.nodes@[pre.nodes@.len() as int].entries@.len() == 512,
            forall|i: int|
                0 <= i < 512 ==> post.entry_at(pre.nodes@.len() as int, i) == Entry::Invalid,
        ensures
            post.wf(),
            forall|v: int|
                0 <= v < VPN_LIMIT ==> #[trigger] post.resolve(v) == pre.resolve(v),
    {
        let len = pre.nodes@.len() as int;
        assert forall|n: int|
            0 <= n < post.nodes@.len() implies (#[trigger] post.nodes@[n]).entries@.len()
            == 512 by {
            if n < len {
                assert(post.nodes@[n] == pre.nodes@[n]);
            }
        }
        assert forall|n: int, i: int|
            0 <= n < post.nodes@.len() && 0 <= i < 512 implies #[trigger] post.entry_ok(n, i) by {
            if n < len {
                assert(post.entry_at(n, i) == pre.entry_at(n, i));
                assert(pre.entry_ok(n, i));
                match pre.entry_at(n, i) {
                    Entry::Branch { child, .. } => {
                        assert(post.nodes@[child as int] == pre.nodes@[child as int]);
                    },
                    _ => {},
                }
            } else {
                assert(post.entry_at(n, i) == Entry::Invalid);
            }
        }
        assert forall|n1: int, i1: int, n2: int, i2: int|
            0 <= n1 < post.nodes@.len() && 0 <= i1 < 512 && 0 <= n2 < post.nodes@.len() && 0 <= i2
                < 512 && (n1 != n2 || i1 != i2) implies #[trigger] post.slots_distinct(
            n1,
            i1,
            n2,
            i2,
        ) by {
            if n1 < len && n2 < len {
                assert(post.entry_at(n1, i1) == pre.entry_at(n1, i1));
                assert(post.entry_at(n2, i2) == pre.entry_at(n2, i2));
                assert(pre.slots_distinct(n1, i1, n2, i2));
            } else if n1 < len {
                assert(post.entry_at(n2, i2) == Entry::Invalid);
            } else {
                assert(post.entry_at(n1, i1) == Entry::Invalid);
            }
        }
        assert forall|v: int|
            0 <= v < VPN_LIMIT implies #[trigger] post.resolve(v) == pre.resolve(v) by {
            lemma_vpn_decompose(v);
            let i2x = v / 262144;
            assert(post.nodes@[0] == pre.nodes@[0]);
            match pre.entry_at(0, i2x) {
                Entry::Branch { child: n1, .. } => {
                    assert(pre.entry_ok(0, i2x));
                    assert(post.nodes@[n1 as int] == pre.nodes@[n1 as int]);
                    match pre.entry_at(n1 as int, (v / 512) % 512) {
                        Entry::Branch { child: n0, .. } => {
                            assert(pre.entry_ok(n1 as int, (v / 512) % 512));
                            assert(post.nodes@[n0 as int] == pre.nodes@[n0 as int]);
                        },
                        _ => {},
                    }
                },
                _ => {},
            }
        }
    }

    /// Writing a branch to a fresh, empty, otherwise unreferenced child
    /// into an invalid slot keeps the table well formed and changes no
    /// resolution: everything routed through the new branch still
    /// resolves to nothing.
    proof fn lemma_resolve_after_branch(
        pre: Self,
        post: Self,
        n: int,
        i: int,
        child: usize,
        bppn: usize,
    )
        requires
            pre.wf(),
            0 <= n < pre.nodes@.len(),
            0 <= i < 512,
            pre.entry_at(n, i) == Entry::Invalid,
            pre.nodes@[n].level >= 1,
            post.entry_at(n, i) == (Entry::Branch { child, ppn: bppn }),
            0 < child < pre.nodes@.len(),
            pre.nodes@[child as int].level + 1 == pre.nodes@[n].level,
            forall|j: int| 0 <= j < 512 ==> pre.entry_at(child as int, j) == Entry::Invalid,
            forall|m: int, jj: int|
                0 <= m < pre.nodes@.len() && 0 <= jj < 512 ==> !(#[trigger] pre.entry_at(
                    m,
                    jj,
                ) matches Entry::Branch { child: c2, .. } && c2 == child),
            post.nodes@.len() == pre.nodes@.len(),
            forall|m: int|
                0 <= m < pre.nodes@.len() && m != n ==> post.nodes@[m] == pre.nodes@[m],
            post.nodes@[n].addr == pre.nodes@[n].addr,
            post.nodes@[n].level == pre.nodes@[n].level,
            post.nodes@[n].entries@ == pre.nodes@[n].entries@.update(i, post.entry_at(n, i)),
        ensures
            post.wf(),
            forall|v: int|
                0 <= v < VPN_LIMIT ==> #[trigger] post.resolve(v) == pre.resolve(v),
    {
        let len = pre.nodes@.len() as int;
        {
            {
                assert forall|m: int|
                    0 <= m < post.nodes@.len() implies (#[trigger] post.nodes@[m]).entries@.len()
                    == 512 by {
                    if m != n {
                        assert(post.nodes@[m] == pre.nodes@[m]);
                    }
                }
                assert forall|m: int, j: int|
                    0 <= m < post.nodes@.len() && 0 <= j < 512 implies #[trigger] post.entry_ok(
                    m,
                    j,
                ) by {
                    if m == n && j == i {
                        assert(post.nodes@[child as int] == pre.nodes@[child as int]);
                    } else {
                        assert(post.entry_at(m, j) == pre.entry_at(m, j));
                        assert(pre.entry_ok(m, j));
                        match pre.entry_at(m, j) {
                            Entry::Branch { child: c, .. } => {
                                if c as int != n {
                                    assert(post.nodes@[c as int] == pre.nodes@[c as int]);
                                }
                            },
                            _ => {},
                        }
                    }
                }
                assert forall|m1: int, j1: int, m2: int, j2: int|
                    0 <= m1 < post.nodes@.len() && 0 <= j1 < 512 && 0 <= m2 < post.nodes@.len()
                        && 0 <= j2 < 512 && (m1 != m2 || j1 != j2)
                    implies #[trigger] post.slots_distinct(m1, j1, m2, j2) by {
                    if m1 == n && j1 == i {
                        assert(post.entry_at(m2, j2) == pre.entry_at(m2, j2));
                        assert(!(pre.entry_at(m2, j2) matches Entry::Branch { child: c2, .. }
                            && c2 == child));
                    } else if m2 == n && j2 == i {
                        assert(post.entry_at(m1, j1) == pre.entry_at(m1, j1));
                        assert(!(pre.entry_at(m1, j1) matches Entry::Branch { child: c2, .. }
                            && c2 == child));
                    } else {
                        assert(post.entry_at(m1, j1) == pre.entry_at(m1, j1));
                        assert(post.entry_at(m2, j2) == pre.entry_at(m2, j2));
                        assert(pre.slots_distinct(m1, j1, m2, j2));
                    }
                }
                assert forall|v: int|
                    0 <= v < VPN_LIMIT implies #[trigger] post.resolve(v) == pre.resolve(v) by {
                    lemma_vpn_decompose(v);
                    let i2x = v / 262144;
                    let i1x = (v / 512) % 512;
                    let i0x = v % 512;
                    if n == 0 && i == i2x {
                        assert(post.nodes@[child as int] == pre.nodes@[child as int]);
                        assert(pre.entry_at(child as int, i1x) == Entry::Invalid);
                        assert(post.entry_at(child as int, i1x) == Entry::Invalid);
                    } else {
                        assert(post.entry_at(0, i2x) == pre.entry_at(0, i2x));
                        match pre.entry_at(0, i2x) {
                            Entry::Branch { child: m1, .. } => {
                                assert(pre.entry_ok(0, i2x));
                                assert(!(pre.entry_at(0, i2x) matches Entry::Branch {
                                    child: cc,
                                    ..
                                } && cc == child));
                                if m1 as int == n && i1x == i {
                                    assert(post.nodes@[child as int] == pre.nodes@[
                                    child as int]);
                                    assert(pre.entry_at(child as int, i0x) == Entry::Invalid);
                                    assert(post.entry_at(child as int, i0x) == Entry::Invalid);
                                } else {
                                    assert(post.entry_at(m1 as int, i1x) == pre.entry_at(
                                        m1 as int,
                                        i1x,
                                    ));
                                    match pre.entry_at(m1 as int, i1x) {
                                        Entry::Branch { child: m0, .. } => {
                                            assert(pre.entry_ok(m1 as int, i1x));
                                            assert(pre.nodes@[m0 as int].level
                                                < pre.nodes@[m1 as int].level);
                                            if m0 as int != n {
                                                assert(post.entry_at(m0 as int, i0x)
                                                    == pre.entry_at(m0 as int, i0x));
                                            } else {
                                                assert(post.entry_at(m0 as int, i0x)
                                                    == pre.entry_at(m0 as int, i0x));
                                            }
                                        },
                                        _ => {},
                                    }
                                }
                            },
                            _ => {},
                        }
                    }
                }
            }
        }
    }

    /// Writing a leaf into a level-0 slot maps exactly the one virtual
    /// page whose path reaches that slot, and nothing else changes.
    proof fn lemma_resolve_after_leaf(
        pre: Self,
        post: Self,
        n1: int,
        n0: int,
        v0: int,
        ppn: usize,
        flags: u8,
    )
        requires
            pre.wf(),
            0 <= v0 < VPN_LIMIT,
            0 < n1 < pre.nodes@.len(),
            0 < n0 < pre.nodes@.len(),
            pre.entry_at(0, v0 / 262144) matches Entry::Branch { child: c1, .. } && c1 == n1,
            pre.entry_at(n1, (v0 / 512) % 512) matches Entry::Branch { child: c0, .. } && c0
                == n0,
            pre.nodes@[n0].level == 0,
            post.nodes@.len() == pre.nodes@.len(),
            forall|m: int|
                0 <= m < pre.nodes@.len() && m != n0 ==> post.nodes@[m] == pre.nodes@[m],
            post.nodes@[n0].addr == pre.nodes@[n0].addr,
            post.nodes@[n0].level == pre.nodes@[n0].level,
            post.nodes@[n0].entries@ == pre.nodes@[n0].entries@.update(
                v0 % 512,
                Entry::Leaf { ppn, flags },
            ),
        ensures
            post.wf(),
            post.resolve(v0) == Some((ppn, flags)),
            forall|v: int|
                0 <= v < VPN_LIMIT && v != v0 ==> #[trigger] post.resolve(v) == pre.resolve(v),
    {
        lemma_vpn_decompose(v0);
        let i2z = v0 / 262144;
        let i1z = (v0 / 512) % 512;
        let i0z = v0 % 512;
        // well-formedness: only a level-0 slot changed, and it holds a leaf
        assert forall|m: int|
            0 <= m < post.nodes@.len() implies (#[trigger] post.nodes@[m]).entries@.len()
            == 512 by {
            if m != n0 {
                assert(post.nodes@[m] == pre.nodes@[m]);
            }
        }
        assert forall|m: int, j: int|
            0 <= m < post.nodes@.len() && 0 <= j < 512 implies #[trigger] post.entry_ok(m, j) by {
            if m == n0 && j == i0z {
            } else {
                assert(post.entry_at(m, j) == pre.entry_at(m, j));
                assert(pre.entry_ok(m, j));
                match pre.entry_at(m, j) {
                    Entry::Branch { child: c, .. } => {
                        if c as int != n0 {
                            assert(post.nodes@[c as int] == pre.nodes@[c as int]);
                        }
                    },
                    _ => {},
                }
            }
        }
        assert forall|m1: int, j1: int, m2: int, j2: int|
            0 <= m1 < post.nodes@.len() && 0 <= j1 < 512 && 0 <= m2 < post.nodes@.len() && 0 <= j2
                < 512 && (m1 != m2 || j1 != j2) implies #[trigger] post.slots_distinct(
            m1,
            j1,
            m2,
            j2,
        ) by {
            if !(m1 == n0 && j1 == i0z) && !(m2 == n0 && j2 == i0z) {
                assert(post.entry_at(m1, j1) == pre.entry_at(m1, j1));
                assert(post.entry_at(m2, j2) == pre.entry_at(m2, j2));
                assert(pre.slots_distinct(m1, j1, m2, j2));
            } else if m1 == n0 && j1 == i0z {
                assert(post.entry_at(m2, j2) == pre.entry_at(m2, j2));
            } else {
                assert(post.entry_at(m1, j1) == pre.entry_at(m1, j1));
            }
        }
        // the written page resolves to the new leaf
        assert(post.nodes@[0] == pre.nodes@[0]);
        assert(post.entry_at(0, i2z) == pre.entry_at(0, i2z));
        assert(pre.entry_ok(0, i2z));
        assert(pre.nodes@[n1].level == 1);
        assert(n1 != n0);
        assert(post.nodes@[n1] == pre.nodes@[n1]);
        assert(post.entry_at(n1, i1z) == pre.entry_at(n1, i1z));
        assert(post.entry_at(n0, i0z) == (Entry::Leaf { ppn, flags }));
        assert(post.resolve(v0) == Some((ppn, flags)));
        // every other page resolves as before
        assert forall|v: int|
            0 <= v < VPN_LIMIT && v != v0 implies #[trigger] post.resolve(v) == pre.resolve(
            v,
        ) by {
            lemma_vpn_decompose(v);
            let i2x = v / 262144;
            let i1x = (v / 512) % 512;
            let i0x = v % 512;
            assert(post.entry_at(0, i2x) == pre.entry_at(0, i2x));
            match pre.entry_at(0, i2x) {
                Entry::Branch { child: m1, .. } => {
                    assert(pre.entry_ok(0, i2x));
                    assert(m1 as int != n0);
                    assert(post.entry_at(m1 as int, i1x) == pre.entry_at(m1 as int, i1x));
                    match pre.entry_at(m1 as int, i1x) {
                        Entry::Branch { child: m0, .. } => {
                            assert(pre.entry_ok(m1 as int, i1x));
                            if m0 as int == n0 {
                                // the branches into `n0` coincide, so the
                                // paths differ only in the final index
                                assert(pre.slots_distinct(m1 as int, i1x, n1, i1z) || (m1 as int
                                    == n1 && i1x == i1z));
                                assert(m1 as int == n1 && i1x == i1z);
                                assert(pre.slots_distinct(0, i2x, 0, i2z) || i2x == i2z);
                                assert(i2x == i2z);
                                assert(i0x != i0z);
                                assert(post.entry_at(n0, i0x) == pre.entry_at(n0, i0x));
                            } else {
                                assert(post.entry_at(m0 as int, i0x) == pre.entry_at(
                                    m0 as int,
                                    i0x,
                                ));
                            }
                        },
                        _ => {},
                    }
                },
                _ => {},
            }
        }
    }
}

/// A traversal policy: decides where the walk starts, which leaf entry to
/// install at each 4 KiB position, where traversal stops, and supplies a
/// fresh frame whenever descending needs a table node that does not exist
/// yet.
pub trait Decorator: Sized {
    /// The policy's invariant, preserved by every operation.
    spec fn inv(&self) -> bool;

    /// The virtual page at which the walk begins.
    spec fn first(&self) -> int;

    /// The leaf the policy installs at page `vpn` (physical page number
    /// and permission bits), or `None` where traversal stops.
    spec fn leaf_of(&self, vpn: int) -> Option<(usize, u8)>;

    /// How many fresh table frames the policy can still supply.
    spec fn frames_left(&self) -> nat;

    /// The walk starts at `first` and never maps beyond the table's
    /// addressable window.
    proof fn lemma_window(&self)
        requires
            self.inv(),
        ensures
            0 <= self.first() <= VPN_LIMIT,
            forall|v: int| v >= VPN_LIMIT ==> #[trigger] self.leaf_of(v) is None,
    ;

    /// Called once; returns the position at which traversal begins.
    fn start(&mut self, pos: Pos) -> (r: Pos)
        requires
            old(self).inv(),
        ensures
            final (self).inv(),
            final (self).first() == old(self).first(),
            forall|v: int| #[trigger] final (self).leaf_of(v) == old(self).leaf_of(v),
            final (self).frames_left() == old(self).frames_left(),
            r.vpn as int == old(self).first(),
            r.level == 0,
    ;

    /// Called at each position that could become a leaf; returns the
    /// completed leaf entry, or `None` to end traversal.
    fn arrive(&mut self, pos: Pos) -> (r: Option<Entry>)
        requires
            old(self).inv(),
            pos.vpn <= VPN_LIMIT,
        ensures
            final (self).inv(),
            final (self).first() == old(self).first(),
            forall|v: int| #[trigger] final (self).leaf_of(v) == old(self).leaf_of(v),
            final (self).frames_left() == old(self).frames_left(),
            match old(self).leaf_of(pos.vpn as int) {
                Some((p, f)) => r == Some(Entry::Leaf { ppn: p, flags: f }),
                None => r is None,
            },
    ;

    /// Called when descending to `level` needs a table node that does not
    /// exist yet.  Succeeds exactly while the policy can still supply a
    /// frame, returning the physical address of a fresh page-aligned
    /// frame and consuming one unit of supply; on exhaustion it fails,
    /// changes nothing, and the error is fatal for the caller.
    fn meet(&mut self, level: usize, pos: Pos) -> (r: Result<usize, ExhaustedError>)
        requires
            old(self).inv(),
        ensures
            final (self).inv(),
            final (self).first() == old(self).first(),
            forall|v: int| #[trigger] final (self).leaf_of(v) == old(self).leaf_of(v),
            r.is_ok() == (old(self).frames_left() > 0),
            match r {
                Ok(a) => a as int % 4096 == 0 && final (self).frames_left() + 1 == old(
                    self,
                ).frames_left(),
                Err(_) => *final (self) == *old(self),
            },
    ;
}

/// Number of distinct `r`-page regions the page range `[lo, hi)`
/// touches.
pub open spec fn regions_touched(lo: int, hi: int, r: int) -> int {
    if hi <= lo {
        0
    } else {
        (hi - 1) / r - lo / r + 1
    }
}

/// Number of table nodes a walk over `[lo, hi)` needs below the root:
/// one level-1 node per touched 1 GiB region and one level-0 node per
/// touched 2 MiB region.
pub open spec fn span_tables(lo: int, hi: int) -> int {
    regions_touched(lo, hi, 262144) + regions_touched(lo, hi, 512)
}

/// Touched-region counts grow monotonically with the range's end.
proof fn lemma_regions_monotone(lo: int, h1: int, h2: int, r: int)
    requires
        r > 0,
        0 <= lo <= h1 <= h2,
    ensures
        regions_touched(lo, h1, r) <= regions_touched(lo, h2, r),
        regions_touched(lo, h1, r) >= 0,
{
    if lo < h1 {
        lemma_div_is_ordered(h1 - 1, h2 - 1, r);
        lemma_div_is_ordered(lo, h1 - 1, r);
    }
    if lo < h2 {
        lemma_div_is_ordered(lo, h2 - 1, r);
    }
}

/// Extending the range by one page that starts a region not touched
/// before adds one touched region.
proof fn lemma_regions_fresh_step(lo: int, v: int, r: int)
    requires
        r > 0,
        0 <= lo <= v,
        v == lo || (v - 1) / r != v / r,
    ensures
        regions_touched(lo, v + 1, r) >= regions_touched(lo, v, r) + 1,
{
    if v > lo {
        lemma_div_is_ordered(v - 1, v, r);
    }
}

/// Walks `table` from the policy's start position, installing one leaf
/// per 4 KiB page and creating missing intermediate nodes, until the
/// policy stops; returns the page number at which traversal stopped.
///
/// On success every page from the start up to the stop page resolves to
/// exactly the leaf the policy prescribes, and every other page stays
/// unmapped.
#[verifier::rlimit(100)]
pub fn walk_mut<D: Decorator>(table: &mut PageTable, policy: &mut D) -> (r: Result<
    usize,
    ExhaustedError,
>)
    requires
        old(table).wf(),
        forall|v: int| 0 <= v < VPN_LIMIT ==> #[trigger] old(table).resolve(v) is None,
        old(policy).inv(),
    ensures
        final (policy).inv(),
        final (table).wf(),
        final (policy).first() == old(policy).first(),
        forall|v: int| #[trigger] final (policy).leaf_of(v) == old(policy).leaf_of(v),
        old(policy).leaf_of(old(policy).first()) is None ==> r is Ok,
        match r {
            Ok(stop) => {
                &&& old(policy).first() <= stop as int <= VPN_LIMIT
                &&& old(policy).leaf_of(stop as int) is None
                &&& forall|v: int|
                    old(policy).first() <= v < stop as int ==> #[trigger] old(policy).leaf_of(
                        v,
                    ) is Some
                &&& forall|v: int|
                    old(policy).first() <= v < stop as int ==> #[trigger] final (table).resolve(
                        v,
                    ) == old(policy).leaf_of(v)
                &&& forall|v: int|
                    0 <= v < VPN_LIMIT && !(old(policy).first() <= v < stop as int)
                        ==> #[trigger] final (table).resolve(v) is None
            },
            Err(_) => {
                &&& final (policy).frames_left() == 0
                &&& forall|s: int|
                    #![trigger old(policy).leaf_of(s)]
                    old(policy).first() <= s <= VPN_LIMIT && old(policy).leaf_of(s) is None
                        ==> old(policy).frames_left() < span_tables(old(policy).first(), s)
            },
        },
{
    let start_pos = policy.start(Pos { vpn: 0, level: 0 });
    proof {
        policy.lemma_window();
    }
    let mut vpn = start_pos.vpn;
    loop
        invariant
            table.wf(),
            policy.inv(),
            policy.first() == old(policy).first(),
            forall|v: int| #[trigger] policy.leaf_of(v) == old(policy).leaf_of(v),
            old(policy).first() <= vpn as int <= VPN_LIMIT,
            forall|v: int|
                old(policy).first() <= v < vpn as int ==> #[trigger] old(policy).leaf_of(
                    v,
                ) is Some,
            forall|v: int|
                old(policy).first() <= v < vpn as int ==> #[trigger] table.resolve(v) == old(
                    policy,
                ).leaf_of(v),
            forall|v: int|
                0 <= v < VPN_LIMIT && !(old(policy).first() <= v < vpn as int)
                    ==> #[trigger] table.resolve(v) is None,
            policy.frames_left() + (table.nodes@.len() - old(table).nodes@.len()) == old(
                policy,
            ).frames_left(),
            table.nodes@.len() - old(table).nodes@.len() <= span_tables(
                old(policy).first(),
                vpn as int,
            ),
        decreases VPN_LIMIT - vpn,
    {
        let r = policy.arrive(Pos { vpn, level: 0 });
        match r {
            None => {
                return Ok(vpn);
            },
            Some(e) => {
                proof {
                    policy.lemma_window();
                    assert(policy.leaf_of(vpn as int) is Some);
                    assert(policy.leaf_of(vpn as int) == old(policy).leaf_of(vpn as int));
                    if vpn >= VPN_LIMIT {
                        assert(policy.leaf_of(vpn as int) is None);
                    }
                    assert(vpn < VPN_LIMIT);
                    lemma_vpn_decompose(vpn as int);
                }
                let i2 = vpn / 262144;
                let i1 = (vpn / 512) % 512;
                let i0 = vpn % 512;
                // descend to the level-1 node, creating it if missing
                let e2 = table.nodes[0].entries[i2];
                proof {
                    assert(table.entry_ok(0, i2 as int));
                }
                let ghost f0 = old(policy).first();
                let ghost init_len = old(table).nodes@.len() as int;
                let ghost head_len = table.nodes@.len() as int;
                let n1: usize;
                match e2 {
                    Entry::Branch { child, .. } => {
                        n1 = child;
                        proof {
                            lemma_regions_monotone(f0, vpn as int, vpn as int + 1, 262144);
                            lemma_regions_monotone(f0, vpn as int, vpn as int + 1, 512);
                            assert(table.nodes@.len() - init_len <= regions_touched(
                                f0,
                                vpn as int + 1,
                                262144,
                            ) + regions_touched(f0, vpn as int, 512));
                        }
                    },
                    _ => {
                        proof {
                            assert(e2 == Entry::Invalid);
                            // no earlier page of the walk shares this
                            // 1 GiB region, else its branch would exist
                            assert forall|v: int| f0 <= v < vpn as int implies #[trigger] (v
                                / 262144) != vpn as int / 262144 by {
                                if v / 262144 == vpn as int / 262144 {
                                    assert(table.resolve(v) == old(policy).leaf_of(v));
                                    assert(old(policy).leaf_of(v) is Some);
                                }
                            }
                            if vpn as int > f0 {
                                assert((vpn as int - 1) / 262144 != vpn as int / 262144);
                            }
                            lemma_regions_fresh_step(f0, vpn as int, 262144);
                            lemma_regions_monotone(f0, vpn as int, vpn as int + 1, 512);
                        }
                        let f = policy.meet(1, Pos { vpn, level: 1 });
                        let addr = match f {
                            Ok(a) => a,
                            Err(err) => {
                                proof {
                                    // the budget is spent, and every
                                    // admissible stop lies past this page
                                    assert(policy.frames_left() == 0);
                                    assert(old(policy).frames_left() == table.nodes@.len()
                                        - init_len);
                                    lemma_regions_monotone(f0, vpn as int, vpn as int + 1, 512);
                                    assert(old(policy).frames_left() < span_tables(
                                        f0,
                                        vpn as int + 1,
                                    ));
                                    assert forall|sx: int|
                                        f0 <= sx <= VPN_LIMIT && old(policy).leaf_of(
                                            sx,
                                        ) is None implies old(policy).frames_left()
                                        < span_tables(f0, sx) by {
                                        assert(old(policy).leaf_of(vpn as int) is Some);
                                        assert(sx > vpn as int);
                                        lemma_regions_monotone(
                                            f0,
                                            vpn as int + 1,
                                            sx,
                                            262144,
                                        );
                                        lemma_regions_monotone(f0, vpn as int + 1, sx, 512);
                                    }
                                    assert(!(old(policy).leaf_of(f0) is None)) by {
                                        assert(old(policy).leaf_of(vpn as int) is Some);
                                    }
                                }
                                return Err(err);
                            },
                        };
                        let ghost pre_push = *table;
                        n1 = table.push_node(addr, 1);
                        proof {
                            PageTable::lemma_resolve_after_push(pre_push, *table);
                        }
                        let ghost pre_br = *table;
                        table.set_entry(0, i2, Entry::Branch { child: n1, ppn: addr / 4096 });
                        proof {
                            assert(pre_br.entry_at(0, i2 as int) == e2);
                            assert forall|m: int, jj: int|
                                0 <= m < pre_br.nodes@.len() && 0 <= jj < 512 implies !(
                            #[trigger] pre_br.entry_at(m, jj) matches Entry::Branch {
                                child: c2,
                                ..
                            } && c2 == n1) by {
                                if m < pre_push.nodes@.len() {
                                    assert(pre_br.nodes@[m] == pre_push.nodes@[m]);
                                    assert(pre_push.entry_ok(m, jj));
                                } else {
                                    assert(pre_br.entry_at(m, jj) == Entry::Invalid);
                                }
                            }
                            PageTable::lemma_resolve_after_branch(
                                pre_br,
                                *table,
                                0,
                                i2 as int,
                                n1,
                                addr / 4096,
                            );
                            assert(table.nodes@.len() - init_len <= regions_touched(
                                f0,
                                vpn as int + 1,
                                262144,
                            ) + regions_touched(f0, vpn as int, 512));
                        }
                    },
                }
                // descend to the level-0 node, creating it if missing
                let e1 = table.nodes[n1].entries[i1];
                proof {
                    assert(table.entry_ok(n1 as int, i1 as int));
                }
                let n0: usize;
                match e1 {
                    Entry::Branch { child, .. } => {
                        n0 = child;
                        proof {
                            lemma_regions_monotone(f0, vpn as int, vpn as int + 1, 512);
                            assert(table.nodes@.len() - init_len <= span_tables(
                                f0,
                                vpn as int + 1,
                            ));
                        }
                    },
                    _ => {
                        proof {
                            assert(e1 == Entry::Invalid);
                            // no earlier page of the walk shares this
                            // 2 MiB region, else its branch would exist
                            assert forall|v: int| f0 <= v < vpn as int implies #[trigger] (v
                                / 512) != vpn as int / 512 by {
                                if v / 512 == vpn as int / 512 {
                                    lemma_div_denominator(v, 512, 512);
                                    lemma_div_denominator(vpn as int, 512, 512);
                                    assert(v / 262144 == vpn as int / 262144);
                                    assert(table.resolve(v) == old(policy).leaf_of(v));
                                    assert(old(policy).leaf_of(v) is Some);
                                    lemma_vpn_decompose(v);
                                    assert((v / 512) % 512 == i1 as int);
                                    assert(table.entry_at(n1 as int, i1 as int)
                                        == Entry::Invalid);
                                }
                            }
                            if vpn as int > f0 {
                                assert((vpn as int - 1) / 512 != vpn as int / 512);
                            }
                            lemma_regions_fresh_step(f0, vpn as int, 512);
                        }
                        let f = policy.meet(0, Pos { vpn, level: 0 });
                        let addr = match f {
                            Ok(a) => a,
                            Err(err) => {
                                proof {
                                    assert(policy.frames_left() == 0);
                                    assert(old(policy).frames_left() == table.nodes@.len()
                                        - init_len);
                                    assert(old(policy).frames_left() < span_tables(
                                        f0,
                                        vpn as int + 1,
                                    ));
                                    assert forall|sx: int|
                                        f0 <= sx <= VPN_LIMIT && old(policy).leaf_of(
                                            sx,
                                        ) is None implies old(policy).frames_left()
                                        < span_tables(f0, sx) by {
                                        assert(old(policy).leaf_of(vpn as int) is Some);
                                        assert(sx > vpn as int);
                                        lemma_regions_monotone(
                                            f0,
                                            vpn as int + 1,
                                            sx,
                                            262144,
                                        );
                                        lemma_regions_monotone(f0, vpn as int + 1, sx, 512);
                                    }
                                    assert(!(old(policy).leaf_of(f0) is None)) by {
                                        assert(old(policy).leaf_of(vpn as int) is Some);
                                    }
                                }
                                return Err(err);
                            },
                        };
                        let ghost pre_push = *table;
                        n0 = table.push_node(addr, 0);
                        proof {
                            PageTable::lemma_resolve_after_push(pre_push, *table);
                        }
                        let ghost pre_br = *table;
                        table.set_entry(n1, i1, Entry::Branch { child: n0, ppn: addr / 4096 });
                        proof {
                            assert(pre_br.entry_at(n1 as int, i1 as int) == e1);
                            assert forall|m: int, jj: int|
                                0 <= m < pre_br.nodes@.len() && 0 <= jj < 512 implies !(
                            #[trigger] pre_br.entry_at(m, jj) matches Entry::Branch {
                                child: c2,
                                ..
                            } && c2 == n0) by {
                                if m < pre_push.nodes@.len() {
                                    assert(pre_br.nodes@[m] == pre_push.nodes@[m]);
                                    assert(pre_push.entry_ok(m, jj));
                                } else {
                                    assert(pre_br.entry_at(m, jj) == Entry::Invalid);
                                }
                            }
                            PageTable::lemma_resolve_after_branch(
                                pre_br,
                                *table,
                                n1 as int,
                                i1 as int,
                                n0,
                                addr / 4096,
                            );
                            assert(table.nodes@.len() - init_len <= span_tables(
                                f0,
                                vpn as int + 1,
                            ));
                        }
                    },
                }
                // install the leaf the policy prescribed
                let leaf = match e {
                    Entry::Leaf { ppn, flags } => Entry::Leaf { ppn, flags },
                    _ => {
                        proof {
                            assert(false);
                        }
                        Entry::Invalid
                    },
                };
                let ghost pre_leaf = *table;
                table.set_entry(n0, i0, leaf);
                proof {
                    match leaf {
                        Entry::Leaf { ppn, flags } => {
                            PageTable::lemma_resolve_after_leaf(
                                pre_leaf,
                                *table,
                                n1 as int,
                                n0 as int,
                                vpn as int,
                                ppn,
                                flags,
                            );
                        },
                        _ => {
                            assert(false);
                        },
                    }
                }
                vpn = vpn + 1;
            },
        }
    }
}

/// The four linker-provided boundary addresses partitioning the kernel
/// image, preceded by the image's start: code, transition region,
/// read-only data, writable data, image end.  All are trusted to be page
/// aligned and monotonically increasing.
#[derive(Clone, Copy, Debug, PartialEq, Eq, Structural)]
pub struct KernelBounds {
    /// First address of the kernel's code.
    pub text: usize,
    /// End of the code; start of the fully-permissive transition region.
    pub transit: usize,
    /// End of the transition region; start of the read-only data.
    pub rodata: usize,
    /// End of the read-only data; start of the writable data.
    pub data: usize,
    /// End of the kernel image; nothing is mapped at or beyond it.
    pub end: usize,
}

/// The boundary addresses are page aligned, monotonically increasing and
/// inside the walker's addressable window.
pub open spec fn bounds_wf(b: KernelBounds) -> bool {
    &&& b.text as int % 4096 == 0
    &&& b.transit as int % 4096 == 0
    &&& b.rodata as int % 4096 == 0
    &&& b.data as int % 4096 == 0
    &&& b.end as int % 4096 == 0
    &&& b.text <= b.transit <= b.rodata <= b.data <= b.end
    &&& b.end < 0x8000000000
}

/// Permission bits of the region the address falls in: executable and
/// readable code, a fully permissive transition region, read-only data,
/// then read-write data; `None` at or beyond the image end.
pub open spec fn kernel_flags(b: KernelBounds, addr: int) -> Option<u8> {
    if addr < b.transit {
        Some(0x0b)
    } else if addr < b.rodata {
        Some(0x0f)
    } else if addr < b.data {
        Some(0x03)
    } else if addr < b.end {
        Some(0x07)
    } else {
        None
    }
}

/// The identity-mapped leaf the kernel policy installs at page `vpn`.
pub open spec fn kernel_leaf(b: KernelBounds, vpn: int) -> Option<(usize, u8)> {
    match kernel_flags(b, vpn * 4096) {
        Some(f) => Some((vpn as usize, f)),
        None => None,
    }
}

/// The kernel-mapping policy: builds the identity-mapped kernel address
/// space, computing each page's permissions from the boundary addresses
/// and drawing fresh table frames from the coarse allocator it owns.
pub struct KernelSpaceBuilder {
    /// The coarse allocator that table frames are drawn from.
    pub alloc: BuddyAllocator,
    /// The kernel image's boundary addresses.
    pub bounds: KernelBounds,
}

impl Decorator for KernelSpaceBuilder {
    open spec fn inv(&self) -> bool {
        &&& self.alloc.wf()
        &&& self.alloc.base_order == 12
        &&& self.alloc.free_bytes() as int % 4096 == 0
        &&& bounds_wf(self.bounds)
    }

    open spec fn first(&self) -> int {
        self.bounds.text as int / 4096
    }

    open spec fn leaf_of(&self, vpn: int) -> Option<(usize, u8)> {
        kernel_leaf(self.bounds, vpn)
    }

    open spec fn frames_left(&self) -> nat {
        self.alloc.free_bytes() / 4096
    }

    proof fn lemma_window(&self) {
        lemma_div_pos_is_pos(self.bounds.text as int, 4096);
        lemma_div_is_ordered(self.bounds.text as int, 0x8000000000 - 1, 4096);
        assert forall|v: int| v >= VPN_LIMIT implies #[trigger] self.leaf_of(v) is None by {
            assert(v * 4096 >= VPN_LIMIT * 4096) by (nonlinear_arith)
                requires
                    v >= VPN_LIMIT as int,
            ;
        }
    }

    fn start(&mut self, pos: Pos) -> (r: Pos) {
        Pos { vpn: self.bounds.text / 4096, level: 0 }
    }

    fn arrive(&mut self, pos: Pos) -> (r: Option<Entry>) {
        let addr = (pos.vpn as u64) * 4096;
        let bits: u8;
        if addr < self.bounds.transit as u64 {
            bits = 0x0b;
        } else if addr < self.bounds.rodata as u64 {
            bits = 0x0f;
        } else if addr < self.bounds.data as u64 {
            bits = 0x03;
        } else if addr < self.bounds.end as u64 {
            bits = 0x07;
        } else {
            return None;
        }
        Some(Entry::Leaf { ppn: pos.vpn, flags: bits })
    }

    fn meet(&mut self, level: usize, pos: Pos) -> (r: Result<usize, ExhaustedError>) {
        proof {
            vstd::arithmetic::power2::lemma2_to64();
            assert(4096 == pow2(12));
            // the allocator can serve one frame exactly while any free
            // bytes remain, and the free bytes are whole frames
            old(self).lemma_frames_iff_can_serve();
        }
        let f = self.alloc.allocate(4096, 4096);
        match f {
            Err(e) => {
                proof {
                    assert(*self == *old(self));
                }
                Err(e)
            },
            Ok((a, s)) => {
                proof {
                    // the coarse allocator's base order is 12, so the
                    // smallest class is exactly one frame
                    assert(self.alloc.size_of(0) == pow2(12));
                    assert(s == 4096);
                    let fb0 = old(self).alloc.free_bytes() as int;
                    let fb1 = self.alloc.free_bytes() as int;
                    let q = fb0 / 4096;
                    lemma_fundamental_div_mod(fb0, 4096);
                    assert(fb1 == (q - 1) * 4096 + 0) by (nonlinear_arith)
                        requires
                            fb0 == 4096 * q,
                            fb1 == fb0 - 4096,
                    ;
                    vstd::arithmetic::div_mod::lemma_fundamental_div_mod_converse(
                        fb1,
                        4096,
                        q - 1,
                        0,
                    );
                }
                Ok(a)
            },
        }
    }
}

impl KernelSpaceBuilder {
    /// The allocator can hand out one table frame exactly while its free
    /// lists hold any bytes at all: with base order 12 every free block
    /// is at least one whole frame.
    proof fn lemma_frames_iff_can_serve(&self)
        requires
            self.inv(),
        ensures
            self.alloc.can_serve(4096, 4096) == (self.frames_left() > 0),
            self.alloc.can_serve(4096, 4096) ==> self.alloc.free_bytes() >= 4096,
    {
        vstd::arithmetic::power2::lemma2_to64();
        let a = self.alloc;
        let fb = a.free_bytes() as int;
        assert(a.needed_size(4096, 4096) == 4096);
        assert(a.fit_order(4096, 4096) == 0);
        if a.can_serve(4096, 4096) {
            let av = a.avail_from(0);
            a.lemma_avail_from_props(0);
            a.lemma_free_bytes_lower(av, a.order_count());
            vstd::arithmetic::power2::lemma_pow2_pos((a.base_order + av) as nat);
            assert(a.list(av).len() * a.size_of(av) >= a.size_of(av)) by (nonlinear_arith)
                requires
                    a.list(av).len() >= 1,
                    a.size_of(av) > 0,
            ;
            if (12 as nat) < (a.base_order + av) as nat {
                vstd::arithmetic::power2::lemma_pow2_strictly_increases(
                    12nat,
                    (a.base_order + av) as nat,
                );
            }
            assert(fb >= 4096);
            assert(fb / 4096 >= 4096int / 4096int) by {
                lemma_div_is_ordered(4096, fb, 4096);
            }
        } else {
            a.lemma_avail_from_props(0);
            assert(a.avail_from(0) == a.order_count());
            a.lemma_avail_from_all_empty(0);
            a.lemma_free_bytes_all_empty(a.order_count());
            assert(fb == 0);
            assert(fb / 4096 == 0) by {
                vstd::arithmetic::div_mod::lemma_small_div_converse(fb, 4096);
            }
        }
    }
}

/// Builds the kernel's identity-mapped three-level address space in a
/// fresh table rooted at `root_addr`, drawing every table frame from the
/// coarse allocator.  On success every page of the kernel image resolves
/// to itself with the permission bits of its region, and nothing else is
/// mapped; an allocation failure is returned as the fatal exhaustion
/// error, with the partial table never installed.
pub fn build_kernel_table(bounds: KernelBounds, alloc: BuddyAllocator, root_addr: usize) -> (r: (
    PageTable,
    BuddyAllocator,
    Result<usize, ExhaustedError>,
))
    requires
        alloc.wf(),
        alloc.base_order == 12,
        bounds_wf(bounds),
    ensures
        r.1.wf(),
        r.1.base_order == 12,
        r.0.wf(),
        r.2 is Err ==> !r.1.can_serve(4096, 4096),
        alloc.free_bytes() / 4096 >= span_tables(
            bounds.text as int / 4096,
            bounds.end as int / 4096,
        ) ==> r.2 is Ok,
        match r.2 {
            Ok(stop) => {
                &&& stop as int == bounds.end as int / 4096
                &&& forall|v: int|
                    bounds.text as int / 4096 <= v < bounds.end as int / 4096
                        ==> #[trigger] r.0.resolve(v) == kernel_leaf(bounds, v)
                &&& forall|v: int|
                    bounds.text as int / 4096 <= v < bounds.end as int / 4096 ==> kernel_leaf(
                        bounds,
                        v,
                    ) is Some
                &&& forall|v: int|
                    0 <= v < VPN_LIMIT && !(bounds.text as int / 4096 <= v < bounds.end as int
                        / 4096) ==> #[trigger] r.0.resolve(v) is None
            },
            Err(_) => true,
        },
{
    let mut table = PageTable::new(root_addr);
    let mut policy = KernelSpaceBuilder { alloc, bounds };
    proof {
        vstd::arithmetic::power2::lemma2_to64();
        policy.alloc.lemma_free_bytes_aligned(policy.alloc.order_count());
    }
    let ghost p0 = policy;
    let res = walk_mut(&mut table, &mut policy);
    proof {
        if res is Err {
            // the pool is exhausted: no frame-sized block remains, and
            // the budget fell short of the image's table demand
            policy.lemma_frames_iff_can_serve();
            lemma_div_pos_is_pos(bounds.end as int, 4096);
            lemma_div_is_ordered(bounds.text as int, bounds.end as int, 4096);
            lemma_div_is_ordered(bounds.end as int, 0x8000000000 - 1, 4096);
            let ev = bounds.end as int / 4096;
            lemma_page_of_bound(bounds.end as int, ev);
            assert(p0.leaf_of(ev) is None);
            assert(p0.frames_left() < span_tables(p0.first(), ev));
        }
        if let Ok(stop) = res {
            // the walk stops exactly at the image's last page
            lemma_div_pos_is_pos(bounds.end as int, 4096);
            lemma_div_pos_is_pos(bounds.text as int, 4096);
            lemma_div_is_ordered(bounds.text as int, bounds.end as int, 4096);
            let ev = bounds.end as int / 4096;
            if (stop as int) < ev {
                lemma_page_in_image(bounds.end as int, stop as int);
                assert(p0.leaf_of(stop as int) is Some);
                assert(false);
            }
            if (stop as int) > ev {
                lemma_page_of_bound(bounds.end as int, ev);
                assert(p0.leaf_of(ev) is None);
                assert(p0.first() <= ev < stop as int);
                assert(p0.leaf_of(ev) is Some);
                assert(false);
            }
            assert(stop as int == ev);
        }
    }
    (table, policy.alloc, res)
}

/// A page at or beyond an aligned end address maps nothing: its base
/// address is at or beyond the end.
proof fn lemma_page_of_bound(end: int, v: int)
    requires
        end >= 0,
        end % 4096 == 0,
        v >= end / 4096,
    ensures
        v * 4096 >= end,
{
    lemma_fundamental_div_mod(end, 4096);
    assert(v * 4096 >= (end / 4096) * 4096) by (nonlinear_arith)
        requires
            v >= end / 4096,
    ;
    assert((end / 4096) * 4096 == end) by (nonlinear_arith)
        requires
            end == 4096 * (end / 4096),
    ;
}

/// A page below an aligned end address lies wholly inside the image: its
/// base address is below the end.
proof fn lemma_page_in_image(end: int, v: int)
    requires
        end >= 0,
        end % 4096 == 0,
        0 <= v < end / 4096,
    ensures
        v * 4096 < end,
{
    lemma_fundamental_div_mod(end, 4096);
    assert(v * 4096 < (end / 4096) * 4096) by (nonlinear_arith)
        requires
            v < end / 4096,
    ;
    assert((end / 4096) * 4096 == end) by (nonlinear_arith)
        requires
            end == 4096 * (end / 4096),
    ;
}

/// The index decomposition of a virtual page number: one index per level.
proof fn lemma_vpn_decompose(v: int)
    requires
        0 <= v < VPN_LIMIT,
    ensures
        v == (v / 262144) * 262144 + ((v / 512) % 512) * 512 + v % 512,
        0 <= v / 262144 < 512,
        0 <= (v / 512) % 512 < 512,
        0 <= v % 512 < 512,
{
    lemma_fundamental_div_mod(v, 512);
    lemma_fundamental_div_mod(v / 512, 512);
    lemma_div_denominator(v, 512, 512);
    lemma_mod_division_less_than_divisor(v, 512);
    lemma_mod_division_less_than_divisor(v / 512, 512);
    lemma_div_pos_is_pos(v, 512);
    lemma_div_pos_is_pos(v / 512, 512);
    lemma_div_pos_is_pos(v, 262144);
    lemma_div_is_ordered(v, VPN_LIMIT as int - 1, 262144);
    assert(v == (v / 262144) * 262144 + ((v / 512) % 512) * 512 + v % 512) by (nonlinear_arith)
        requires
            v == 512 * (v / 512) + v % 512,
            v / 512 == 512 * ((v / 512) / 512) + (v / 512) % 512,
            v / 262144 == (v / 512) / 512,
    ;
}

} // verus!
