//! Freeing an address space: the page tables of its user window and its
//! root go back to the frame pool. The kernel half (L0 slot 0, shared by every
//! space) is never followed.
use vstd::prelude::*;
use crate::abi::USER_L0_IDX;
use crate::kernel::phys::{PhysMem, FRAME_SIZE, lemma_frames_disjoint};
use crate::kernel::frames::Frame;
use crate::kernel::mmu::{Machine, entry, is_table, entry_ok, parent_ok, next_table, leaf_entry, translation, va_index,
    lemma_index_bound, others_kept, ADDR_MASK, DESC_TABLE, PA_LIMIT};

verus! {

/// The tables that table descriptors of the tables in `s` point at.
pub open spec fn below(mem: PhysMem, s: Set<u64>) -> Set<u64> {
    Set::new(|u: u64| exists|t: u64, i: int| s.contains(t) && 0 <= i < 512
        && #[trigger] is_table(entry(mem, t, i)) && entry(mem, t, i) & ADDR_MASK == u)
}

/// `t` and the tables below it, down to `d` levels (`d <= 2`).
pub open spec fn subtree(mem: PhysMem, t: u64, d: nat) -> Set<u64> {
    let s0 = set![t];
    let s1 = below(mem, s0);
    if d == 0 {
        s0
    } else if d == 1 {
        s0 + s1
    } else {
        s0 + s1 + below(mem, s1)
    }
}

/// The tables of the address space rooted at `l0` that freeing it returns:
/// the root and the tables of its user window (slot [`USER_L0_IDX`]).
pub open spec fn space_tables(mem: PhysMem, l0: u64) -> Set<u64> {
    let e = entry(mem, l0, USER_L0_IDX as int);
    if is_table(e) {
        set![l0] + subtree(mem, e & ADDR_MASK, 2)
    } else {
        set![l0]
    }
}

/// No recorded table holds a table descriptor pointing at `t`.
pub open spec fn unreferenced(m: Machine, t: u64) -> bool {
    forall|u: u64, i: int| m.tables@.dom().contains(u) && m.tables@[u] < 3 && 0 <= i < 512
        && #[trigger] is_table(entry(m.mem, u, i)) ==> entry(m.mem, u, i) & ADDR_MASK != t
}

/// The tables below the first `n` slots of `t`: the subtrees, `d - 1` levels
/// deep, of the tables its first `n` descriptors point at.
pub open spec fn below_slots(mem: PhysMem, t: u64, d: nat, n: int) -> Set<u64> {
    Set::new(|u: u64| exists|j: int| 0 <= j < n && #[trigger] is_table(entry(mem, t, j))
        && subtree(mem, entry(mem, t, j) & ADDR_MASK, (d - 1) as nat).contains(u))
}

/// A subtree of depth at most 1 is determined by the descriptors of its root.
proof fn lemma_subtree_same(mem0: PhysMem, mem1: PhysMem, c: u64, k: nat)
    requires
        k <= 1,
        forall|i: int| 0 <= i < 512 ==> #[trigger] entry(mem1, c, i) == entry(mem0, c, i),
    ensures
        subtree(mem1, c, k) == subtree(mem0, c, k),
{
    assert(below(mem1, set![c]) =~= below(mem0, set![c])) by {
        assert forall|u: u64| below(mem1, set![c]).contains(u) implies below(mem0, set![c]).contains(u) by {
            let (t, i) = choose|t: u64, i: int| set![c].contains(t) && 0 <= i < 512
                && #[trigger] is_table(entry(mem1, t, i)) && entry(mem1, t, i) & ADDR_MASK == u;
            assert(is_table(entry(mem0, t, i)));
        }
        assert forall|u: u64| below(mem0, set![c]).contains(u) implies below(mem1, set![c]).contains(u) by {
            let (t, i) = choose|t: u64, i: int| set![c].contains(t) && 0 <= i < 512
                && #[trigger] is_table(entry(mem0, t, i)) && entry(mem0, t, i) & ADDR_MASK == u;
            assert(is_table(entry(mem1, t, i)));
        }
    }
}

impl Machine {
    /// The shape of the tables below a recorded table `t` of level `lvl`
    /// (1-2): each table descriptor points at a distinct recorded table one
    /// level down, whose subtrees are disjoint, and the subtree of `t` is `t`
    /// with those.
    proof fn lemma_subtree_split(m: Machine, t: u64, lvl: nat, cd: nat)
        requires
            m.wf(),
            m.tables@.dom().contains(t),
            m.tables@[t] == lvl,
            1 <= lvl <= 2,
            cd + lvl == 2,
        ensures
            forall|i: int| 0 <= i < 512 && #[trigger] is_table(entry(m.mem, t, i)) ==> {
                let c = entry(m.mem, t, i) & ADDR_MASK;
                &&& m.tables@.dom().contains(c)
                &&& m.tables@[c] == lvl + 1
                &&& m.parents@[c] == (t, i as u64)
                &&& c != t
                &&& c != m.kernel_l1
                &&& !subtree(m.mem, c, cd).contains(t)
            },
            forall|i: int, j: int, u: u64| 0 <= i < 512 && 0 <= j < 512 && i != j
                && is_table(entry(m.mem, t, i)) && is_table(entry(m.mem, t, j))
                ==> !(#[trigger] subtree(m.mem, entry(m.mem, t, i) & ADDR_MASK, cd).contains(u)
                    && #[trigger] subtree(m.mem, entry(m.mem, t, j) & ADDR_MASK, cd).contains(u)),
            subtree(m.mem, t, (3 - lvl) as nat) == set![t] + below_slots(m.mem, t, (3 - lvl) as nat, 512),
    {
        let mem = m.mem;
        let d = (3 - lvl) as nat;
        assert forall|i: int| 0 <= i < 512 && #[trigger] is_table(entry(mem, t, i)) implies {
            let c = entry(mem, t, i) & ADDR_MASK;
            &&& m.tables@.dom().contains(c)
            &&& m.tables@[c] == lvl + 1
            &&& m.parents@[c] == (t, i as u64)
            &&& c != t
            &&& c != m.kernel_l1
            &&& !subtree(mem, c, cd).contains(t)
        } by {
            let c = entry(mem, t, i) & ADDR_MASK;
            assert(entry_ok(mem, m.tables@, t, i));
            assert(parent_ok(mem, m.tables@, m.parents@, m.kernel_l1, t, i));
            m.frames.lemma_wf_facts(&m.mem);
            assert(m.mem.has_frame(c as int));
            assert(c != m.kernel_l1);
            assert(m.parents@[c] == (t, i as u64));
            if lvl == 1 {
                if subtree(mem, c, 1).contains(t) {
                    if t != c {
                        let (x, k) = choose|x: u64, k: int| set![c].contains(x) && 0 <= k < 512
                            && #[trigger] is_table(entry(mem, x, k)) && entry(mem, x, k) & ADDR_MASK == t;
                        assert(entry_ok(mem, m.tables@, c, k));
                    }
                }
            }
        }
        assert forall|i: int, j: int, u: u64| 0 <= i < 512 && 0 <= j < 512 && i != j
            && is_table(entry(mem, t, i)) && is_table(entry(mem, t, j))
            implies !(#[trigger] subtree(mem, entry(mem, t, i) & ADDR_MASK, cd).contains(u)
                && #[trigger] subtree(mem, entry(mem, t, j) & ADDR_MASK, cd).contains(u)) by {
            let ci = entry(mem, t, i) & ADDR_MASK;
            let cj = entry(mem, t, j) & ADDR_MASK;
            assert(entry_ok(mem, m.tables@, t, i));
            assert(parent_ok(mem, m.tables@, m.parents@, m.kernel_l1, t, i));
            assert(entry_ok(mem, m.tables@, t, j));
            assert(parent_ok(mem, m.tables@, m.parents@, m.kernel_l1, t, j));
            assert(ci != cj);
            if subtree(mem, ci, cd).contains(u) && subtree(mem, cj, cd).contains(u) {
                if lvl == 1 {
                    if u == ci {
                        let (x, k) = choose|x: u64, k: int| set![cj].contains(x) && 0 <= k < 512
                            && #[trigger] is_table(entry(mem, x, k)) && entry(mem, x, k) & ADDR_MASK == u;
                        assert(entry_ok(mem, m.tables@, cj, k));
                    } else if u == cj {
                        let (x, k) = choose|x: u64, k: int| set![ci].contains(x) && 0 <= k < 512
                            && #[trigger] is_table(entry(mem, x, k)) && entry(mem, x, k) & ADDR_MASK == u;
                        assert(entry_ok(mem, m.tables@, ci, k));
                    } else {
                        let (x, k) = choose|x: u64, k: int| set![ci].contains(x) && 0 <= k < 512
                            && #[trigger] is_table(entry(mem, x, k)) && entry(mem, x, k) & ADDR_MASK == u;
                        let (y, l) = choose|y: u64, l: int| set![cj].contains(y) && 0 <= l < 512
                            && #[trigger] is_table(entry(mem, y, l)) && entry(mem, y, l) & ADDR_MASK == u;
                        assert(parent_ok(mem, m.tables@, m.parents@, m.kernel_l1, ci, k));
                        assert(parent_ok(mem, m.tables@, m.parents@, m.kernel_l1, cj, l));
                        assert(entry_ok(mem, m.tables@, ci, k));
                    }
                }
            }
        }
        let whole = subtree(mem, t, d);
        let parts = set![t] + below_slots(mem, t, d, 512);
        assert forall|u: u64| whole.contains(u) implies parts.contains(u) by {
            if u != t {
                if below(mem, set![t]).contains(u) {
                    let (x, k) = choose|x: u64, k: int| set![t].contains(x) && 0 <= k < 512
                        && #[trigger] is_table(entry(mem, x, k)) && entry(mem, x, k) & ADDR_MASK == u;
                    assert(subtree(mem, entry(mem, t, k) & ADDR_MASK, (d - 1) as nat).contains(u));
                } else {
                    assert(d == 2);
                    let (x, k) = choose|x: u64, k: int| below(mem, set![t]).contains(x) && 0 <= k < 512
                        && #[trigger] is_table(entry(mem, x, k)) && entry(mem, x, k) & ADDR_MASK == u;
                    let (y, l) = choose|y: u64, l: int| set![t].contains(y) && 0 <= l < 512
                        && #[trigger] is_table(entry(mem, y, l)) && entry(mem, y, l) & ADDR_MASK == x;
                    assert(below(mem, set![x]).contains(u));
                    assert(subtree(mem, entry(mem, t, l) & ADDR_MASK, 1).contains(u));
                }
            }
        }
        assert forall|u: u64| parts.contains(u) implies whole.contains(u) by {
            if u != t {
                let j = choose|j: int| 0 <= j < 512 && #[trigger] is_table(entry(mem, t, j))
                    && subtree(mem, entry(mem, t, j) & ADDR_MASK, (d - 1) as nat).contains(u);
                let c = entry(mem, t, j) & ADDR_MASK;
                assert(below(mem, set![t]).contains(c));
                if u != c {
                    let (x, k) = choose|x: u64, k: int| set![c].contains(x) && 0 <= k < 512
                        && #[trigger] is_table(entry(mem, x, k)) && entry(mem, x, k) & ADDR_MASK == u;
                    assert(below(mem, below(mem, set![t])).contains(u));
                }
            }
        }
        assert(whole =~= parts);
    }

    /// Forgetting an unreferenced table (other than the kernel's) keeps the
    /// invariant.
    proof fn lemma_unregister(m0: Machine, m1: Machine, t: u64)
        requires
            m0.wf(),
            m0.tables@.dom().contains(t),
            unreferenced(m0, t),
            t != m0.kernel_l1,
            t != m0.kernel_ttbr0,
            m1 == (Machine { tables: Ghost(m0.tables@.remove(t)), ..m0 }),
        ensures
            m1.wf(),
    {
        assert forall|u: u64, i: int| m1.tables@.dom().contains(u) && m1.tables@[u] < 3 && 0 <= i < 512
            implies #[trigger] entry_ok(m1.mem, m1.tables@, u, i) by {
            assert(entry_ok(m0.mem, m0.tables@, u, i));
        }
        assert forall|u: u64, i: int| m1.tables@.dom().contains(u) && m1.tables@[u] < 3 && 0 <= i < 512
            implies #[trigger] parent_ok(m1.mem, m1.tables@, m1.parents@, m1.kernel_l1, u, i) by {
            assert(parent_ok(m0.mem, m0.tables@, m0.parents@, m0.kernel_l1, u, i));
        }
    }
}

impl Machine {
    /// Free the table `t` (of level `lvl`, `d` levels above the leaves) and
    /// every table below it, children first. Returns the frames freed, most
    /// recent first.
    #[verifier::rlimit(60)]
    fn free_subtree(&mut self, t: u64, d: u64, Ghost(lvl): Ghost<nat>) -> (freed: Ghost<Seq<u64>>)
        requires
            old(self).wf(),
            old(self).tables@.dom().contains(t),
            old(self).tables@[t] == lvl,
            1 <= lvl <= 3,
            lvl + d == 3,
            t != old(self).kernel_l1,
            old(self).kernel_l1 != 0,
            unreferenced(*old(self), t),
        ensures
            final(self).wf(),
            final(self).same_regs(old(self)),
            final(self).parents == old(self).parents,
            final(self).tables@ == old(self).tables@.remove_keys(subtree(old(self).mem, t, d as nat)),
            final(self).free() == freed@ + old(self).free(),
            forall|x: u64| freed@.contains(x) <==> subtree(old(self).mem, t, d as nat).contains(x),
            forall|g: u64, i: int| old(self).mem.has_frame(g as int) && !subtree(old(self).mem, t, d as nat).contains(g)
                && 0 <= i < 512 ==> #[trigger] entry(final(self).mem, g, i) == entry(old(self).mem, g, i),
        decreases d,
    {
        let ghost m0 = *self;
        proof {
            m0.frames.lemma_wf_facts(&m0.mem);
            assert(m0.mem.has_frame(t as int));
            let m1 = Machine { tables: Ghost(m0.tables@.remove(t)), ..m0 };
            Machine::lemma_unregister(m0, m1, t);
            self.tables@ = self.tables@.remove(t);
            assert(*self == m1);
        }
        let ghost mr = *self;
        let ghost mut freed: Seq<u64> = Seq::empty();
        if d > 0 {
            proof {
                Machine::lemma_subtree_split(m0, t, lvl, (d - 1) as nat);
                assert(below_slots(m0.mem, t, d as nat, 0) =~= Set::<u64>::empty());
                assert(mr.tables@.remove_keys(below_slots(m0.mem, t, d as nat, 0)) =~= mr.tables@);
            }
            let mut i: u64 = 0;
            while i < 512
                invariant
                    m0.wf(),
                    mr.wf(),
                    m0.mem.has_frame(t as int),
                    m0.tables@.dom().contains(t),
                    m0.tables@[t] == lvl,
                    1 <= lvl <= 2,
                    lvl + d == 3,
                    mr == (Machine { tables: Ghost(m0.tables@.remove(t)), ..m0 }),
                    i <= 512,
                    self.wf(),
                    self.same_regs(&m0),
                    m0.kernel_l1 != 0,
                    self.parents == m0.parents,
                    self.tables@ == mr.tables@.remove_keys(below_slots(m0.mem, t, d as nat, i as int)),
                    self.free() == freed + m0.free(),
                    forall|x: u64| freed.contains(x) <==> below_slots(m0.mem, t, d as nat, i as int).contains(x),
                    forall|g: u64, j: int| m0.mem.has_frame(g as int) && !below_slots(m0.mem, t, d as nat, i as int).contains(g)
                        && 0 <= j < 512 ==> #[trigger] entry(self.mem, g, j) == entry(m0.mem, g, j),
                    forall|k: int| 0 <= k < 512 && #[trigger] is_table(entry(m0.mem, t, k)) ==> {
                        let c = entry(m0.mem, t, k) & ADDR_MASK;
                        &&& m0.tables@.dom().contains(c)
                        &&& m0.tables@[c] == lvl + 1
                        &&& m0.parents@[c] == (t, k as u64)
                        &&& c != t
                        &&& c != m0.kernel_l1
                        &&& !subtree(m0.mem, c, (d - 1) as nat).contains(t)
                    },
                    forall|k: int, j: int, u: u64| 0 <= k < 512 && 0 <= j < 512 && k != j
                        && is_table(entry(m0.mem, t, k)) && is_table(entry(m0.mem, t, j))
                        ==> !(#[trigger] subtree(m0.mem, entry(m0.mem, t, k) & ADDR_MASK, (d - 1) as nat).contains(u)
                            && #[trigger] subtree(m0.mem, entry(m0.mem, t, j) & ADDR_MASK, (d - 1) as nat).contains(u)),
                decreases 512 - i,
            {
                proof {
                    assert(!below_slots(m0.mem, t, d as nat, i as int).contains(t)) by {
                        if below_slots(m0.mem, t, d as nat, i as int).contains(t) {
                            let j = choose|j: int| 0 <= j < i && #[trigger] is_table(entry(m0.mem, t, j))
                                && subtree(m0.mem, entry(m0.mem, t, j) & ADDR_MASK, (d - 1) as nat).contains(t);
                        }
                    }
                    assert(entry(self.mem, t, i as int) == entry(m0.mem, t, i as int));
                    self.frames.lemma_wf_facts(&self.mem);
                }
                let e = self.mem.read_u64(t + 8 * i);
                let ghost before = *self;
                let ghost slots = below_slots(m0.mem, t, d as nat, i as int);
                if e & DESC_TABLE == DESC_TABLE {
                    let c = e & ADDR_MASK;
                    proof {
                        let cd = (d - 1) as nat;
                        assert(is_table(entry(m0.mem, t, i as int)));
                        assert(subtree(m0.mem, c, cd).contains(c));
                        assert(!slots.contains(c)) by {
                            if slots.contains(c) {
                                let j = choose|j: int| 0 <= j < i && #[trigger] is_table(entry(m0.mem, t, j))
                                    && subtree(m0.mem, entry(m0.mem, t, j) & ADDR_MASK, cd).contains(c);
                                assert(subtree(m0.mem, entry(m0.mem, t, i as int) & ADDR_MASK, cd).contains(c));
                            }
                        }
                        assert(self.tables@.dom().contains(c));
                        assert forall|u: u64, k: int| self.tables@.dom().contains(u) && self.tables@[u] < 3 && 0 <= k < 512
                            && #[trigger] is_table(entry(self.mem, u, k)) implies entry(self.mem, u, k) & ADDR_MASK != c by {
                            assert(m0.tables@.dom().contains(u));
                            assert(m0.mem.has_frame(u as int));
                            assert(!slots.contains(u));
                            assert(entry(self.mem, u, k) == entry(m0.mem, u, k));
                            assert(parent_ok(m0.mem, m0.tables@, m0.parents@, m0.kernel_l1, u, k));
                            assert(entry_ok(m0.mem, m0.tables@, u, k));
                        }
                        lemma_subtree_same(m0.mem, self.mem, c, cd);
                    }
                    let sub = self.free_subtree(c, d - 1, Ghost(lvl + 1));
                    proof {
                        let cd = (d - 1) as nat;
                        let sc = subtree(m0.mem, c, cd);
                        let next = below_slots(m0.mem, t, d as nat, i + 1);
                        assert(next =~= slots + sc) by {
                            assert forall|u: u64| next.contains(u) implies (slots + sc).contains(u) by {
                                let j = choose|j: int| 0 <= j < i + 1 && #[trigger] is_table(entry(m0.mem, t, j))
                                    && subtree(m0.mem, entry(m0.mem, t, j) & ADDR_MASK, cd).contains(u);
                                if j < i {
                                    assert(slots.contains(u));
                                }
                            }
                            assert forall|u: u64| (slots + sc).contains(u) implies next.contains(u) by {
                                if slots.contains(u) {
                                    let j = choose|j: int| 0 <= j < i && #[trigger] is_table(entry(m0.mem, t, j))
                                        && subtree(m0.mem, entry(m0.mem, t, j) & ADDR_MASK, cd).contains(u);
                                    assert(0 <= j < i + 1);
                                }
                            }
                        }
                        assert(self.tables@ =~= mr.tables@.remove_keys(next));
                        let prev = freed;
                        assert(forall|x: u64| prev.contains(x) <==> slots.contains(x));
                        assert(forall|x: u64| sub@.contains(x) <==> sc.contains(x));
                        freed = sub@ + prev;
                        assert forall|x: u64| freed.contains(x) <==> next.contains(x) by {
                            if freed.contains(x) {
                                let k = choose|k: int| 0 <= k < freed.len() && freed[k] == x;
                                if k < sub@.len() {
                                    assert(sub@[k] == x);
                                    assert(sub@.contains(x));
                                } else {
                                    assert(prev[k - sub@.len()] == x);
                                    assert(prev.contains(x));
                                }
                            }
                            if next.contains(x) {
                                if sc.contains(x) {
                                    assert(sub@.contains(x));
                                    let k = choose|k: int| 0 <= k < sub@.len() && sub@[k] == x;
                                    assert(freed[k] == x);
                                } else {
                                    assert(prev.contains(x));
                                    let k = choose|k: int| 0 <= k < prev.len() && prev[k] == x;
                                    assert(freed[sub@.len() + k] == x);
                                }
                            }
                        }
                        assert forall|g: u64, j: int| m0.mem.has_frame(g as int) && !next.contains(g)
                            && 0 <= j < 512 implies #[trigger] entry(self.mem, g, j) == entry(m0.mem, g, j) by {
                            assert(entry(before.mem, g, j) == entry(m0.mem, g, j));
                        }
                    }
                } else {
                    proof {
                        assert(!is_table(entry(m0.mem, t, i as int))) by {
                            assert(e & 3 == 3 <==> e & DESC_TABLE == DESC_TABLE);
                        }
                        assert(below_slots(m0.mem, t, d as nat, i + 1) =~= slots) by {
                            assert forall|u: u64| below_slots(m0.mem, t, d as nat, i + 1).contains(u) implies slots.contains(u) by {
                                let j = choose|j: int| 0 <= j < i + 1 && #[trigger] is_table(entry(m0.mem, t, j))
                                    && subtree(m0.mem, entry(m0.mem, t, j) & ADDR_MASK, (d - 1) as nat).contains(u);
                            }
                        }
                    }
                }
                i = i + 1;
            }
        }
        proof {
            if d > 0 {
                Machine::lemma_subtree_split(m0, t, lvl, (d - 1) as nat);
                assert(!below_slots(m0.mem, t, d as nat, 512).contains(t)) by {
                    if below_slots(m0.mem, t, d as nat, 512).contains(t) {
                        let j = choose|j: int| 0 <= j < 512 && #[trigger] is_table(entry(m0.mem, t, j))
                            && subtree(m0.mem, entry(m0.mem, t, j) & ADDR_MASK, (d - 1) as nat).contains(t);
                    }
                }
            } else {
                assert(freed =~= Seq::<u64>::empty());
            }
            assert(!m0.free().contains(t));
            assert(!freed.contains(t));
            assert(!self.free().contains(t)) by {
                if self.free().contains(t) {
                    let k = choose|k: int| 0 <= k < self.free().len() && self.free()[k] == t;
                    if k < freed.len() {
                        assert(freed[k] == t);
                    } else {
                        assert(m0.free()[k - freed.len()] == t);
                    }
                }
            }
        }
        let ghost pre = *self;
        self.free_frame(Frame::at(t));
        proof {
            let whole = subtree(m0.mem, t, d as nat);
            let rest = if d > 0 { below_slots(m0.mem, t, d as nat, 512) } else { Set::<u64>::empty() };
            assert(whole =~= set![t] + rest) by {
                if d == 0 {
                    assert(whole =~= set![t]);
                }
            }
            assert(self.tables@ =~= m0.tables@.remove_keys(whole));
            let old_freed = freed;
            assert(forall|x: u64| old_freed.contains(x) <==> rest.contains(x));
            freed = seq![t] + old_freed;
            assert(self.free() =~= freed + m0.free());
            assert forall|x: u64| freed.contains(x) <==> whole.contains(x) by {
                if freed.contains(x) {
                    let k = choose|k: int| 0 <= k < freed.len() && freed[k] == x;
                    if k > 0 {
                        assert(old_freed[k - 1] == x);
                        assert(old_freed.contains(x));
                    }
                }
                if whole.contains(x) {
                    if x == t {
                        assert(freed[0] == t);
                    } else {
                        assert(rest.contains(x));
                        assert(old_freed.contains(x));
                        let k = choose|k: int| 0 <= k < old_freed.len() && old_freed[k] == x;
                        assert(freed[k + 1] == x);
                    }
                }
            }
            assert forall|g: u64, j: int| m0.mem.has_frame(g as int) && !whole.contains(g)
                && 0 <= j < 512 implies #[trigger] entry(self.mem, g, j) == entry(m0.mem, g, j) by {
                assert(entry(pre.mem, g, j) == entry(m0.mem, g, j));
            }
        }
        Ghost(freed)
    }
}

/// `m1` is `m0` after freeing the space rooted at `root`: its tables are
/// forgotten and their frames pushed onto the pool, in some order.
pub open spec fn space_freed(m0: Machine, m1: Machine, root: u64) -> bool {
    &&& m1.tables@ == m0.tables@.remove_keys(space_tables(m0.mem, root))
    &&& exists|freed: Seq<u64>| {
        &&& m1.free() == freed + m0.free()
        &&& forall|x: u64| #[trigger] freed.contains(x) <==> space_tables(m0.mem, root).contains(x)
    }
}

/// What the tables of a space are: its root, and, when its user slot holds a
/// table, the L1 that slot points at, that L1's children, and their children.
proof fn lemma_space_members(m: Machine, l0: u64)
    requires
        m.wf(),
        m.kernel_l1 != 0,
        m.is_root(l0),
        l0 != m.kernel_ttbr0,
    ensures
        forall|x: u64| #[trigger] space_tables(m.mem, l0).contains(x) ==> {
            &&& m.tables@.dom().contains(x)
            &&& x != m.kernel_l1
            &&& x == l0 || {
                let u1 = entry(m.mem, l0, 1) & ADDR_MASK;
                &&& is_table(entry(m.mem, l0, 1))
                &&& (x == u1 && m.tables@[x] == 1 && m.parents@[x] == (l0, 1u64))
                    || (m.tables@[x] == 2 && m.parents@[x].0 == u1)
                    || (m.tables@[x] == 3 && m.tables@[m.parents@[x].0] == 2 && m.parents@[m.parents@[x].0].0 == u1)
            }
        },
{
    let mem = m.mem;
    let e = entry(mem, l0, 1);
    if is_table(e) {
        let u1 = e & ADDR_MASK;
        assert(entry_ok(mem, m.tables@, l0, 1));
        assert(parent_ok(mem, m.tables@, m.parents@, m.kernel_l1, l0, 1));
        let s1 = below(mem, set![u1]);
        assert forall|c: u64| #[trigger] s1.contains(c) implies m.tables@.dom().contains(c) && m.tables@[c] == 2
            && m.parents@[c].0 == u1 && c != m.kernel_l1 by {
            let (x, k) = choose|x: u64, k: int| set![u1].contains(x) && 0 <= k < 512
                && #[trigger] is_table(entry(mem, x, k)) && entry(mem, x, k) & ADDR_MASK == c;
            assert(entry_ok(mem, m.tables@, u1, k));
            assert(parent_ok(mem, m.tables@, m.parents@, m.kernel_l1, u1, k));
        }
        assert forall|c: u64| #[trigger] below(mem, s1).contains(c) implies m.tables@.dom().contains(c)
            && m.tables@[c] == 3 && m.tables@[m.parents@[c].0] == 2 && m.parents@[m.parents@[c].0].0 == u1
            && c != m.kernel_l1 by {
            let (x, k) = choose|x: u64, k: int| s1.contains(x) && 0 <= k < 512
                && #[trigger] is_table(entry(mem, x, k)) && entry(mem, x, k) & ADDR_MASK == c;
            assert(entry_ok(mem, m.tables@, x, k));
            assert(parent_ok(mem, m.tables@, m.parents@, m.kernel_l1, x, k));
        }
    }
}

/// The walk to any address from another root meets none of the tables of the
/// space rooted at `l0`.
proof fn lemma_walk_avoids_space(m: Machine, l0: u64, r: u64, va: u64)
    requires
        m.wf(),
        m.kernel_l1 != 0,
        m.is_root(l0),
        l0 != m.kernel_ttbr0,
        m.is_root(r),
        r != l0,
    ensures
        !space_tables(m.mem, l0).contains(r),
        next_table(m.mem, r, va, 0) matches Some(t1) ==> {
            &&& m.tables@.dom().contains(t1)
            &&& !space_tables(m.mem, l0).contains(t1)
            &&& next_table(m.mem, t1, va, 1) matches Some(t2) ==> {
                &&& m.tables@.dom().contains(t2)
                &&& !space_tables(m.mem, l0).contains(t2)
                &&& next_table(m.mem, t2, va, 2) matches Some(t3) ==> {
                    &&& m.tables@.dom().contains(t3)
                    &&& !space_tables(m.mem, l0).contains(t3)
                }
            }
        },
{
    let mem = m.mem;
    let st = space_tables(mem, l0);
    lemma_space_members(m, l0);
    lemma_index_bound(va, 0);
    lemma_index_bound(va, 1);
    lemma_index_bound(va, 2);
    let u1 = entry(mem, l0, 1) & ADDR_MASK;
    if is_table(entry(mem, l0, 1)) {
        assert(entry_ok(mem, m.tables@, l0, 1));
        assert(parent_ok(mem, m.tables@, m.parents@, m.kernel_l1, l0, 1));
    }
    if st.contains(r) {
        assert(m.tables@[r] == 0);
    }
    let i0 = va_index(va, 0) as int;
    if let Some(t1) = next_table(mem, r, va, 0) {
        assert(entry_ok(mem, m.tables@, r, i0));
        assert(parent_ok(mem, m.tables@, m.parents@, m.kernel_l1, r, i0));
        assert(m.tables@[t1] == 1);
        if st.contains(t1) {
            assert(t1 == u1);
        }
        let i1 = va_index(va, 1) as int;
        if let Some(t2) = next_table(mem, t1, va, 1) {
            assert(entry_ok(mem, m.tables@, t1, i1));
            assert(parent_ok(mem, m.tables@, m.parents@, m.kernel_l1, t1, i1));
            assert(m.parents@[t2] == (t1, i1 as u64));
            let i2 = va_index(va, 2) as int;
            if let Some(t3) = next_table(mem, t2, va, 2) {
                assert(entry_ok(mem, m.tables@, t2, i2));
                assert(parent_ok(mem, m.tables@, m.parents@, m.kernel_l1, t2, i2));
                assert(m.parents@[t3] == (t2, i2 as u64));
            }
        }
    }
}

impl Machine {
    /// Free the address space rooted at `l0` (a `TTBR0` value): the tables of
    /// its user window, deepest first, then the root itself go back to the
    /// pool. Slot 0 (the shared kernel L1) is never followed. The space must
    /// not be the boot space nor the live one.
    #[verifier::rlimit(40)]
    pub fn free_address_space(&mut self, l0: u64)
        requires
            old(self).wf(),
            old(self).kernel_l1 != 0,
            old(self).is_root(l0 & ADDR_MASK),
            l0 & ADDR_MASK != old(self).kernel_ttbr0,
            l0 & ADDR_MASK != old(self).ttbr0 & ADDR_MASK,
        ensures
            final(self).wf(),
            final(self).same_regs(old(self)),
            final(self).parents == old(self).parents,
            space_freed(*old(self), *final(self), l0 & ADDR_MASK),
            forall|g: u64, i: int| old(self).mem.has_frame(g as int)
                && !space_tables(old(self).mem, l0 & ADDR_MASK).contains(g) && 0 <= i < 512
                ==> #[trigger] entry(final(self).mem, g, i) == entry(old(self).mem, g, i),
            others_kept(*old(self), *final(self), l0 & ADDR_MASK),
    {
        let root = l0 & ADDR_MASK;
        let ghost m0 = *self;
        proof {
            m0.frames.lemma_wf_facts(&m0.mem);
            assert(m0.mem.has_frame(root as int));
            assert(unreferenced(m0, root)) by {
                assert forall|u: u64, i: int| m0.tables@.dom().contains(u) && m0.tables@[u] < 3 && 0 <= i < 512
                    && #[trigger] is_table(entry(m0.mem, u, i)) implies entry(m0.mem, u, i) & ADDR_MASK != root by {
                    assert(entry_ok(m0.mem, m0.tables@, u, i));
                }
            }
            let m1 = Machine { tables: Ghost(m0.tables@.remove(root)), ..m0 };
            Machine::lemma_unregister(m0, m1, root);
            self.tables@ = self.tables@.remove(root);
            assert(*self == m1);
        }
        let ghost mr = *self;
        let ghost mut freed: Seq<u64> = Seq::empty();
        let ghost user = entry(m0.mem, root, USER_L0_IDX as int);
        proof {
            self.frames.lemma_wf_facts(&self.mem);
        }
        let e = self.mem.read_u64(root + 8 * USER_L0_IDX);
        assert(e == user);
        if e & DESC_TABLE == DESC_TABLE {
            let l1 = e & ADDR_MASK;
            proof {
                assert(is_table(user)) by {
                    assert(e & 3 == 3 <==> e & DESC_TABLE == DESC_TABLE) by (bit_vector);
                }
                assert(entry_ok(m0.mem, m0.tables@, root, 1));
                assert(parent_ok(m0.mem, m0.tables@, m0.parents@, m0.kernel_l1, root, 1));
                assert(l1 != m0.kernel_l1);
                assert(self.tables@.dom().contains(l1));
                assert(self.tables@[l1] == 1);
                assert(unreferenced(*self, l1)) by {
                    assert forall|u: u64, i: int| self.tables@.dom().contains(u) && self.tables@[u] < 3 && 0 <= i < 512
                        && #[trigger] is_table(entry(self.mem, u, i)) implies entry(self.mem, u, i) & ADDR_MASK != l1 by {
                        assert(parent_ok(m0.mem, m0.tables@, m0.parents@, m0.kernel_l1, u, i));
                    }
                }
            }
            let sub = self.free_subtree(l1, 2, Ghost(1));
            proof {
                freed = sub@;
                // Nothing below the user window is an L0 table, so the root is
                // not among the frames just freed.
                assert(!subtree(m0.mem, l1, 2).contains(root)) by {
                    let s1 = below(m0.mem, set![l1]);
                    assert forall|c: u64| #[trigger] s1.contains(c) implies m0.tables@.dom().contains(c) && m0.tables@[c] == 2 by {
                        let (x, k) = choose|x: u64, k: int| set![l1].contains(x) && 0 <= k < 512
                            && #[trigger] is_table(entry(m0.mem, x, k)) && entry(m0.mem, x, k) & ADDR_MASK == c;
                        assert(entry_ok(m0.mem, m0.tables@, l1, k));
                    }
                    if below(m0.mem, s1).contains(root) {
                        let (x, k) = choose|x: u64, k: int| s1.contains(x) && 0 <= k < 512
                            && #[trigger] is_table(entry(m0.mem, x, k)) && entry(m0.mem, x, k) & ADDR_MASK == root;
                        assert(entry_ok(m0.mem, m0.tables@, x, k));
                    }
                    if s1.contains(root) {
                        assert(m0.tables@[root] == 2);
                    }
                }
                assert(self.tables@ =~= m0.tables@.remove_keys(space_tables(m0.mem, root)));
            }
        } else {
            proof {
                assert(!is_table(user)) by {
                    assert(e & 3 == 3 <==> e & DESC_TABLE == DESC_TABLE) by (bit_vector);
                }
                assert(self.tables@ =~= m0.tables@.remove_keys(space_tables(m0.mem, root)));
            }
        }
        proof {
            assert(!freed.contains(root));
            assert(!m0.free().contains(root));
            assert(!self.free().contains(root)) by {
                if self.free().contains(root) {
                    let k = choose|k: int| 0 <= k < self.free().len() && self.free()[k] == root;
                    if k < freed.len() {
                        assert(freed[k] == root);
                    } else {
                        assert(m0.free()[k - freed.len()] == root);
                    }
                }
            }
        }
        let ghost pre = *self;
        self.free_frame(Frame::at(root));
        proof {
            let st = space_tables(m0.mem, root);
            let old_freed = freed;
            freed = seq![root] + old_freed;
            assert(self.free() =~= freed + m0.free());
            assert forall|x: u64| #[trigger] freed.contains(x) <==> st.contains(x) by {
                if freed.contains(x) {
                    let k = choose|k: int| 0 <= k < freed.len() && freed[k] == x;
                    if k > 0 {
                        assert(old_freed[k - 1] == x);
                        assert(old_freed.contains(x));
                    }
                }
                if st.contains(x) {
                    if x == root {
                        assert(freed[0] == root);
                    } else {
                        assert(old_freed.contains(x));
                        let k = choose|k: int| 0 <= k < old_freed.len() && old_freed[k] == x;
                        assert(freed[k + 1] == x);
                    }
                }
            }
            assert forall|g: u64, i: int| m0.mem.has_frame(g as int) && !st.contains(g) && 0 <= i < 512
                implies #[trigger] entry(self.mem, g, i) == entry(m0.mem, g, i) by {
                assert(entry(pre.mem, g, i) == entry(m0.mem, g, i));
            }
            assert forall|r: u64, va: u64| m0.is_root(r) && r != root
                implies #[trigger] translation(self.mem, r, va) == translation(m0.mem, r, va) by {
                lemma_walk_avoids_space(m0, root, r, va);
                m0.frames.lemma_wf_facts(&m0.mem);
                lemma_index_bound(va, 0);
                lemma_index_bound(va, 1);
                lemma_index_bound(va, 2);
                lemma_index_bound(va, 3);
                assert(m0.mem.has_frame(r as int));
                assert(entry(self.mem, r, va_index(va, 0) as int) == entry(m0.mem, r, va_index(va, 0) as int));
                if let Some(t1) = next_table(m0.mem, r, va, 0) {
                    assert(m0.mem.has_frame(t1 as int));
                    assert(entry(self.mem, t1, va_index(va, 1) as int) == entry(m0.mem, t1, va_index(va, 1) as int));
                    if let Some(t2) = next_table(m0.mem, t1, va, 1) {
                        assert(m0.mem.has_frame(t2 as int));
                        assert(entry(self.mem, t2, va_index(va, 2) as int) == entry(m0.mem, t2, va_index(va, 2) as int));
                        if let Some(t3) = next_table(m0.mem, t2, va, 2) {
                            assert(m0.mem.has_frame(t3 as int));
                            assert(entry(self.mem, t3, va_index(va, 3) as int) == entry(m0.mem, t3, va_index(va, 3) as int));
                        }
                    }
                }
                assert(leaf_entry(self.mem, r, va) == leaf_entry(m0.mem, r, va));
            }
        }
    }
}

} // verus!
