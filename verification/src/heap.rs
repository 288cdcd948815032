//! The traced arena heap: slots holding embedding-chain values, the
//! reference-counted rooting table, and the collector.
//!
//! Liveness policy: only the owning downward links (the children lists) are
//! traced. The weak upward links (`parent`, owning document) are excluded
//! from tracing, so a slot is live exactly while it, or an ancestor through
//! owning links, is rooted. When a dead parent is reclaimed while a rooted
//! child survives, the child's weak upward link is cleared rather than left
//! dangling.
//!
//! The rooting discipline is enforced statically: every accessor requires
//! the slot to be in use, and the collector's contract only guarantees
//! survival for slots that are live. A caller that lets an unrooted handle
//! cross a collection point therefore cannot discharge the accessor's
//! precondition afterwards, and the program is rejected at verification
//! time rather than failing at run time.

use vstd::prelude::*;
use crate::chain::DomValue;
use crate::chain::Node;

verus! {

/// Allocation failure: the heap is at capacity and a forced collection
/// cycle freed nothing. The caller's context cannot continue; the error is
/// surfaced so that the surrounding program can terminate it.
#[derive(Clone, Copy, PartialEq, Eq, Structural, Debug)]
pub enum AllocError {
    Exhausted,
}

/// An opaque handle to one heap slot. Holding a handle confers no liveness:
/// it must be rooted before any operation that may trigger a collection.
#[derive(Clone, Copy, PartialEq, Eq, Structural, Debug)]
pub struct HeapSlot {
    pub index: usize,
}

/// A scope-bound marker that keeps its target slot reachable while held.
/// Guards are created by rooting and consumed exactly once by unrooting;
/// they cannot be duplicated, so the per-slot root count tracks the number
/// of guards alive over that slot.
pub struct RootGuard {
    slot: HeapSlot,
}

impl RootGuard {
    /// The slot this guard keeps alive.
    pub closed spec fn target(self) -> HeapSlot {
        self.slot
    }

    /// The slot this guard keeps alive.
    pub fn handle(&self) -> (h: HeapSlot)
        ensures
            h == self.target(),
    {
        self.slot
    }
}

/// One allocation: an embedding-chain value together with its root count
/// and its reflector link (the index of the paired scripting-runtime
/// object, once reflection has happened).
pub struct Slot {
    pub value: DomValue,
    pub root_count: u64,
    pub reflected: Option<usize>,
}

/// State of one arena cell.
pub enum SlotState {
    Free,
    Used(Slot),
}

/// The traced arena: a bounded vector of slots. `capacity` is fixed at
/// construction and models the memory available to this context.
pub struct Heap {
    pub slots: Vec<SlotState>,
    pub capacity: usize,
}

impl Heap {
    pub open spec fn in_bounds(self, i: int) -> bool {
        0 <= i < self.slots@.len()
    }

    pub open spec fn is_used(self, i: int) -> bool {
        self.in_bounds(i) && self.slots@[i] is Used
    }

    pub open spec fn slot_of(self, i: int) -> Slot
        recommends
            self.is_used(i),
    {
        self.slots@[i]->Used_0
    }

    pub open spec fn node_of(self, i: int) -> Node
        recommends
            self.is_used(i),
    {
        self.slot_of(i).value.spec_node()
    }

    /// The slot is held by at least one root guard.
    pub open spec fn rooted(self, i: int) -> bool
        recommends
            self.is_used(i),
    {
        self.slot_of(i).root_count > 0
    }

    /// Consistency of one child link: the child cell is in use and points
    /// back up at its parent.
    pub open spec fn child_ok(self, i: int, c: usize) -> bool {
        &&& self.is_used(c as int)
        &&& self.node_of(c as int).parent == Some(i as usize)
    }

    /// Well-formedness of one used cell: an attached node sits exactly one
    /// level below its parent and is listed among the parent's children;
    /// every child link is consistent, and no child is owned twice.
    pub open spec fn wf_at(self, i: int) -> bool
        recommends
            self.is_used(i),
    {
        let n = self.node_of(i);
        &&& (match n.parent {
            Some(p) => {
                &&& self.is_used(p as int)
                &&& self.node_of(p as int).depth + 1 == n.depth
                &&& self.node_of(p as int).children@.contains(i as usize)
            },
            None => true,
        })
        &&& (forall|k: int|
            0 <= k < n.children@.len() ==> self.child_ok(i, #[trigger] n.children@[k]))
        &&& (forall|k1: int, k2: int|
            #![trigger n.children@[k1], n.children@[k2]]
            0 <= k1 < n.children@.len() && 0 <= k2 < n.children@.len() && k1 != k2
                ==> n.children@[k1] != n.children@[k2])
    }

    /// Well-formedness of the whole arena.
    pub open spec fn wf(self) -> bool {
        &&& self.slots@.len() <= self.capacity
        &&& forall|i: int| #[trigger] self.is_used(i) ==> self.wf_at(i)
    }

    /// Liveness: the slot or an ancestor through owning links is rooted.
    /// This is the reachability the collector preserves; the weak upward
    /// links contribute nothing to it.
    pub open spec fn live(self, i: int) -> bool
        decreases self.node_of(i).depth,
        when self.wf() && self.is_used(i)
    {
        ||| self.rooted(i)
        ||| (match self.node_of(i).parent {
            Some(p) => self.live(p as int),
            None => false,
        })
    }

    /// The slot is in use but no longer reachable from any root: the next
    /// collection cycle reclaims it.
    pub open spec fn eligible(self, i: int) -> bool {
        self.is_used(i) && !self.live(i)
    }

    /// There is room for one more allocation without collecting.
    pub open spec fn has_space(self) -> bool {
        ||| self.slots@.len() < self.capacity
        ||| exists|i: int| 0 <= i < self.slots@.len() && !(#[trigger] self.is_used(i))
    }

    /// Memory is exhausted for good: every cell is in use and live, so even
    /// a forced collection cycle cannot free one.
    pub open spec fn exhausted(self) -> bool {
        &&& self.slots@.len() == self.capacity
        &&& forall|i: int|
            0 <= i < self.slots@.len() ==> #[trigger] self.is_used(i) && self.live(i)
    }

    /// What one surviving slot looks like after a collection cycle: exactly
    /// the old slot, except that a weak upward link to a reclaimed parent
    /// is cleared.
    pub open spec fn collected_slot(self, i: int) -> Slot
        recommends
            self.is_used(i),
    {
        let s0 = self.slot_of(i);
        match s0.value.spec_node().parent {
            Some(p) => if self.live(p as int) {
                s0
            } else {
                Slot {
                    value: s0.value.with_node(s0.value.spec_node().with_parent(None)),
                    root_count: s0.root_count,
                    reflected: s0.reflected,
                }
            },
            None => s0,
        }
    }

    /// A slot held by a root guard is reachable, whatever its tree links:
    /// while any of the guards over a slot is alive, the collector must
    /// treat it as live.
    pub proof fn lemma_rooted_is_live(self, i: int)
        requires
            self.wf(),
            self.is_used(i),
            self.rooted(i),
        ensures
            self.live(i),
    {
    }

    /// A collection cycle never touches a survivor's identity: local name,
    /// namespace prefix, owning document, owning child links, leaf class,
    /// root count and reflector link all carry over; only a weak upward
    /// link to a reclaimed parent can change, and then only to nothing.
    pub proof fn lemma_collection_preserves_identity(self, i: int)
        requires
            self.wf(),
            self.is_used(i),
            self.live(i),
        ensures
            self.collected_slot(i).value.spec_node().local_name == self.node_of(i).local_name,
            self.collected_slot(i).value.spec_node().prefix == self.node_of(i).prefix,
            self.collected_slot(i).value.spec_node().doc == self.node_of(i).doc,
            self.collected_slot(i).value.spec_node().children == self.node_of(i).children,
            self.collected_slot(i).value.spec_node().depth == self.node_of(i).depth,
            self.collected_slot(i).value.spec_element_type() == self.slot_of(
                i,
            ).value.spec_element_type(),
            self.collected_slot(i).root_count == self.slot_of(i).root_count,
            self.collected_slot(i).reflected == self.slot_of(i).reflected,
    {
    }

    /// A detached slot whose last root guard is gone is eligible for the
    /// next collection cycle: nothing reaches it any more.
    pub proof fn lemma_unrooted_detached_is_eligible(self, i: int)
        requires
            self.wf(),
            self.is_used(i),
            !self.rooted(i),
            self.node_of(i).parent is None,
        ensures
            self.eligible(i),
    {
    }

    /// Transfers well-formedness between two arenas whose cells are in use
    /// at the same indices and whose used nodes are equal.
    proof fn lemma_wf_same_nodes(h0: Heap, h1: Heap)
        requires
            h0.wf(),
            h1.slots@.len() == h0.slots@.len(),
            h1.slots@.len() <= h1.capacity,
            forall|i: int| #[trigger] h1.is_used(i) <==> h0.is_used(i),
            forall|i: int| h1.is_used(i) ==> #[trigger] h1.node_of(i) == h0.node_of(i),
        ensures
            h1.wf(),
    {
        assert forall|i: int| #[trigger] h1.is_used(i) implies h1.wf_at(i) by {
            assert(h0.is_used(i));
            assert(h0.wf_at(i));
            let n = h1.node_of(i);
            assert forall|k: int| 0 <= k < n.children@.len() implies h1.child_ok(
                i,
                #[trigger] n.children@[k],
            ) by {
                let c = n.children@[k];
                assert(h0.child_ok(i, c));
            }
        }
    }

    /// A fresh, empty arena able to hold `capacity` slots.
    pub fn new(capacity: usize) -> (h: Heap)
        ensures
            h.wf(),
            h.capacity == capacity,
            h.slots@.len() == 0,
    {
        Heap { slots: Vec::new(), capacity }
    }

    /// Whether the handle refers to a slot currently in use. Collection
    /// makes this false for reclaimed handles.
    pub fn contains(&self, h: HeapSlot) -> (r: bool)
        ensures
            r == self.is_used(h.index as int),
    {
        h.index < self.slots.len() && (match &self.slots[h.index] {
            SlotState::Used(_) => true,
            SlotState::Free => false,
        })
    }

    /// Read access to a slot's chain value. Requires the slot to be in
    /// use: an unrooted handle that crossed a collection point cannot
    /// discharge this.
    pub fn get(&self, h: HeapSlot) -> (v: &DomValue)
        requires
            self.is_used(h.index as int),
        ensures
            *v == self.slot_of(h.index as int).value,
    {
        match &self.slots[h.index] {
            SlotState::Used(s) => &s.value,
            SlotState::Free => {
                proof {
                    assert(false);
                }
                unreached()
            },
        }
    }

    /// The number of root guards currently alive over the slot.
    pub fn root_count_of(&self, h: HeapSlot) -> (r: u64)
        requires
            self.is_used(h.index as int),
        ensures
            r == self.slot_of(h.index as int).root_count,
    {
        match &self.slots[h.index] {
            SlotState::Used(s) => s.root_count,
            SlotState::Free => {
                proof {
                    assert(false);
                }
                unreached()
            },
        }
    }

    /// The reflector link of the slot, if reflection has happened.
    pub fn reflected_of(&self, h: HeapSlot) -> (r: Option<usize>)
        requires
            self.is_used(h.index as int),
        ensures
            r == self.slot_of(h.index as int).reflected,
    {
        match &self.slots[h.index] {
            SlotState::Used(s) => s.reflected,
            SlotState::Free => {
                proof {
                    assert(false);
                }
                unreached()
            },
        }
    }

    /// The slot is held by at least one root guard.
    pub fn is_rooted(&self, h: HeapSlot) -> (r: bool)
        requires
            self.is_used(h.index as int),
        ensures
            r == self.rooted(h.index as int),
    {
        self.root_count_of(h) > 0
    }

    /// The weak upward link of a node: its parent's slot, if attached.
    pub fn parent_of(&self, h: HeapSlot) -> (r: Option<HeapSlot>)
        requires
            self.is_used(h.index as int),
        ensures
            r == (match self.node_of(h.index as int).parent {
                Some(p) => Some(HeapSlot { index: p }),
                None => None::<HeapSlot>,
            }),
    {
        match self.get(h).node().parent {
            Some(p) => Some(HeapSlot { index: p }),
            None => None,
        }
    }

    /// How many owning child links a node holds.
    pub fn child_count(&self, h: HeapSlot) -> (r: usize)
        requires
            self.is_used(h.index as int),
        ensures
            r == self.node_of(h.index as int).children@.len(),
    {
        self.get(h).node().children.len()
    }

    /// The `k`-th owning child link of a node, in sibling order.
    pub fn child_at(&self, h: HeapSlot, k: usize) -> (r: HeapSlot)
        requires
            self.is_used(h.index as int),
            k < self.node_of(h.index as int).children@.len(),
        ensures
            r.index == self.node_of(h.index as int).children@[k as int],
    {
        HeapSlot { index: self.get(h).node().children[k] }
    }

    /// Roots the slot: increments its root count and hands back the guard
    /// whose lifetime extends the slot's reachability.
    pub fn root(&mut self, h: HeapSlot) -> (g: RootGuard)
        requires
            old(self).wf(),
            old(self).is_used(h.index as int),
            old(self).slot_of(h.index as int).root_count < u64::MAX,
        ensures
            final(self).wf(),
            g.target() == h,
            final(self).capacity == old(self).capacity,
            final(self).slots@.len() == old(self).slots@.len(),
            forall|i: int|
                old(self).in_bounds(i) && i != h.index as int ==> final(self).slots@[i]
                    == old(self).slots@[i],
            forall|i: int| #[trigger] final(self).is_used(i) <==> old(self).is_used(i),
            final(self).slot_of(h.index as int) == (Slot {
                value: old(self).slot_of(h.index as int).value,
                root_count: (old(self).slot_of(h.index as int).root_count + 1) as u64,
                reflected: old(self).slot_of(h.index as int).reflected,
            }),
    {
        let ghost h0 = *self;
        match &mut self.slots[h.index] {
            SlotState::Used(s) => {
                s.root_count = s.root_count + 1;
            },
            SlotState::Free => {
                proof {
                    assert(false);
                }
            },
        }
        proof {
            Self::lemma_wf_same_nodes(h0, *self);
        }
        RootGuard { slot: h }
    }

    /// Unroots: consumes the guard and decrements the root count of its
    /// target. With the last guard gone the slot becomes eligible for the
    /// next collection cycle unless an ancestor keeps it reachable.
    pub fn unroot(&mut self, g: RootGuard)
        requires
            old(self).wf(),
            old(self).is_used(g.target().index as int),
            old(self).slot_of(g.target().index as int).root_count > 0,
        ensures
            final(self).wf(),
            final(self).capacity == old(self).capacity,
            final(self).slots@.len() == old(self).slots@.len(),
            forall|i: int|
                old(self).in_bounds(i) && i != g.target().index as int ==> final(self).slots@[i]
                    == old(self).slots@[i],
            forall|i: int| #[trigger] final(self).is_used(i) <==> old(self).is_used(i),
            final(self).slot_of(g.target().index as int) == (Slot {
                value: old(self).slot_of(g.target().index as int).value,
                root_count: (old(self).slot_of(g.target().index as int).root_count - 1) as u64,
                reflected: old(self).slot_of(g.target().index as int).reflected,
            }),
    {
        let ghost h0 = *self;
        match &mut self.slots[g.slot.index] {
            SlotState::Used(s) => {
                s.root_count = s.root_count - 1;
            },
            SlotState::Free => {
                proof {
                    assert(false);
                }
            },
        }
        proof {
            Self::lemma_wf_same_nodes(h0, *self);
        }
    }

    /// Records the reflector link of a not-yet-reflected slot.
    pub fn set_reflected(&mut self, h: HeapSlot, s: usize)
        requires
            old(self).wf(),
            old(self).is_used(h.index as int),
            old(self).slot_of(h.index as int).reflected is None,
        ensures
            final(self).wf(),
            final(self).capacity == old(self).capacity,
            final(self).slots@.len() == old(self).slots@.len(),
            forall|i: int|
                old(self).in_bounds(i) && i != h.index as int ==> final(self).slots@[i]
                    == old(self).slots@[i],
            forall|i: int| #[trigger] final(self).is_used(i) <==> old(self).is_used(i),
            final(self).slot_of(h.index as int) == (Slot {
                value: old(self).slot_of(h.index as int).value,
                root_count: old(self).slot_of(h.index as int).root_count,
                reflected: Some(s),
            }),
    {
        let ghost h0 = *self;
        match &mut self.slots[h.index] {
            SlotState::Used(sl) => {
                sl.reflected = Some(s);
            },
            SlotState::Free => {
                proof {
                    assert(false);
                }
            },
        }
        proof {
            Self::lemma_wf_same_nodes(h0, *self);
        }
    }

    /// Finds a free cell, if any.
    fn find_free(&self) -> (r: Option<usize>)
        ensures
            match r {
                Some(i) => self.in_bounds(i as int) && !self.is_used(i as int),
                None => forall|i: int| self.in_bounds(i) ==> self.is_used(i),
            },
    {
        let mut i: usize = 0;
        while i < self.slots.len()
            invariant
                i <= self.slots@.len(),
                forall|j: int| 0 <= j < i as int ==> self.is_used(j),
            decreases self.slots@.len() - i,
        {
            match &self.slots[i] {
                SlotState::Free => {
                    return Some(i);
                },
                SlotState::Used(_) => {},
            }
            i = i + 1;
        }
        None
    }

    /// Whether the slot at `i` is in use and reachable from some root,
    /// walking the weak upward links; the depth field bounds the walk.
    fn is_live_at(&self, i: usize) -> (r: bool)
        requires
            self.wf(),
            i < self.slots@.len(),
        ensures
            r == (self.is_used(i as int) && self.live(i as int)),
    {
        let used = match &self.slots[i] {
            SlotState::Used(_) => true,
            SlotState::Free => false,
        };
        if !used {
            return false;
        }
        let mut cur: usize = i;
        loop
            invariant
                self.wf(),
                i < self.slots@.len(),
                self.is_used(i as int),
                self.is_used(cur as int),
                self.live(i as int) == self.live(cur as int),
            decreases self.node_of(cur as int).depth,
        {
            match &self.slots[cur] {
                SlotState::Used(s) => {
                    if s.root_count > 0 {
                        return true;
                    }
                    match s.value.node().parent {
                        Some(p) => {
                            proof {
                                assert(self.wf_at(cur as int));
                            }
                            cur = p;
                        },
                        None => {
                            return false;
                        },
                    }
                },
                SlotState::Free => {
                    proof {
                        assert(false);
                    }
                    return false;
                },
            }
        }
    }

    /// A forced collection cycle: reclaims exactly the cells that are not
    /// reachable from any root through owning links, and clears the weak
    /// upward link of any survivor whose parent was reclaimed. Everything
    /// else — identity, children, root counts, reflector links — is kept
    /// intact.
    pub fn collect(&mut self)
        requires
            old(self).wf(),
        ensures
            final(self).wf(),
            final(self).capacity == old(self).capacity,
            final(self).slots@.len() == old(self).slots@.len(),
            forall|i: int|
                old(self).in_bounds(i) ==> (#[trigger] final(self).is_used(i) <==> (old(
                    self,
                ).is_used(i) && old(self).live(i))),
            forall|i: int|
                old(self).is_used(i) && old(self).live(i) ==> #[trigger] final(self).slot_of(i)
                    == old(self).collected_slot(i),
    {
        let ghost h0 = *self;
        let n = self.slots.len();
        let mut marks: Vec<bool> = Vec::new();
        let mut i: usize = 0;
        while i < n
            invariant
                *self == h0,
                h0.wf(),
                n == h0.slots@.len(),
                marks@.len() == i as int,
                i <= n,
                forall|j: int|
                    0 <= j < i as int ==> marks@[j] == (h0.is_used(j) && h0.live(j)),
            decreases n - i,
        {
            let m = self.is_live_at(i);
            marks.push(m);
            i = i + 1;
        }
        let mut j: usize = 0;
        while j < n
            invariant
                h0.wf(),
                n == h0.slots@.len(),
                self.slots@.len() == n,
                self.capacity == h0.capacity,
                marks@.len() == n,
                j <= n,
                forall|k: int| 0 <= k < n ==> marks@[k] == (h0.is_used(k) && h0.live(k)),
                forall|k: int| j as int <= k < n ==> self.slots@[k] == h0.slots@[k],
                forall|k: int|
                    0 <= k < j as int && !(h0.is_used(k) && h0.live(k))
                        ==> #[trigger] self.slots@[k] is Free,
                forall|k: int|
                    0 <= k < j as int && h0.is_used(k) && h0.live(k) ==> #[trigger] self.slots@[k]
                        == SlotState::Used(h0.collected_slot(k)),
            decreases n - j,
        {
            if !marks[j] {
                self.slots[j] = SlotState::Free;
                proof {
                    assert(self.slots@[j as int] is Free);
                    assert(!self.is_used(j as int));
                }
            } else {
                proof {
                    assert(h0.is_used(j as int) && h0.live(j as int));
                    assert(h0.wf_at(j as int));
                }
                let par: Option<usize> = match &self.slots[j] {
                    SlotState::Used(s) => s.value.node().parent,
                    SlotState::Free => None,
                };
                match par {
                    Some(p) => {
                        if !marks[p] {
                            match &mut self.slots[j] {
                                SlotState::Used(s) => {
                                    s.value.set_parent(None);
                                },
                                SlotState::Free => {
                                    proof {
                                        assert(false);
                                    }
                                },
                            }
                            proof {
                                assert(!h0.live(p as int));
                                assert(self.is_used(j as int));
                                assert(self.slots@[j as int] == SlotState::Used(
                                    h0.collected_slot(j as int),
                                ));
                            }
                        } else {
                            proof {
                                assert(h0.live(p as int));
                                assert(self.slots@[j as int] == SlotState::Used(
                                    h0.collected_slot(j as int),
                                ));
                            }
                        }
                    },
                    None => {
                        proof {
                            assert(self.slots@[j as int] == SlotState::Used(
                                h0.collected_slot(j as int),
                            ));
                        }
                    },
                }
            }
            j = j + 1;
        }
        proof {
            assert forall|i2: int|
                0 <= i2 < n implies (self.is_used(i2) <==> (h0.is_used(i2) && h0.live(
                i2,
            ))) by {
                if h0.is_used(i2) && h0.live(i2) {
                    assert(self.slots@[i2] == SlotState::Used(h0.collected_slot(i2)));
                } else {
                    assert(self.slots@[i2] is Free);
                }
            }
            assert forall|i2: int|
                h0.is_used(i2) && h0.live(i2) implies #[trigger] self.slot_of(i2)
                == h0.collected_slot(i2) by {
                assert(self.slots@[i2] == SlotState::Used(h0.collected_slot(i2)));
            }
            assert forall|i2: int| #[trigger] self.is_used(i2) implies self.wf_at(i2) by {
                assert(h0.is_used(i2) && h0.live(i2));
                assert(h0.wf_at(i2));
                assert(self.slot_of(i2) == h0.collected_slot(i2));
                let n0 = h0.node_of(i2);
                let n1 = self.node_of(i2);
                match n1.parent {
                    Some(p) => {
                        assert(n0.parent == Some(p) && h0.live(p as int));
                        assert(h0.is_used(p as int));
                        assert(self.slot_of(p as int) == h0.collected_slot(p as int));
                        assert(self.node_of(p as int).depth == h0.node_of(p as int).depth);
                        assert(self.node_of(p as int).children@ == h0.node_of(
                            p as int,
                        ).children@);
                    },
                    None => {},
                }
                assert forall|k: int| 0 <= k < n1.children@.len() implies self.child_ok(
                    i2,
                    #[trigger] n1.children@[k],
                ) by {
                    let c = n1.children@[k];
                    assert(n1.children@ == n0.children@);
                    assert(h0.child_ok(i2, c));
                    assert(h0.live(c as int));
                    assert(self.slot_of(c as int) == h0.collected_slot(c as int));
                }
            }
        }
    }

    /// Places a fully constructed, detached chain value into a fresh slot.
    /// Under memory pressure (no cell available) a collection cycle is
    /// triggered synchronously and the allocation retried once; if memory
    /// still cannot be obtained the error is fatal to the context.
    pub fn allocate(&mut self, value: DomValue) -> (r: Result<HeapSlot, AllocError>)
        requires
            old(self).wf(),
            value.spec_node().parent is None,
            value.spec_node().children@.len() == 0,
        ensures
            final(self).wf(),
            final(self).capacity == old(self).capacity,
            (r is Err) <==> old(self).exhausted(),
            r matches Err(e) ==> e == AllocError::Exhausted,
            r matches Ok(h) ==> {
                &&& final(self).is_used(h.index as int)
                &&& final(self).slot_of(h.index as int) == (Slot {
                    value: value,
                    root_count: 0u64,
                    reflected: None::<usize>,
                })
                &&& !(old(self).is_used(h.index as int) && old(self).live(h.index as int))
            },
            forall|i: int|
                old(self).is_used(i) && old(self).live(i) ==> #[trigger] final(self).is_used(i),
            forall|i: int|
                #[trigger] final(self).is_used(i) ==> (match r {
                    Ok(h) => h.index as int == i,
                    Err(_) => false,
                }) || (old(self).is_used(i) && (final(self).slot_of(i) == old(self).slot_of(i) || (
                old(self).live(i) && final(self).slot_of(i) == old(self).collected_slot(i)))),
            old(self).has_space() ==> forall|i: int|
                old(self).is_used(i) ==> #[trigger] final(self).slot_of(i) == old(self).slot_of(
                    i,
                ) && final(self).is_used(i),
            !old(self).has_space() ==> forall|i: int|
                old(self).is_used(i) && old(self).live(i) ==> #[trigger] final(self).slot_of(i)
                    == old(self).collected_slot(i),
    {
        let ghost h0 = *self;
        match self.find_free() {
            Some(i) => {
                self.slots[i] = SlotState::Used(
                    Slot { value, root_count: 0, reflected: None },
                );
                proof {
                    assert(!(h0.is_used(i as int) && h0.live(i as int)));
                    assert(!h0.exhausted());
                    assert(h0.has_space());
                    assert forall|x: int| #[trigger] self.is_used(x) implies self.wf_at(x) by {
                        if x == i as int {
                        } else {
                            assert(h0.is_used(x));
                            assert(h0.wf_at(x));
                            let nx = self.node_of(x);
                            match nx.parent {
                                Some(p) => {
                                    assert(p != i as usize);
                                },
                                None => {},
                            }
                            assert forall|k: int|
                                0 <= k < nx.children@.len() implies self.child_ok(
                                x,
                                #[trigger] nx.children@[k],
                            ) by {
                                let c = nx.children@[k];
                                assert(h0.child_ok(x, c));
                                assert(c != i as usize);
                            }
                        }
                    }
                }
                Ok(HeapSlot { index: i })
            },
            None => {
                if self.slots.len() < self.capacity {
                    let i = self.slots.len();
                    self.slots.push(
                        SlotState::Used(Slot { value, root_count: 0, reflected: None }),
                    );
                    proof {
                        assert(!h0.exhausted());
                        assert(h0.has_space());
                        assert forall|x: int| #[trigger] self.is_used(x) implies self.wf_at(
                            x,
                        ) by {
                            if x == i as int {
                            } else {
                                assert(h0.is_used(x));
                                assert(h0.wf_at(x));
                                let nx = self.node_of(x);
                                assert forall|k: int|
                                    0 <= k < nx.children@.len() implies self.child_ok(
                                    x,
                                    #[trigger] nx.children@[k],
                                ) by {
                                    let c = nx.children@[k];
                                    assert(h0.child_ok(x, c));
                                }
                            }
                        }
                    }
                    Ok(HeapSlot { index: i })
                } else {
                    self.collect();
                    let ghost h1 = *self;
                    match self.find_free() {
                        Some(i) => {
                            self.slots[i] = SlotState::Used(
                                Slot { value, root_count: 0, reflected: None },
                            );
                            proof {
                                assert(!(h0.is_used(i as int) && h0.live(i as int)));
                                assert(!h0.exhausted());
                                assert forall|x: int|
                                    h0.is_used(x) && h0.live(x) implies self.is_used(x)
                                    && #[trigger] self.slot_of(x) == h0.collected_slot(x) by {
                                    assert(h1.is_used(x));
                                    assert(x != i as int);
                                    assert(h1.slot_of(x) == h0.collected_slot(x));
                                    assert(self.slots@[x] == h1.slots@[x]);
                                }
                                assert forall|x: int|
                                    h0.is_used(x) && h0.live(x) implies #[trigger] self.is_used(
                                    x,
                                ) by {
                                    assert(h1.is_used(x));
                                    assert(x != i as int);
                                    assert(self.slots@[x] == h1.slots@[x]);
                                }
                                assert forall|x: int|
                                    #[trigger] self.is_used(x) && x != i as int implies h0.is_used(
                                    x,
                                ) && h0.live(x) && self.slot_of(x) == h0.collected_slot(x) by {
                                    assert(self.slots@[x] == h1.slots@[x]);
                                    assert(h1.is_used(x));
                                    assert(h1.slot_of(x) == h0.collected_slot(x));
                                }
                                assert forall|x: int| #[trigger] self.is_used(x) implies self
                                    .wf_at(x) by {
                                    if x == i as int {
                                    } else {
                                        assert(h1.is_used(x));
                                        assert(h1.wf_at(x));
                                        let nx = self.node_of(x);
                                        match nx.parent {
                                            Some(p) => {
                                                assert(p != i as usize);
                                            },
                                            None => {},
                                        }
                                        assert forall|k: int|
                                            0 <= k < nx.children@.len() implies self.child_ok(
                                            x,
                                            #[trigger] nx.children@[k],
                                        ) by {
                                            let c = nx.children@[k];
                                            assert(h1.child_ok(x, c));
                                            assert(c != i as usize);
                                        }
                                    }
                                }
                            }
                            Ok(HeapSlot { index: i })
                        },
                        None => {
                            proof {
                                assert(self.slots@.len() == h0.slots@.len());
                                assert(h0.slots@.len() == h0.capacity);
                                assert forall|i2: int|
                                    0 <= i2 < h0.slots@.len() implies h0.is_used(i2) && h0.live(
                                    i2,
                                ) by {
                                    assert(self.in_bounds(i2));
                                    assert(self.is_used(i2));
                                }
                                assert(h0.exhausted());
                                assert forall|i2: int|
                                    h0.is_used(i2) && h0.live(i2) implies self.is_used(i2)
                                    && #[trigger] self.slot_of(i2) == h0.collected_slot(i2) by {
                                    assert(self.is_used(i2));
                                }
                                assert forall|i2: int|
                                    h0.is_used(i2) && h0.live(i2) implies #[trigger] self.is_used(
                                    i2,
                                ) by {
                                    assert(self.in_bounds(i2));
                                }
                            }
                            Err(AllocError::Exhausted)
                        },
                    }
                }
            },
        }
    }

    /// The position of a node among its parent's owning links.
    fn find_child_index(&self, p: HeapSlot, c: HeapSlot) -> (k: usize)
        requires
            self.wf(),
            self.is_used(p.index as int),
            self.node_of(p.index as int).children@.contains(c.index),
        ensures
            (k as int) < self.node_of(p.index as int).children@.len(),
            self.node_of(p.index as int).children@[k as int] == c.index,
            forall|j: int|
                0 <= j < k as int ==> self.node_of(p.index as int).children@[j] != c.index,
    {
        let n_ch: usize = match &self.slots[p.index] {
            SlotState::Used(s) => s.value.node().children.len(),
            SlotState::Free => {
                proof {
                    assert(false);
                }
                unreached()
            },
        };
        let mut k: usize = 0;
        loop
            invariant
                self.wf(),
                self.is_used(p.index as int),
                self.node_of(p.index as int).children@.contains(c.index),
                n_ch as int == self.node_of(p.index as int).children@.len(),
                k <= n_ch,
                forall|j: int|
                    0 <= j < k as int ==> self.node_of(p.index as int).children@[j] != c.index,
            decreases self.node_of(p.index as int).children@.len() - k as int,
        {
            proof {
                let s0 = self.node_of(p.index as int).children@;
                let j0 = choose|j: int| 0 <= j < s0.len() && s0[j] == c.index;
                assert(j0 >= k as int);
                assert((k as int) < s0.len());
            }
            let ck: usize = match &self.slots[p.index] {
                SlotState::Used(s) => s.value.node().children[k],
                SlotState::Free => {
                    proof {
                        assert(false);
                    }
                    unreached()
                },
            };
            if ck == c.index {
                return k;
            }
            k = k + 1;
        }
    }

    /// Detaches a child from its parent: the owning link is removed from
    /// the parent's children, and the child's weak upward link is cleared.
    /// The child keeps its own subtree; once no root reaches it, it is
    /// eligible for the next collection cycle.
    pub fn remove_child(&mut self, p: HeapSlot, c: HeapSlot)
        requires
            old(self).wf(),
            old(self).is_used(p.index as int),
            old(self).is_used(c.index as int),
            old(self).node_of(c.index as int).parent == Some(p.index),
        ensures
            final(self).wf(),
            final(self).capacity == old(self).capacity,
            final(self).slots@.len() == old(self).slots@.len(),
            forall|i: int|
                old(self).in_bounds(i) && i != p.index as int && i != c.index as int
                    ==> final(self).slots@[i] == old(self).slots@[i],
            forall|i: int| #[trigger] final(self).is_used(i) <==> old(self).is_used(i),
            final(self).slot_of(c.index as int) == (Slot {
                value: old(self).slot_of(c.index as int).value.with_node(
                    old(self).node_of(c.index as int).with_parent(None),
                ),
                root_count: old(self).slot_of(c.index as int).root_count,
                reflected: old(self).slot_of(c.index as int).reflected,
            }),
            final(self).node_of(p.index as int).children@ == old(self).node_of(
                p.index as int,
            ).children@.remove_value(c.index),
            final(self).node_of(p.index as int).eq_except_children(
                old(self).node_of(p.index as int),
            ),
            final(self).slot_of(p.index as int).root_count == old(self).slot_of(
                p.index as int,
            ).root_count,
            final(self).slot_of(p.index as int).reflected == old(self).slot_of(
                p.index as int,
            ).reflected,
            final(self).slot_of(p.index as int).value == old(self).slot_of(
                p.index as int,
            ).value.with_node(final(self).node_of(p.index as int)),
    {
        let ghost h0 = *self;
        proof {
            assert(h0.wf_at(c.index as int));
            assert(h0.wf_at(p.index as int));
            // a node is never its own parent: the depth witness forbids it
            assert(p.index != c.index);
        }
        let k = self.find_child_index(p, c);
        match &mut self.slots[c.index] {
            SlotState::Used(s) => {
                s.value.set_parent(None);
            },
            SlotState::Free => {
                proof {
                    assert(false);
                }
            },
        }
        match &mut self.slots[p.index] {
            SlotState::Used(s) => {
                s.value.remove_child_at(k);
            },
            SlotState::Free => {
                proof {
                    assert(false);
                }
            },
        }
        proof {
            let pi = p.index as int;
            let ci = c.index as int;
            let s0 = h0.node_of(pi).children@;
            let s1 = self.node_of(pi).children@;
            assert(s1 == s0.remove(k as int));
            s0.remove_ensures(k as int);
            // with no duplicate owning links, position `k` is the first
            // occurrence, so the removal is removal of the value
            s0.index_of_first_ensures(c.index);
            match s0.index_of_first(c.index) {
                Some(idx) => {
                    assert(s0[idx] == c.index);
                    assert(idx == k as int);
                },
                None => {
                    assert(s0.contains(c.index));
                    assert(false);
                },
            }
            assert(s0.remove_value(c.index) == s0.remove(k as int));
            // the arena is still well-formed
            assert forall|x: int| #[trigger] self.is_used(x) implies self.wf_at(x) by {
                assert(h0.is_used(x));
                assert(h0.wf_at(x));
                let nx = self.node_of(x);
                let nx0 = h0.node_of(x);
                if x == ci {
                    assert(nx.children@ == nx0.children@);
                    assert forall|kk: int| 0 <= kk < nx.children@.len() implies self.child_ok(
                        x,
                        #[trigger] nx.children@[kk],
                    ) by {
                        let cc = nx.children@[kk];
                        assert(h0.child_ok(x, cc));
                        assert(cc != c.index);
                        assert(cc as int == pi || h0.node_of(cc as int) == self.node_of(
                            cc as int,
                        ));
                    }
                } else if x == pi {
                    match nx.parent {
                        Some(q) => {
                            assert(q != c.index);
                            assert(h0.node_of(q as int).children@.contains(p.index));
                        },
                        None => {},
                    }
                    assert forall|kk: int| 0 <= kk < nx.children@.len() implies self.child_ok(
                        x,
                        #[trigger] nx.children@[kk],
                    ) by {
                        let cc = nx.children@[kk];
                        assert(cc == s0[if kk < k as int {
                            kk
                        } else {
                            kk + 1
                        }]);
                        assert(h0.child_ok(x, cc));
                        assert(cc != c.index);
                    }
                    assert forall|k1: int, k2: int|
                        #![trigger nx.children@[k1], nx.children@[k2]]
                        0 <= k1 < nx.children@.len() && 0 <= k2 < nx.children@.len() && k1
                            != k2 implies nx.children@[k1] != nx.children@[k2] by {
                        let j1: int = if k1 < k as int {
                            k1
                        } else {
                            k1 + 1
                        };
                        let j2: int = if k2 < k as int {
                            k2
                        } else {
                            k2 + 1
                        };
                        assert(nx.children@[k1] == s0[j1]);
                        assert(nx.children@[k2] == s0[j2]);
                    }
                } else {
                    match nx.parent {
                        Some(q) => {
                            if q == p.index {
                                assert(x as usize != c.index);
                                let j0 = choose|j: int|
                                    0 <= j < s0.len() && s0[j] == (x as usize);
                                assert(j0 != k as int);
                                if j0 < k as int {
                                    assert(s1[j0] == x as usize);
                                } else {
                                    assert(s1[j0 - 1] == x as usize);
                                }
                                assert(s1.contains(x as usize));
                            } else if q == c.index {
                                assert(self.node_of(q as int).children@ == h0.node_of(
                                    q as int,
                                ).children@);
                                assert(self.node_of(q as int).depth == h0.node_of(
                                    q as int,
                                ).depth);
                            }
                        },
                        None => {},
                    }
                    assert forall|kk: int| 0 <= kk < nx.children@.len() implies self.child_ok(
                        x,
                        #[trigger] nx.children@[kk],
                    ) by {
                        let cc = nx.children@[kk];
                        assert(h0.child_ok(x, cc));
                        assert(cc != c.index);
                    }
                }
            }
        }
    }

    /// Attaches a detached, childless node under a parent: the parent gains
    /// an owning link, the child's weak upward link and depth are set.
    /// Attachment is top-down: a node receives its own children only after
    /// it has been attached.
    pub fn append_child(&mut self, p: HeapSlot, c: HeapSlot)
        requires
            old(self).wf(),
            old(self).is_used(p.index as int),
            old(self).is_used(c.index as int),
            p.index != c.index,
            old(self).node_of(c.index as int).parent is None,
            old(self).node_of(c.index as int).children@.len() == 0,
            old(self).node_of(p.index as int).depth < usize::MAX,
        ensures
            final(self).wf(),
            final(self).capacity == old(self).capacity,
            final(self).slots@.len() == old(self).slots@.len(),
            forall|i: int|
                old(self).in_bounds(i) && i != p.index as int && i != c.index as int
                    ==> final(self).slots@[i] == old(self).slots@[i],
            forall|i: int| #[trigger] final(self).is_used(i) <==> old(self).is_used(i),
            final(self).slot_of(c.index as int) == (Slot {
                value: old(self).slot_of(c.index as int).value.with_node(
                    old(self).node_of(c.index as int).with_parent(Some(p.index)).with_depth(
                        (old(self).node_of(p.index as int).depth + 1) as usize,
                    ),
                ),
                root_count: old(self).slot_of(c.index as int).root_count,
                reflected: old(self).slot_of(c.index as int).reflected,
            }),
            final(self).node_of(p.index as int).children@ == old(self).node_of(
                p.index as int,
            ).children@.push(c.index),
            final(self).node_of(p.index as int).eq_except_children(
                old(self).node_of(p.index as int),
            ),
            final(self).slot_of(p.index as int).root_count == old(self).slot_of(
                p.index as int,
            ).root_count,
            final(self).slot_of(p.index as int).reflected == old(self).slot_of(
                p.index as int,
            ).reflected,
            final(self).slot_of(p.index as int).value == old(self).slot_of(
                p.index as int,
            ).value.with_node(final(self).node_of(p.index as int)),
    {
        let ghost h0 = *self;
        let d: usize = match &self.slots[p.index] {
            SlotState::Used(s) => s.value.node().depth,
            SlotState::Free => {
                proof {
                    assert(false);
                }
                unreached()
            },
        };
        match &mut self.slots[c.index] {
            SlotState::Used(s) => {
                s.value.set_parent(Some(p.index));
                s.value.set_depth(d + 1);
            },
            SlotState::Free => {
                proof {
                    assert(false);
                }
            },
        }
        match &mut self.slots[p.index] {
            SlotState::Used(s) => {
                s.value.push_child(c.index);
            },
            SlotState::Free => {
                proof {
                    assert(false);
                }
            },
        }
        proof {
            let pi = p.index as int;
            let ci = c.index as int;
            assert(h0.wf_at(pi));
            assert(h0.wf_at(ci));
            assert forall|x: int| #[trigger] self.is_used(x) implies self.wf_at(x) by {
                assert(h0.is_used(x));
                assert(h0.wf_at(x));
                let nx = self.node_of(x);
                if x == ci {
                    assert(self.node_of(pi).children@ == h0.node_of(pi).children@.push(
                        c.index,
                    ));
                    assert(self.node_of(pi).children@[h0.node_of(pi).children@.len() as int]
                        == c.index);
                } else if x == pi {
                    match nx.parent {
                        Some(q) => {
                            // the parent of `p` cannot be `c`: `c` had no children
                            assert(h0.node_of(q as int).children@.contains(p.index));
                            assert(q != c.index);
                            let k0 = choose|k0: int|
                                0 <= k0 < h0.node_of(q as int).children@.len() && h0.node_of(
                                    q as int,
                                ).children@[k0] == p.index;
                            assert(self.node_of(q as int).children@[k0] == p.index);
                        },
                        None => {},
                    }
                    assert forall|k: int| 0 <= k < nx.children@.len() implies self.child_ok(
                        x,
                        #[trigger] nx.children@[k],
                    ) by {
                        let cc = nx.children@[k];
                        if k < h0.node_of(pi).children@.len() {
                            assert(h0.child_ok(pi, cc));
                            assert(cc != c.index);
                        } else {
                            assert(cc == c.index);
                        }
                    }
                } else {
                    match nx.parent {
                        Some(q) => {
                            assert(q != c.index);
                            if q == p.index {
                                let k0 = choose|k0: int|
                                    0 <= k0 < h0.node_of(pi).children@.len() && h0.node_of(
                                        pi,
                                    ).children@[k0] == (x as usize);
                                assert(self.node_of(pi).children@[k0] == x as usize);
                            }
                        },
                        None => {},
                    }
                    assert forall|k: int| 0 <= k < nx.children@.len() implies self.child_ok(
                        x,
                        #[trigger] nx.children@[k],
                    ) by {
                        let cc = nx.children@[k];
                        assert(h0.child_ok(x, cc));
                        assert(cc != c.index);
                    }
                }
            }
        }
    }
}

} // verus!
