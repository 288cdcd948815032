//! The document context and the reflector protocol.
//!
//! A `Document` owns the ambient allocation context (the traced heap) and
//! the scripting runtime's object table. Reflection pairs a native heap
//! slot with exactly one scripting-visible object, one-to-one and created
//! exactly once per slot; a second attempt is rejected. Construction of a
//! concrete element goes bottom-up through the embedding chain, places the
//! value on the heap, roots it, and binds the wrapper before the rooted
//! handle is returned — a bare unrooted reference never escapes.

use vstd::prelude::*;
use crate::chain::DomValue;
use crate::chain::ElementType;
use crate::chain::HTMLMediaElement;
use crate::chain::HTMLVideoElement;
use crate::chain::Node;
use crate::heap::AllocError;
use crate::heap::Heap;
use crate::heap::HeapSlot;
use crate::heap::RootGuard;
use crate::heap::Slot;

verus! {

/// Handle to one scripting-runtime object.
#[derive(Clone, Copy, PartialEq, Eq, Structural, Debug)]
pub struct ScriptHandle {
    pub index: usize,
}

/// A scripting-runtime wrapper object: the class descriptor of its concrete
/// leaf type, and the native slot it is permanently bound to.
#[derive(Clone, Copy, PartialEq, Eq, Structural, Debug)]
pub struct ScriptObject {
    pub class: ElementType,
    pub native: usize,
}

/// Reflection failure: the slot already has its scripting wrapper. This is
/// a programming-error condition, not a recoverable state; it is surfaced
/// instead of silently creating a second wrapper.
#[derive(Clone, Copy, PartialEq, Eq, Structural, Debug)]
pub enum ReflectError {
    AlreadyReflected,
}

/// The document context: identity for the nodes it owns, the traced heap
/// holding the node tree, and the scripting runtime's object table.
pub struct Document {
    /// Identifier handed to every node constructed under this document as
    /// its owning-document back-reference.
    pub id: u64,
    /// The ambient allocation context.
    pub heap: Heap,
    /// The scripting runtime's object table; a handle indexes into it.
    pub objects: Vec<Option<ScriptObject>>,
}

impl Document {
    /// Document-side consistency of one used slot: its node carries this
    /// document's identity, and its reflector link, if set, points at an
    /// object of the right class that points back.
    pub open spec fn heap_side_ok(self, i: int) -> bool
        recommends
            self.heap.is_used(i),
    {
        &&& self.heap.node_of(i).doc == self.id
        &&& match self.heap.slot_of(i).reflected {
            Some(s) => {
                &&& (s as int) < self.objects@.len()
                &&& self.objects@[s as int] == Some(
                    ScriptObject {
                        class: self.heap.slot_of(i).value.spec_element_type(),
                        native: i as usize,
                    },
                )
            },
            None => true,
        }
    }

    /// Table-side consistency of one object: it is bound to a used slot
    /// whose reflector link points back at it.
    pub open spec fn object_ok(self, s: int) -> bool
        recommends
            0 <= s < self.objects@.len(),
    {
        match self.objects@[s] {
            Some(o) => {
                &&& self.heap.is_used(o.native as int)
                &&& self.heap.slot_of(o.native as int).reflected == Some(s as usize)
            },
            None => true,
        }
    }

    /// Well-formedness: the heap is well-formed and the reflector links
    /// form a one-to-one pairing between used slots and objects.
    pub open spec fn wf(self) -> bool {
        &&& self.heap.wf()
        &&& forall|i: int| #[trigger] self.heap.is_used(i) ==> self.heap_side_ok(i)
        &&& forall|s: int| 0 <= s < self.objects@.len() ==> #[trigger] self.object_ok(s)
    }

    /// The scripting object paired with a slot, if reflection has happened.
    pub open spec fn spec_script_of(self, h: HeapSlot) -> Option<ScriptHandle>
        recommends
            self.heap.is_used(h.index as int),
    {
        match self.heap.slot_of(h.index as int).reflected {
            Some(s) => Some(ScriptHandle { index: s }),
            None => None,
        }
    }

    /// The native slot a scripting object is bound to, if the handle is
    /// currently bound.
    pub open spec fn spec_native_of(self, s: ScriptHandle) -> Option<HeapSlot> {
        if (s.index as int) < self.objects@.len() {
            match self.objects@[s.index as int] {
                Some(o) => Some(HeapSlot { index: o.native }),
                None => None,
            }
        } else {
            None
        }
    }

    /// Transfers document well-formedness when the heap keeps the same used
    /// slots with the same reflector links, owning-document identities and
    /// leaf classes, and the object table is unchanged — whatever happened
    /// to root counts or tree links.
    proof fn lemma_wf_same_slots(d0: Document, d1: Document)
        requires
            d0.wf(),
            d1.heap.wf(),
            d1.id == d0.id,
            d1.objects@ == d0.objects@,
            d1.heap.slots@.len() == d0.heap.slots@.len(),
            forall|i: int| #[trigger] d1.heap.is_used(i) <==> d0.heap.is_used(i),
            forall|i: int|
                d1.heap.is_used(i) ==> (#[trigger] d1.heap.slot_of(i)).reflected
                    == d0.heap.slot_of(i).reflected && d1.heap.node_of(i).doc == d0.heap.node_of(
                    i,
                ).doc && d1.heap.slot_of(i).value.spec_element_type() == d0.heap.slot_of(
                    i,
                ).value.spec_element_type(),
        ensures
            d1.wf(),
    {
        assert forall|i: int| #[trigger] d1.heap.is_used(i) implies d1.heap_side_ok(i) by {
            assert(d0.heap.is_used(i));
            assert(d0.heap_side_ok(i));
            assert(d1.heap.slot_of(i).reflected == d0.heap.slot_of(i).reflected);
        }
        assert forall|s: int| 0 <= s < d1.objects@.len() implies d1.object_ok(s) by {
            assert(d0.object_ok(s));
            match d0.objects@[s] {
                Some(o) => {
                    assert(d1.heap.is_used(o.native as int));
                    assert(d1.heap.slot_of(o.native as int).reflected == d0.heap.slot_of(
                        o.native as int,
                    ).reflected);
                },
                None => {},
            }
        }
    }

    /// A fresh document: the given identity, an empty heap able to hold
    /// `capacity` slots, and an empty object table.
    pub fn new(id: u64, capacity: usize) -> (d: Document)
        ensures
            d.wf(),
            d.id == id,
            d.heap.capacity == capacity,
            d.heap.slots@.len() == 0,
            d.objects@.len() == 0,
    {
        Document { id, heap: Heap::new(capacity), objects: Vec::new() }
    }

    /// Roots a slot of this document's heap; document consistency is
    /// untouched since only the root count changes.
    pub fn root(&mut self, h: HeapSlot) -> (g: RootGuard)
        requires
            old(self).wf(),
            old(self).heap.is_used(h.index as int),
            old(self).heap.slot_of(h.index as int).root_count < u64::MAX,
        ensures
            final(self).wf(),
            final(self).id == old(self).id,
            final(self).objects@ == old(self).objects@,
            g.target() == h,
            final(self).heap.slots@.len() == old(self).heap.slots@.len(),
            final(self).heap.capacity == old(self).heap.capacity,
            forall|i: int|
                old(self).heap.in_bounds(i) && i != h.index as int ==> final(self).heap.slots@[i]
                    == old(self).heap.slots@[i],
            forall|i: int| #[trigger] final(self).heap.is_used(i) <==> old(self).heap.is_used(i),
            final(self).heap.slot_of(h.index as int) == (Slot {
                value: old(self).heap.slot_of(h.index as int).value,
                root_count: (old(self).heap.slot_of(h.index as int).root_count + 1) as u64,
                reflected: old(self).heap.slot_of(h.index as int).reflected,
            }),
    {
        let g = self.heap.root(h);
        proof {
            assert forall|i: int|
                self.heap.is_used(i) implies (#[trigger] self.heap.slot_of(i)).value
                == old(self).heap.slot_of(i).value && self.heap.slot_of(i).reflected
                == old(self).heap.slot_of(i).reflected by {
                if i != h.index as int {
                    assert(self.heap.slots@[i] == old(self).heap.slots@[i]);
                }
            }
            Self::lemma_wf_same_slots(*old(self), *self);
        }
        g
    }

    /// Unroots: consumes the guard, decrementing its target's root count.
    pub fn unroot(&mut self, g: RootGuard)
        requires
            old(self).wf(),
            old(self).heap.is_used(g.target().index as int),
            old(self).heap.slot_of(g.target().index as int).root_count > 0,
        ensures
            final(self).wf(),
            final(self).id == old(self).id,
            final(self).objects@ == old(self).objects@,
            final(self).heap.slots@.len() == old(self).heap.slots@.len(),
            final(self).heap.capacity == old(self).heap.capacity,
            forall|i: int|
                old(self).heap.in_bounds(i) && i != g.target().index as int
                    ==> final(self).heap.slots@[i] == old(self).heap.slots@[i],
            forall|i: int| #[trigger] final(self).heap.is_used(i) <==> old(self).heap.is_used(i),
            final(self).heap.slot_of(g.target().index as int) == (Slot {
                value: old(self).heap.slot_of(g.target().index as int).value,
                root_count: (old(self).heap.slot_of(g.target().index as int).root_count
                    - 1) as u64,
                reflected: old(self).heap.slot_of(g.target().index as int).reflected,
            }),
    {
        let ghost gi = g.target().index as int;
        self.heap.unroot(g);
        proof {
            assert forall|i: int|
                self.heap.is_used(i) implies (#[trigger] self.heap.slot_of(i)).value
                == old(self).heap.slot_of(i).value && self.heap.slot_of(i).reflected
                == old(self).heap.slot_of(i).reflected by {
                if i != gi {
                    assert(self.heap.slots@[i] == old(self).heap.slots@[i]);
                }
            }
            Self::lemma_wf_same_slots(*old(self), *self);
        }
    }

    /// The wrap function for the media leaf type: allocates the
    /// scripting-runtime object carrying the media class descriptor, bound
    /// to the native slot `native`.
    fn wrap_media(objects: &mut Vec<Option<ScriptObject>>, native: usize) -> (s: usize)
        ensures
            final(objects)@ == old(objects)@.push(
                Some(ScriptObject { class: ElementType::Media, native: native }),
            ),
            s as int == old(objects)@.len(),
    {
        let s: usize = objects.len();
        objects.push(Some(ScriptObject { class: ElementType::Media, native }));
        s
    }

    /// The wrap function for the video leaf type: allocates the
    /// scripting-runtime object carrying the video class descriptor, bound
    /// to the native slot `native`.
    fn wrap_video(objects: &mut Vec<Option<ScriptObject>>, native: usize) -> (s: usize)
        ensures
            final(objects)@ == old(objects)@.push(
                Some(ScriptObject { class: ElementType::Video, native: native }),
            ),
            s as int == old(objects)@.len(),
    {
        let s: usize = objects.len();
        objects.push(Some(ScriptObject { class: ElementType::Video, native }));
        s
    }

    /// Reflects a used slot: resolves the wrap function for the slot's
    /// concrete leaf type, allocates the scripting-visible object, records
    /// the permanent one-to-one link, and returns a rooted guard over the
    /// native handle. Reflection happens exactly once per slot: a second
    /// attempt is rejected and changes nothing.
    pub fn reflect(&mut self, h: HeapSlot) -> (r: Result<RootGuard, ReflectError>)
        requires
            old(self).wf(),
            old(self).heap.is_used(h.index as int),
            old(self).heap.slot_of(h.index as int).root_count < u64::MAX,
        ensures
            final(self).wf(),
            final(self).id == old(self).id,
            final(self).heap.is_used(h.index as int),
            old(self).heap.slot_of(h.index as int).reflected is Some ==> r == Err::<
                RootGuard,
                ReflectError,
            >(ReflectError::AlreadyReflected) && *final(self) == *old(self),
            old(self).heap.slot_of(h.index as int).reflected is None ==> {
                &&& r matches Ok(g) && g.target() == h
                &&& final(self).objects@ == old(self).objects@.push(
                    Some(
                        ScriptObject {
                            class: old(self).heap.slot_of(
                                h.index as int,
                            ).value.spec_element_type(),
                            native: h.index,
                        },
                    ),
                )
                &&& final(self).heap.slots@.len() == old(self).heap.slots@.len()
                &&& final(self).heap.capacity == old(self).heap.capacity
                &&& (forall|i: int|
                    old(self).heap.in_bounds(i) && i != h.index as int
                        ==> final(self).heap.slots@[i] == old(self).heap.slots@[i])
                &&& (forall|i: int|
                    #[trigger] final(self).heap.is_used(i) <==> old(self).heap.is_used(i))
                &&& final(self).heap.slot_of(h.index as int) == (Slot {
                    value: old(self).heap.slot_of(h.index as int).value,
                    root_count: (old(self).heap.slot_of(h.index as int).root_count + 1) as u64,
                    reflected: Some(old(self).objects@.len() as usize),
                })
                &&& final(self).spec_script_of(h) == Some(
                    ScriptHandle { index: old(self).objects@.len() as usize },
                )
            },
    {
        let already: bool = match self.heap.reflected_of(h) {
            Some(_) => true,
            None => false,
        };
        if already {
            return Err(ReflectError::AlreadyReflected);
        }
        let class = self.heap.get(h).element_type();
        let s: usize = match class {
            ElementType::Media => Self::wrap_media(&mut self.objects, h.index),
            ElementType::Video => Self::wrap_video(&mut self.objects, h.index),
        };
        let ghost dw = *self;
        self.heap.set_reflected(h, s);
        let ghost dm = *self;
        let g = self.heap.root(h);
        proof {
            let d0 = *old(self);
            let d1 = *self;
            let hi = h.index as int;
            assert(dw.heap == d0.heap);
            assert forall|x: int|
                d0.heap.in_bounds(x) && x != hi implies #[trigger] d1.heap.slots@[x]
                == d0.heap.slots@[x] by {
                assert(dw.heap.in_bounds(x));
                assert(dm.heap.slots@[x] == dw.heap.slots@[x]);
                assert(dm.heap.slots@.len() == dw.heap.slots@.len());
                assert(dm.heap.in_bounds(x));
                assert(d1.heap.slots@[x] == dm.heap.slots@[x]);
            }
            assert forall|x: int| #[trigger] d1.heap.is_used(x) <==> d0.heap.is_used(x) by {
                if x != hi {
                    assert(dm.heap.is_used(x) <==> dw.heap.is_used(x));
                    assert(d1.heap.is_used(x) <==> dm.heap.is_used(x));
                }
            }
            assert(d0.heap.slot_of(hi).reflected is None);
            assert(d1.objects@ == d0.objects@.push(
                Some(
                    ScriptObject {
                        class: d0.heap.slot_of(hi).value.spec_element_type(),
                        native: h.index,
                    },
                ),
            ));
            assert forall|i: int| #[trigger] d1.heap.is_used(i) implies d1.heap_side_ok(i) by {
                assert(d0.heap.is_used(i));
                assert(d0.heap_side_ok(i));
                if i == hi {
                    assert(d1.heap.slot_of(i).reflected == Some(s));
                    assert(d1.heap.slot_of(i).value == d0.heap.slot_of(i).value);
                    assert(d1.objects@[s as int] == Some(
                        ScriptObject {
                            class: d0.heap.slot_of(hi).value.spec_element_type(),
                            native: h.index,
                        },
                    ));
                } else {
                    assert(d1.heap.slots@[i] == d0.heap.slots@[i]);
                    match d1.heap.slot_of(i).reflected {
                        Some(s2) => {
                            assert((s2 as int) < d0.objects@.len());
                            assert(d1.objects@[s2 as int] == d0.objects@[s2 as int]);
                        },
                        None => {},
                    }
                }
            }
            assert forall|s2: int| 0 <= s2 < d1.objects@.len() implies d1.object_ok(s2) by {
                if s2 < d0.objects@.len() {
                    assert(d0.object_ok(s2));
                    assert(d1.objects@[s2] == d0.objects@[s2]);
                    match d0.objects@[s2] {
                        Some(o) => {
                            assert(o.native as int != hi);
                            assert(d0.heap.is_used(o.native as int));
                            assert(d0.heap.in_bounds(o.native as int));
                            assert(d1.heap.slots@[o.native as int] == d0.heap.slots@[o.native
                                as int]);
                            assert(d1.heap.is_used(o.native as int));
                            assert(d1.heap.slot_of(o.native as int).reflected == d0.heap.slot_of(
                                o.native as int,
                            ).reflected);
                        },
                        None => {},
                    }
                } else {
                    assert(s2 == d0.objects@.len());
                    assert(d1.heap.slot_of(hi).reflected == Some(s));
                }
            }
        }
        Ok(g)
    }

    /// Clears every object-table entry whose binding is stale: the native
    /// slot is gone, or no longer points back at the entry. Run after a
    /// collection cycle so that a reclaimed slot's wrapper is torn down
    /// with it.
    fn sweep_objects(&mut self)
        ensures
            final(self).id == old(self).id,
            final(self).heap == old(self).heap,
            final(self).objects@.len() == old(self).objects@.len(),
            forall|s: int|
                0 <= s < old(self).objects@.len() ==> #[trigger] final(self).objects@[s] == (
                match old(self).objects@[s] {
                    Some(o) => if old(self).heap.is_used(o.native as int)
                        && old(self).heap.slot_of(o.native as int).reflected == Some(s as usize) {
                        Some(o)
                    } else {
                        None::<ScriptObject>
                    },
                    None => None::<ScriptObject>,
                }),
    {
        let ghost d0 = *self;
        let m = self.objects.len();
        let mut s: usize = 0;
        while s < m
            invariant
                self.id == d0.id,
                self.heap == d0.heap,
                m == d0.objects@.len(),
                self.objects@.len() == m,
                s <= m,
                forall|k: int| s as int <= k < m ==> self.objects@[k] == d0.objects@[k],
                forall|k: int|
                    0 <= k < s as int ==> #[trigger] self.objects@[k] == (match d0.objects@[k] {
                        Some(o) => if d0.heap.is_used(o.native as int) && d0.heap.slot_of(
                            o.native as int,
                        ).reflected == Some(k as usize) {
                            Some(o)
                        } else {
                            None::<ScriptObject>
                        },
                        None => None::<ScriptObject>,
                    }),
            decreases m - s,
        {
            let keep: bool = match &self.objects[s] {
                Some(o) => {
                    let hs = HeapSlot { index: o.native };
                    if self.heap.contains(hs) {
                        match self.heap.reflected_of(hs) {
                            Some(rs) => rs == s,
                            None => false,
                        }
                    } else {
                        false
                    }
                },
                None => false,
            };
            if !keep {
                self.objects[s] = None;
            }
            s = s + 1;
        }
    }

    /// A forced collection cycle at the document level: the heap reclaims
    /// every slot not reachable from a root through owning links, and the
    /// object-table entry bound to a reclaimed slot is torn down with it.
    /// Rooted elements, their base-chain state and their wrappers survive
    /// intact.
    pub fn collect(&mut self)
        requires
            old(self).wf(),
        ensures
            final(self).wf(),
            final(self).id == old(self).id,
            final(self).heap.capacity == old(self).heap.capacity,
            final(self).heap.slots@.len() == old(self).heap.slots@.len(),
            forall|i: int|
                old(self).heap.in_bounds(i) ==> (#[trigger] final(self).heap.is_used(i) <==> (old(self).heap.is_used(i) && old(self).heap.live(i))),
            forall|i: int|
                old(self).heap.is_used(i) && old(self).heap.live(i) ==> #[trigger] final(self).heap.slot_of(i) == old(self).heap.collected_slot(i),
            final(self).objects@.len() == old(self).objects@.len(),
            forall|s: int|
                0 <= s < old(self).objects@.len() ==> #[trigger] final(self).objects@[s] == (
                match old(self).objects@[s] {
                    Some(o) => if old(self).heap.is_used(o.native as int) && old(self).heap.live(
                        o.native as int,
                    ) {
                        Some(o)
                    } else {
                        None::<ScriptObject>
                    },
                    None => None::<ScriptObject>,
                }),
    {
        let ghost d0 = *self;
        self.heap.collect();
        let ghost dm = *self;
        self.sweep_objects();
        proof {
            let d1 = *self;
            assert(d1.heap == dm.heap);
            // the sweep keeps exactly the entries whose native slot survived
            assert forall|s: int|
                0 <= s < d0.objects@.len() implies #[trigger] d1.objects@[s] == (
            match d0.objects@[s] {
                Some(o) => if d0.heap.is_used(o.native as int) && d0.heap.live(o.native as int) {
                    Some(o)
                } else {
                    None::<ScriptObject>
                },
                None => None::<ScriptObject>,
            }) by {
                match d0.objects@[s] {
                    Some(o) => {
                        assert(d0.object_ok(s));
                        assert(d0.heap.is_used(o.native as int));
                        if d0.heap.live(o.native as int) {
                            assert(dm.heap.slot_of(o.native as int) == d0.heap.collected_slot(
                                o.native as int,
                            ));
                            assert(dm.heap.slot_of(o.native as int).reflected == Some(s as usize));
                            assert(dm.heap.is_used(o.native as int));
                        } else {
                            assert(!dm.heap.is_used(o.native as int));
                        }
                    },
                    None => {},
                }
            }
            // the surviving pairing is still one-to-one
            assert forall|i: int| #[trigger] d1.heap.is_used(i) implies d1.heap_side_ok(i) by {
                assert(d0.heap.is_used(i) && d0.heap.live(i));
                assert(d0.heap_side_ok(i));
                assert(d1.heap.slot_of(i) == d0.heap.collected_slot(i));
                assert(d1.heap.slot_of(i).reflected == d0.heap.slot_of(i).reflected);
                assert(d1.heap.node_of(i).doc == d0.heap.node_of(i).doc);
                assert(d1.heap.slot_of(i).value.spec_element_type() == d0.heap.slot_of(
                    i,
                ).value.spec_element_type());
                match d0.heap.slot_of(i).reflected {
                    Some(sx) => {
                        assert(d1.objects@[sx as int] == d0.objects@[sx as int]);
                    },
                    None => {},
                }
            }
            assert forall|s: int| 0 <= s < d1.objects@.len() implies d1.object_ok(s) by {
                match d1.objects@[s] {
                    Some(o) => {
                        assert(d0.object_ok(s));
                        assert(d1.heap.is_used(o.native as int));
                        assert(d1.heap.slot_of(o.native as int) == d0.heap.collected_slot(
                            o.native as int,
                        ));
                    },
                    None => {},
                }
            }
        }
    }

    /// Allocates a fresh slot for a detached chain value built under this
    /// document. Under memory pressure a collection cycle (with wrapper
    /// teardown) is forced and the allocation retried once; exhaustion
    /// beyond that is fatal to the context.
    fn alloc_slot(&mut self, value: DomValue) -> (r: Result<HeapSlot, AllocError>)
        requires
            old(self).wf(),
            value.spec_node().parent is None,
            value.spec_node().children@.len() == 0,
            value.spec_node().doc == old(self).id,
        ensures
            final(self).wf(),
            final(self).id == old(self).id,
            (r is Err) <==> old(self).heap.exhausted(),
            r matches Ok(h) ==> {
                &&& final(self).heap.is_used(h.index as int)
                &&& final(self).heap.slot_of(h.index as int) == (Slot {
                    value: value,
                    root_count: 0u64,
                    reflected: None::<usize>,
                })
                &&& !(old(self).heap.is_used(h.index as int) && old(self).heap.live(
                    h.index as int,
                ))
            },
            forall|i: int|
                old(self).heap.is_used(i) && old(self).heap.live(i) ==> #[trigger] final(self).heap.is_used(i),
            forall|i: int|
                old(self).heap.is_used(i) && old(self).heap.live(i) ==> (#[trigger] final(self).heap.slot_of(i) == old(self).heap.slot_of(i) || final(self).heap.slot_of(i)
                    == old(self).heap.collected_slot(i)),
    {
        let ghost d0 = *self;
        let r = self.heap.allocate(value);
        let ghost dm = *self;
        self.sweep_objects();
        proof {
            let d1 = *self;
            assert(d1.heap == dm.heap);
            assert forall|i: int| #[trigger] d1.heap.is_used(i) implies d1.heap_side_ok(i) by {
                let fresh = match r {
                    Ok(h) => h.index as int == i,
                    Err(_) => false,
                };
                if fresh {
                    assert(d1.heap.slot_of(i).reflected is None);
                    assert(d1.heap.node_of(i).doc == d0.id);
                } else {
                    assert(d0.heap.is_used(i));
                    assert(d0.heap_side_ok(i));
                    assert(d1.heap.slot_of(i).reflected == d0.heap.slot_of(i).reflected);
                    assert(d1.heap.node_of(i).doc == d0.heap.node_of(i).doc);
                    assert(d1.heap.slot_of(i).value.spec_element_type() == d0.heap.slot_of(
                        i,
                    ).value.spec_element_type());
                    match d0.heap.slot_of(i).reflected {
                        Some(sx) => {
                            assert(d0.object_ok(sx as int));
                            assert(d1.objects@[sx as int] == d0.objects@[sx as int]);
                        },
                        None => {},
                    }
                }
            }
            assert forall|s: int| 0 <= s < d1.objects@.len() implies d1.object_ok(s) by {
                match d1.objects@[s] {
                    Some(o) => {
                        assert(d1.objects@[s] == d0.objects@[s]);
                    },
                    None => {},
                }
            }
        }
        r
    }

    /// Creates a concrete element of the requested leaf type under this
    /// document: the embedding chain is built bottom-up, placed on the
    /// heap, rooted, and reflected; the caller receives the rooted handle.
    pub fn create_element(&mut self, tag: ElementType, local_name: String, prefix: Option<String>)
        -> (r: Result<RootGuard, AllocError>)
        requires
            old(self).wf(),
        ensures
            final(self).wf(),
            final(self).id == old(self).id,
            (r is Err) <==> old(self).heap.exhausted(),
            r matches Ok(g) ==> {
                let i = g.target().index as int;
                &&& final(self).heap.is_used(i)
                &&& final(self).heap.node_of(i).local_name == local_name
                &&& final(self).heap.node_of(i).prefix == prefix
                &&& final(self).heap.node_of(i).doc == old(self).id
                &&& final(self).heap.node_of(i).parent is None
                &&& final(self).heap.node_of(i).children@.len() == 0
                &&& final(self).heap.slot_of(i).value.spec_element_type() == tag
                &&& final(self).heap.slot_of(i).root_count == 1
                &&& final(self).spec_script_of(g.target()) is Some
            },
            forall|i: int|
                old(self).heap.is_used(i) && old(self).heap.live(i) ==> #[trigger] final(self).heap.is_used(i),
            forall|i: int|
                old(self).heap.is_used(i) && old(self).heap.live(i) ==> (#[trigger] final(self).heap.slot_of(i) == old(self).heap.slot_of(i) || final(self).heap.slot_of(i)
                    == old(self).heap.collected_slot(i)),
    {
        match tag {
            ElementType::Media => HTMLMediaElement::new(local_name, prefix, self),
            ElementType::Video => HTMLVideoElement::new(local_name, prefix, self),
        }
    }

    /// Attaches a detached, childless node under a parent, as the tree
    /// layer sees it: one owning link downward, a weak link upward, and
    /// the reflector pairing untouched.
    pub fn append_child(&mut self, p: HeapSlot, c: HeapSlot)
        requires
            old(self).wf(),
            old(self).heap.is_used(p.index as int),
            old(self).heap.is_used(c.index as int),
            p.index != c.index,
            old(self).heap.node_of(c.index as int).parent is None,
            old(self).heap.node_of(c.index as int).children@.len() == 0,
            old(self).heap.node_of(p.index as int).depth < usize::MAX,
        ensures
            final(self).wf(),
            final(self).id == old(self).id,
            final(self).objects@ == old(self).objects@,
            final(self).heap.slots@.len() == old(self).heap.slots@.len(),
            forall|i: int|
                old(self).heap.in_bounds(i) && i != p.index as int && i != c.index as int
                    ==> final(self).heap.slots@[i] == old(self).heap.slots@[i],
            forall|i: int| #[trigger] final(self).heap.is_used(i) <==> old(self).heap.is_used(i),
            final(self).heap.node_of(c.index as int).parent == Some(p.index),
            final(self).heap.node_of(c.index as int).eq_except_children(
                old(self).heap.node_of(c.index as int).with_parent(Some(p.index)).with_depth(
                    (old(self).heap.node_of(p.index as int).depth + 1) as usize,
                ),
            ),
            final(self).heap.node_of(p.index as int).children@ == old(self).heap.node_of(
                p.index as int,
            ).children@.push(c.index),
            final(self).heap.node_of(p.index as int).eq_except_children(
                old(self).heap.node_of(p.index as int),
            ),
    {
        self.heap.append_child(p, c);
        proof {
            assert forall|i: int|
                self.heap.is_used(i) implies (#[trigger] self.heap.slot_of(i)).reflected == old(
                self,
            ).heap.slot_of(i).reflected && self.heap.node_of(i).doc == old(self).heap.node_of(
                i,
            ).doc && self.heap.slot_of(i).value.spec_element_type() == old(self).heap.slot_of(
                i,
            ).value.spec_element_type() by {
                if i != p.index as int && i != c.index as int {
                    assert(self.heap.slots@[i] == old(self).heap.slots@[i]);
                }
            }
            Self::lemma_wf_same_slots(*old(self), *self);
        }
    }

    /// Detaches a child from its parent, as the tree layer sees it: the
    /// owning link is removed and the weak upward link cleared; once no
    /// root reaches the child, the next collection cycle reclaims it.
    pub fn remove_child(&mut self, p: HeapSlot, c: HeapSlot)
        requires
            old(self).wf(),
            old(self).heap.is_used(p.index as int),
            old(self).heap.is_used(c.index as int),
            old(self).heap.node_of(c.index as int).parent == Some(p.index),
        ensures
            final(self).wf(),
            final(self).id == old(self).id,
            final(self).objects@ == old(self).objects@,
            final(self).heap.slots@.len() == old(self).heap.slots@.len(),
            forall|i: int|
                old(self).heap.in_bounds(i) && i != p.index as int && i != c.index as int
                    ==> final(self).heap.slots@[i] == old(self).heap.slots@[i],
            forall|i: int| #[trigger] final(self).heap.is_used(i) <==> old(self).heap.is_used(i),
            final(self).heap.node_of(c.index as int).parent is None,
            final(self).heap.node_of(c.index as int).eq_except_children(
                old(self).heap.node_of(c.index as int).with_parent(None),
            ),
            final(self).heap.node_of(c.index as int).children@ == old(self).heap.node_of(
                c.index as int,
            ).children@,
            final(self).heap.node_of(p.index as int).children@ == old(self).heap.node_of(
                p.index as int,
            ).children@.remove_value(c.index),
            final(self).heap.node_of(p.index as int).eq_except_children(
                old(self).heap.node_of(p.index as int),
            ),
    {
        self.heap.remove_child(p, c);
        proof {
            assert forall|i: int|
                self.heap.is_used(i) implies (#[trigger] self.heap.slot_of(i)).reflected == old(
                self,
            ).heap.slot_of(i).reflected && self.heap.node_of(i).doc == old(self).heap.node_of(
                i,
            ).doc && self.heap.slot_of(i).value.spec_element_type() == old(self).heap.slot_of(
                i,
            ).value.spec_element_type() by {
                if i != p.index as int && i != c.index as int {
                    assert(self.heap.slots@[i] == old(self).heap.slots@[i]);
                }
            }
            Self::lemma_wf_same_slots(*old(self), *self);
        }
    }

    /// The native slot bound to a scripting object, as the runtime sees it.
    pub fn native_of(&self, s: ScriptHandle) -> (r: Option<HeapSlot>)
        ensures
            r == self.spec_native_of(s),
    {
        if s.index < self.objects.len() {
            match &self.objects[s.index] {
                Some(o) => Some(HeapSlot { index: o.native }),
                None => None,
            }
        } else {
            None
        }
    }

    /// The scripting object bound to a native slot, if it has one.
    pub fn script_object_of(&self, h: HeapSlot) -> (r: Option<ScriptHandle>)
        requires
            self.heap.is_used(h.index as int),
        ensures
            r == self.spec_script_of(h),
    {
        match self.heap.reflected_of(h) {
            Some(s) => Some(ScriptHandle { index: s }),
            None => None,
        }
    }
}

impl Node {
    /// Places a freshly built, detached chain value on the traced heap and
    /// immediately reflects it: the slot is rooted and its scripting
    /// wrapper bound before the handle is handed out, so no unrooted
    /// reference ever crosses a point that may trigger a collection.
    pub fn reflect_node(value: DomValue, document: &mut Document) -> (r: Result<
        RootGuard,
        AllocError,
    >)
        requires
            old(document).wf(),
            value.spec_node().parent is None,
            value.spec_node().children@.len() == 0,
            value.spec_node().doc == old(document).id,
        ensures
            final(document).wf(),
            final(document).id == old(document).id,
            (r is Err) <==> old(document).heap.exhausted(),
            r matches Ok(g) ==> {
                let i = g.target().index as int;
                &&& final(document).heap.is_used(i)
                &&& final(document).heap.slot_of(i).value == value
                &&& final(document).heap.slot_of(i).root_count == 1
                &&& final(document).heap.slot_of(i).reflected is Some
                &&& final(document).spec_script_of(g.target()) is Some
                &&& !(old(document).heap.is_used(i) && old(document).heap.live(i))
            },
            forall|i: int|
                old(document).heap.is_used(i) && old(document).heap.live(i) ==> #[trigger] final(document).heap.is_used(i),
            forall|i: int|
                old(document).heap.is_used(i) && old(document).heap.live(i) ==> (#[trigger] final(document).heap.slot_of(i) == old(document).heap.slot_of(i) || final(document).heap.slot_of(i) == old(document).heap.collected_slot(i)),
    {
        let ghost d0 = *document;
        match document.alloc_slot(value) {
            Err(e) => Err(e),
            Ok(h) => {
                let ghost dm = *document;
                match document.reflect(h) {
                    Ok(g) => {
                        proof {
                            let d1 = *document;
                            let hi = h.index as int;
                            assert forall|i: int|
                                d0.heap.is_used(i) && d0.heap.live(i) implies #[trigger] d1
                                .heap.is_used(i) by {
                                assert(dm.heap.is_used(i));
                                assert(i != hi);
                                assert(d1.heap.slots@[i] == dm.heap.slots@[i]);
                            }
                            assert forall|i: int|
                                d0.heap.is_used(i) && d0.heap.live(i) implies (#[trigger] d1
                                .heap.slot_of(i) == d0.heap.slot_of(i) || d1.heap.slot_of(i)
                                == d0.heap.collected_slot(i)) by {
                                assert(dm.heap.is_used(i));
                                assert(i != hi);
                                assert(d1.heap.slots@[i] == dm.heap.slots@[i]);
                                assert(dm.heap.slot_of(i) == d0.heap.slot_of(i)
                                    || dm.heap.slot_of(i) == d0.heap.collected_slot(i));
                            }
                        }
                        Ok(g)
                    },
                    Err(_) => {
                        proof {
                            assert(false);
                        }
                        unreached()
                    },
                }
            },
        }
    }
}

impl HTMLMediaElement {
    /// Builds a media element bottom-up through the embedding chain and
    /// hands it to the rooting and reflection protocol; the caller receives
    /// a rooted handle, never a bare reference.
    pub fn new(local_name: String, prefix: Option<String>, document: &mut Document) -> (r: Result<
        RootGuard,
        AllocError,
    >)
        requires
            old(document).wf(),
        ensures
            final(document).wf(),
            final(document).id == old(document).id,
            (r is Err) <==> old(document).heap.exhausted(),
            r matches Ok(g) ==> {
                let i = g.target().index as int;
                &&& final(document).heap.is_used(i)
                &&& final(document).heap.node_of(i).local_name == local_name
                &&& final(document).heap.node_of(i).prefix == prefix
                &&& final(document).heap.node_of(i).doc == old(document).id
                &&& final(document).heap.node_of(i).parent is None
                &&& final(document).heap.node_of(i).children@.len() == 0
                &&& final(document).heap.slot_of(i).value.spec_element_type()
                    == ElementType::Media
                &&& final(document).heap.slot_of(i).root_count == 1
                &&& final(document).spec_script_of(g.target()) is Some
            },
            forall|i: int|
                old(document).heap.is_used(i) && old(document).heap.live(i) ==> #[trigger] final(document).heap.is_used(i),
            forall|i: int|
                old(document).heap.is_used(i) && old(document).heap.live(i) ==> (#[trigger] final(document).heap.slot_of(i) == old(document).heap.slot_of(i) || final(document).heap.slot_of(i) == old(document).heap.collected_slot(i)),
    {
        let m = HTMLMediaElement::new_inherited(local_name, prefix, document.id);
        Node::reflect_node(DomValue::Media(m), document)
    }
}

impl HTMLVideoElement {
    /// Builds a video element bottom-up through the embedding chain and
    /// hands it to the rooting and reflection protocol; the caller receives
    /// a rooted handle, never a bare reference.
    pub fn new(local_name: String, prefix: Option<String>, document: &mut Document) -> (r: Result<
        RootGuard,
        AllocError,
    >)
        requires
            old(document).wf(),
        ensures
            final(document).wf(),
            final(document).id == old(document).id,
            (r is Err) <==> old(document).heap.exhausted(),
            r matches Ok(g) ==> {
                let i = g.target().index as int;
                &&& final(document).heap.is_used(i)
                &&& final(document).heap.node_of(i).local_name == local_name
                &&& final(document).heap.node_of(i).prefix == prefix
                &&& final(document).heap.node_of(i).doc == old(document).id
                &&& final(document).heap.node_of(i).parent is None
                &&& final(document).heap.node_of(i).children@.len() == 0
                &&& final(document).heap.slot_of(i).value.spec_element_type()
                    == ElementType::Video
                &&& final(document).heap.slot_of(i).root_count == 1
                &&& final(document).spec_script_of(g.target()) is Some
            },
            forall|i: int|
                old(document).heap.is_used(i) && old(document).heap.live(i) ==> #[trigger] final(document).heap.is_used(i),
            forall|i: int|
                old(document).heap.is_used(i) && old(document).heap.live(i) ==> (#[trigger] final(document).heap.slot_of(i) == old(document).heap.slot_of(i) || final(document).heap.slot_of(i) == old(document).heap.collected_slot(i)),
    {
        let v = HTMLVideoElement::new_inherited(local_name, prefix, document.id);
        Node::reflect_node(DomValue::Video(v), document)
    }
}

/// In a well-formed document every node's owning-document back-reference is
/// the document's own identity: the value handed over at construction never
/// changes, whatever rooting, attachment or collection happens afterwards.
pub proof fn lemma_owning_document_constant(d: Document, i: int)
    requires
        d.wf(),
        d.heap.is_used(i),
    ensures
        d.heap.node_of(i).doc == d.id,
{
    assert(d.heap_side_ok(i));
}

/// Round trip, native side: for any reflected object, looking up the native
/// slot of the slot's own scripting object yields the slot itself — the
/// reflector link is one-to-one.
pub proof fn lemma_reflection_round_trip(d: Document, h: HeapSlot)
    requires
        d.wf(),
        d.heap.is_used(h.index as int),
        d.spec_script_of(h) is Some,
    ensures
        d.spec_native_of(d.spec_script_of(h)->Some_0) == Some(h),
{
    assert(d.heap_side_ok(h.index as int));
}

/// Round trip, script side: a bound scripting object is exactly the one its
/// native slot points back at.
pub proof fn lemma_reflection_round_trip_script(d: Document, s: ScriptHandle)
    requires
        d.wf(),
        d.spec_native_of(s) is Some,
    ensures
        d.heap.is_used(d.spec_native_of(s)->Some_0.index as int),
        d.spec_script_of(d.spec_native_of(s)->Some_0) == Some(s),
{
    assert(d.object_ok(s.index as int));
}

} // verus!
