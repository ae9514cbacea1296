//! The collector: the manager that owns the heap and the intake list,
//! the handle operations on it, and the collection cycle.

use std::collections::VecDeque;

use vstd::prelude::*;

use crate::graph::{
    aged, aged_slots, cycle, live_below, edge, header, is_root, lemma_same_graph_reachable, next_pos, swept_slots, lemma_closed_holds_reachable, lemma_edge_reachable, lemma_mark_one,
    lemma_root_reachable, live, marked, reachable, same_graph, unlocked, unmarked_below,
};
use crate::traceable::Traceable;
use crate::laws::pin_step;
use crate::mem_block::{Data, PinPtr, Ptr};

verus! {

/// The worklist of a mark phase: addresses handed over by trace callbacks.
pub struct TracingContext {
    objects: VecDeque<usize>,
}

impl View for TracingContext {
    type V = Seq<usize>;

    closed spec fn view(&self) -> Seq<usize> {
        self.objects@
    }
}

impl TracingContext {
    fn new() -> (r: Self)
        ensures
            r@ == Seq::<usize>::empty(),
    {
        TracingContext { objects: VecDeque::new() }
    }

    /// Queues the object `ptr` refers to for tracing.
    pub fn trace(&mut self, ptr: Ptr)
        ensures
            final(self)@ == old(self)@.push(ptr@),
    {
        self.objects.push_back(ptr.raw());
    }

    /// Takes the oldest queued address, if any.
    fn get_object(&mut self) -> (r: Option<usize>)
        ensures
            old(self)@.len() == 0 ==> r is None && final(self)@ == old(self)@,
            old(self)@.len() > 0 ==> r == Some(old(self)@[0]) && final(self)@ == old(self)@.drop_first(),
    {
        self.objects.pop_front()
    }
}


/// Death threshold used by `Manager::new`: an object whose position exceeds
/// it at the end of a cycle is freed.
pub const DEATH_THRESHOLD: u8 = 10;

/// What the contracts see of a manager.
pub struct GcState<Q> {
    /// The heap: one slot per address ever allocated, `None` once freed.
    pub slots: Seq<Option<Data<Q>>>,
    /// Addresses the collector has adopted.
    pub adopted: Seq<usize>,
    /// Addresses registered since the last cycle, not yet adopted.
    pub intake: Seq<usize>,
    /// Death threshold.
    pub threshold: u8,
}

impl<Q> GcState<Q> {
    /// Every live object is either adopted or waiting in the intake list,
    /// each address at most once, and no trace lock is held.
    pub open spec fn wf(&self) -> bool {
        &&& self.threshold < 255
        &&& self.slots.len() <= usize::MAX
        &&& unlocked(self.slots)
        &&& self.adopted.no_duplicates()
        &&& self.intake.no_duplicates()
        &&& forall|i: int| 0 <= i < self.adopted.len() ==> live(self.slots, #[trigger] self.adopted[i])
        &&& forall|i: int| 0 <= i < self.intake.len() ==> live(self.slots, #[trigger] self.intake[i])
        &&& forall|a: usize| #[trigger]
            live(self.slots, a) ==> (self.adopted.contains(a) <==> !self.intake.contains(a))
    }

    /// Replacing the header of a live object by one that holds no trace lock
    /// keeps the state well formed.
    pub proof fn lemma_updated_wf(&self, a: usize, d: Data<Q>)
        requires
            self.wf(),
            live(self.slots, a),
            !d.trace_lock,
        ensures
            self.updated(a, d).wf(),
            forall|b: usize| #[trigger] live(self.updated(a, d).slots, b) <==> live(self.slots, b),
    {
        let n = self.updated(a, d);
        assert forall|b: usize| #[trigger] live(n.slots, b) <==> live(self.slots, b) by {}
        assert forall|i: int| 0 <= i < n.adopted.len() implies live(n.slots, #[trigger] n.adopted[i]) by {
            assert(live(self.slots, self.adopted[i]));
        }
        assert forall|i: int| 0 <= i < n.intake.len() implies live(n.slots, #[trigger] n.intake[i]) by {
            assert(live(self.slots, self.intake[i]));
        }
        assert forall|b: usize| #[trigger] live(n.slots, b) implies (n.adopted.contains(b) <==> !n.intake.contains(b)) by {
            assert(live(self.slots, b));
        }
        assert forall|b: usize| live(n.slots, b) implies !(#[trigger] header(n.slots, b)).trace_lock by {
            if b != a {
                assert(live(self.slots, b));
                assert(n.slots[b as int] == self.slots[b as int]);
                assert(!header(self.slots, b).trace_lock);
            } else {
                assert(n.slots[b as int] == Some(d));
            }
        }
    }

    /// Same adopted and intake lists and threshold; slot `a` replaced by `d`.
    pub open spec fn updated(&self, a: usize, d: Data<Q>) -> GcState<Q> {
        GcState {
            slots: self.slots.update(a as int, Some(d)),
            adopted: self.adopted,
            intake: self.intake,
            threshold: self.threshold,
        }
    }
}

/// The collector's context: the heap, the intake list of newly created
/// objects, and the set of objects the collector tracks.
pub struct Manager<Q> {
    slots: Vec<Option<Data<Q>>>,
    objects: Vec<usize>,
    sink: Vec<usize>,
    threshold: u8,
}

impl<Q> View for Manager<Q> {
    type V = GcState<Q>;

    closed spec fn view(&self) -> GcState<Q> {
        GcState {
            slots: self.slots@,
            adopted: self.objects@,
            intake: self.sink@,
            threshold: self.threshold,
        }
    }
}

impl<Q> Manager<Q> {
    pub open spec fn wf(&self) -> bool {
        self@.wf()
    }

    /// An empty manager with the default death threshold.
    pub fn new() -> (r: Self)
        ensures
            r.wf(),
            r@.slots.len() == 0,
            r@.adopted.len() == 0,
            r@.intake.len() == 0,
            r@.threshold == DEATH_THRESHOLD,
    {
        Manager { slots: Vec::new(), objects: Vec::new(), sink: Vec::new(), threshold: DEATH_THRESHOLD }
    }

    /// An empty manager that frees objects whose position exceeds `threshold`.
    pub fn with_threshold(threshold: u8) -> (r: Self)
        requires
            threshold < 255,
        ensures
            r.wf(),
            r@.slots.len() == 0,
            r@.adopted.len() == 0,
            r@.intake.len() == 0,
            r@.threshold == threshold,
    {
        Manager { slots: Vec::new(), objects: Vec::new(), sink: Vec::new(), threshold }
    }

    /// The death threshold.
    pub fn threshold(&self) -> (r: u8)
        ensures
            r == self@.threshold,
    {
        self.threshold
    }

    /// Whether `p` refers to an allocated object.
    pub fn is_live(&self, p: Ptr) -> (r: bool)
        ensures
            r == live(self@.slots, p@),
    {
        let a = p.raw();
        a < self.slots.len() && self.slots[a].is_some()
    }

    /// Allocates `data` with one pin and position 0 and registers it in the
    /// intake list.
    fn allocate(&mut self, data: Q) -> (r: PinPtr)
        requires
            old(self).wf(),
            old(self)@.slots.len() < usize::MAX,
        ensures
            final(self).wf(),
            r@ == old(self)@.slots.len(),
            final(self)@.slots == old(self)@.slots.push(Some(Data::<Q> { pins: 1, pos: 0, trace_lock: false, payload: data })),
            final(self)@.adopted == old(self)@.adopted,
            final(self)@.intake == old(self)@.intake.push(r@),
            final(self)@.threshold == old(self)@.threshold,
    {
        let a = self.slots.len();
        self.slots.push(Some(Data::new(data)));
        proof {
            assert(!self.sink@.contains(a)) by {
                if self.sink@.contains(a) {
                    let i = self.sink@.index_of(a);
                    assert(live(old(self)@.slots, old(self)@.intake[i]));
                }
            }
            assert(!self.objects@.contains(a)) by {
                if self.objects@.contains(a) {
                    let i = self.objects@.index_of(a);
                    assert(live(old(self)@.slots, old(self)@.adopted[i]));
                }
            }
            assert forall|b: usize| live(old(self)@.slots, b) <==> live(self@.slots, b) && b != a by {}
        }
        self.sink.push(a);
        proof {
            assert forall|i: int| 0 <= i < self@.adopted.len() implies live(self@.slots, #[trigger] self@.adopted[i]) by {
                assert(live(old(self)@.slots, old(self)@.adopted[i]));
            }
            assert forall|i: int| 0 <= i < self@.intake.len() implies live(self@.slots, #[trigger] self@.intake[i]) by {
                if i < old(self)@.intake.len() {
                    assert(live(old(self)@.slots, old(self)@.intake[i]));
                }
            }
            assert forall|b: usize| #[trigger] live(self@.slots, b) implies (self@.adopted.contains(b) <==> !self@.intake.contains(b)) by {
                if b != a {
                    assert(live(old(self)@.slots, b));
                    assert(self@.intake.contains(b) <==> old(self)@.intake.contains(b)) by {
                        if self@.intake.contains(b) {
                            let i = self@.intake.index_of(b);
                            assert(old(self)@.intake[i] == b);
                        }
                        if old(self)@.intake.contains(b) {
                            let i = old(self)@.intake.index_of(b);
                            assert(self@.intake[i] == b);
                        }
                    }
                } else {
                    assert(self@.intake[self@.intake.len() - 1] == a);
                }
            }
            assert(unlocked(self@.slots)) by {
                assert forall|b: usize| live(self@.slots, b) implies !(#[trigger] header(self@.slots, b)).trace_lock by {
                    if b != a {
                        assert(live(old(self)@.slots, b));
                        assert(header(self@.slots, b) == header(old(self)@.slots, b));
                    } else {
                        assert(self@.slots[a as int] == Some(Data::<Q> { pins: 1, pos: 0, trace_lock: false, payload: data }));
                    }
                }
            }
        }
        PinPtr::wrap(Ptr::at(a))
    }

    /// Replaces the header at `a`, keeping its payload.
    fn set_header(&mut self, a: usize, pins: u32, pos: u8)
        requires
            live(old(self)@.slots, a),
        ensures
            final(self)@ == old(self)@.updated(a, header(old(self)@.slots, a).with_pins(pins).with_pos(pos)),
    {
        match &mut self.slots[a] {
            Some(d) => {
                d.pins = pins;
                d.pos = pos;
            },
            None => {},
        }
    }
}


impl<Q> Manager<Q> {
    /// Replaces the payload at `a`.
    fn set_payload(&mut self, a: usize, value: Q)
        requires
            live(old(self)@.slots, a),
        ensures
            final(self)@ == old(self)@.updated(a, header(old(self)@.slots, a).with_payload(value)),
    {
        match &mut self.slots[a] {
            Some(d) => {
                d.payload = value;
            },
            None => {},
        }
    }

    /// Number of live objects in the heap.
    pub fn live_count(&self) -> (r: usize)
        ensures
            r == live_below(self@.slots, self@.slots.len() as int),
    {
        let mut n: usize = 0;
        let mut i: usize = 0;
        while i < self.slots.len()
            invariant
                i <= self@.slots.len(),
                n == live_below(self@.slots, i as int),
                n <= i,
            decreases self@.slots.len() - i,
        {
            if self.slots[i].is_some() {
                n = n + 1;
            }
            i = i + 1;
        }
        n
    }
}

impl Ptr {
    /// Allocates `data` with one pin and position 0, registers it for
    /// collection and returns the owning handle.
    pub fn new<Q: Traceable>(mgr: &mut Manager<Q>, data: Q) -> (r: PinPtr)
        requires
            old(mgr).wf(),
            old(mgr)@.slots.len() < usize::MAX,
        ensures
            final(mgr).wf(),
            r@ == old(mgr)@.slots.len(),
            final(mgr)@.slots == old(mgr)@.slots.push(Some(Data::<Q> { pins: 1, pos: 0, trace_lock: false, payload: data })),
            final(mgr)@.adopted == old(mgr)@.adopted,
            final(mgr)@.intake == old(mgr)@.intake.push(r@),
            final(mgr)@.threshold == old(mgr)@.threshold,
    {
        PinPtr::new(mgr, data)
    }

    /// Pins the object and returns an owning handle to it.
    pub fn into_pinned<Q>(self, mgr: &mut Manager<Q>) -> (r: PinPtr)
        requires
            old(mgr).wf(),
            live(old(mgr)@.slots, self@),
            header(old(mgr)@.slots, self@).pins < u32::MAX,
        ensures
            final(mgr).wf(),
            r@ == self@,
            final(mgr)@ == old(mgr)@.updated(self@, pin_step(header(old(mgr)@.slots, self@), true)),
    {
        self.pin(mgr);
        PinPtr::wrap(self)
    }

    /// The object's pin count.
    pub fn get_pins<Q>(&self, mgr: &Manager<Q>) -> (r: u32)
        requires
            live(mgr@.slots, self@),
        ensures
            r == header(mgr@.slots, self@).pins,
    {
        mgr.slots[self.raw()].as_ref().unwrap().pins
    }

    /// Increases the object's pin count by one.
    pub fn pin<Q>(&self, mgr: &mut Manager<Q>)
        requires
            old(mgr).wf(),
            live(old(mgr)@.slots, self@),
            header(old(mgr)@.slots, self@).pins < u32::MAX,
        ensures
            final(mgr).wf(),
            final(mgr)@ == old(mgr)@.updated(self@, pin_step(header(old(mgr)@.slots, self@), true)),
    {
        let a = self.raw();
        let pins = self.get_pins(mgr);
        let pos = self.get_pos(mgr);
        proof {
            let h = header(mgr@.slots, a);
            mgr@.lemma_updated_wf(a, h.with_pins((pins + 1) as u32));
        }
        mgr.set_header(a, pins + 1, pos);
    }

    /// Decreases the object's pin count by one.
    pub fn unpin<Q>(&self, mgr: &mut Manager<Q>)
        requires
            old(mgr).wf(),
            live(old(mgr)@.slots, self@),
            header(old(mgr)@.slots, self@).pins > 0,
        ensures
            final(mgr).wf(),
            final(mgr)@ == old(mgr)@.updated(self@, pin_step(header(old(mgr)@.slots, self@), false)),
    {
        let a = self.raw();
        let pins = self.get_pins(mgr);
        let pos = self.get_pos(mgr);
        proof {
            let h = header(mgr@.slots, a);
            mgr@.lemma_updated_wf(a, h.with_pins((pins - 1) as u32));
        }
        mgr.set_header(a, pins - 1, pos);
    }

    /// Ages the object by one cycle and returns its previous position.
    pub fn move_up<Q>(&self, mgr: &mut Manager<Q>) -> (r: u8)
        requires
            old(mgr).wf(),
            live(old(mgr)@.slots, self@),
            header(old(mgr)@.slots, self@).pos < u8::MAX,
        ensures
            final(mgr).wf(),
            r == header(old(mgr)@.slots, self@).pos,
            final(mgr)@ == old(mgr)@.updated(self@, header(old(mgr)@.slots, self@).with_pos((r + 1) as u8)),
    {
        let a = self.raw();
        let pins = self.get_pins(mgr);
        let pos = self.get_pos(mgr);
        proof {
            let h = header(mgr@.slots, a);
            mgr@.lemma_updated_wf(a, h.with_pos((pos + 1) as u8));
        }
        mgr.set_header(a, pins, pos + 1);
        pos
    }

    /// The object's position: cycles since it was last reached.
    pub fn get_pos<Q>(&self, mgr: &Manager<Q>) -> (r: u8)
        requires
            live(mgr@.slots, self@),
        ensures
            r == header(mgr@.slots, self@).pos,
    {
        mgr.slots[self.raw()].as_ref().unwrap().pos
    }

    /// Read access to the payload. No trace callback runs while the caller
    /// holds the manager, so the trace lock is free.
    pub fn deref<'a, Q>(&self, mgr: &'a Manager<Q>) -> (r: &'a Q)
        requires
            live(mgr@.slots, self@),
        ensures
            *r == header(mgr@.slots, self@).payload,
    {
        &mgr.slots[self.raw()].as_ref().unwrap().payload
    }

    /// Replaces the payload.
    pub fn write<Q>(&self, mgr: &mut Manager<Q>, value: Q)
        requires
            old(mgr).wf(),
            live(old(mgr)@.slots, self@),
        ensures
            final(mgr).wf(),
            final(mgr)@ == old(mgr)@.updated(self@, header(old(mgr)@.slots, self@).with_payload(value)),
    {
        let a = self.raw();
        proof {
            let h = header(mgr@.slots, a);
            mgr@.lemma_updated_wf(a, h.with_payload(value));
        }
        mgr.set_payload(a, value);
    }
}

impl PinPtr {
    /// Allocates `data` with one pin and position 0, registers it for
    /// collection and returns the owning handle.
    pub fn new<Q>(mgr: &mut Manager<Q>, data: Q) -> (r: PinPtr)
        requires
            old(mgr).wf(),
            old(mgr)@.slots.len() < usize::MAX,
        ensures
            final(mgr).wf(),
            r@ == old(mgr)@.slots.len(),
            final(mgr)@.slots == old(mgr)@.slots.push(Some(Data::<Q> { pins: 1, pos: 0, trace_lock: false, payload: data })),
            final(mgr)@.adopted == old(mgr)@.adopted,
            final(mgr)@.intake == old(mgr)@.intake.push(r@),
            final(mgr)@.threshold == old(mgr)@.threshold,
    {
        mgr.allocate(data)
    }

    /// Another owning handle to the same object; the pin count goes up by one.
    pub fn clone<Q>(&self, mgr: &mut Manager<Q>) -> (r: PinPtr)
        requires
            old(mgr).wf(),
            live(old(mgr)@.slots, self@),
            header(old(mgr)@.slots, self@).pins < u32::MAX,
        ensures
            final(mgr).wf(),
            r@ == self@,
            final(mgr)@ == old(mgr)@.updated(self@, pin_step(header(old(mgr)@.slots, self@), true)),
    {
        self.downgrade().into_pinned(mgr)
    }

    /// Gives the handle up; the pin count goes down by one. Memory is only
    /// reclaimed by a later collection cycle.
    pub fn release<Q>(self, mgr: &mut Manager<Q>)
        requires
            old(mgr).wf(),
            live(old(mgr)@.slots, self@),
            header(old(mgr)@.slots, self@).pins > 0,
        ensures
            final(mgr).wf(),
            final(mgr)@ == old(mgr)@.updated(self@, pin_step(header(old(mgr)@.slots, self@), false)),
    {
        self.downgrade().unpin(mgr);
    }

    /// Gives the handle up and returns a non-owning handle to the object.
    pub fn into_unpinned<Q>(self, mgr: &mut Manager<Q>) -> (r: Ptr)
        requires
            old(mgr).wf(),
            live(old(mgr)@.slots, self@),
            header(old(mgr)@.slots, self@).pins > 0,
        ensures
            final(mgr).wf(),
            r@ == self@,
            final(mgr)@ == old(mgr)@.updated(self@, pin_step(header(old(mgr)@.slots, self@), false)),
    {
        let p = self.downgrade();
        self.release(mgr);
        p
    }
}

/// Creates the collector's context. Cycles are run by calling
/// `Manager::collect`, typically from a dedicated thread at a fixed interval.
pub fn start_gc_manager<Q: Traceable>() -> (r: Manager<Q>)
    ensures
        r.wf(),
        r@.slots.len() == 0,
        r@.adopted.len() == 0,
        r@.intake.len() == 0,
        r@.threshold == DEATH_THRESHOLD,
{
    Manager::new()
}


/// What one collection cycle did.
pub struct CycleReport {
    /// Objects whose trace callback ran, in the order it ran.
    pub traced: Vec<usize>,
    /// Objects freed by the sweep.
    pub freed: Vec<usize>,
}

/// The state of a mark phase that started from the heap `s0`: `s` differs
/// from `s0` only in positions reset to 0; every marked object is reachable
/// and its references are marked or queued; `traced` lists each marked
/// object once.
spec fn mark_inv<Q: Traceable>(
    s0: Seq<Option<Data<Q>>>,
    s: Seq<Option<Data<Q>>>,
    queue: Seq<usize>,
    traced: Seq<usize>,
) -> bool {
    &&& same_graph(s0, s)
    &&& unlocked(s)
    &&& forall|a: usize| #[trigger]
        live(s, a) ==> header(s, a).pos == header(s0, a).pos || header(s, a).pos == 0
    &&& forall|a: usize| #[trigger] marked(s, a) ==> reachable(s0, a)
    &&& forall|i: int| 0 <= i < queue.len() ==> reachable(s0, #[trigger] queue[i])
    &&& forall|a: usize, c: usize|
        marked(s, a) && #[trigger] edge(s0, a, c) && live(s0, c) ==> #[trigger] marked(s, c)
            || queue.contains(c)
    &&& traced.no_duplicates()
    &&& forall|a: usize| #[trigger] traced.contains(a) <==> marked(s, a)
}

impl<Q: Traceable> Manager<Q> {
    /// Resets the position of the object at `a` to 0; if it had aged since
    /// it was last reached, runs its trace callback under the trace lock.
    fn trace_object(
        &mut self,
        a: usize,
        ctx: &mut TracingContext,
        traced: &mut Vec<usize>,
        Ghost(s0): Ghost<Seq<Option<Data<Q>>>>,
    )
        requires
            old(self).wf(),
            mark_inv(s0, old(self)@.slots, seq![a] + old(ctx)@, old(traced)@),
        ensures
            final(self).wf(),
            final(self)@.adopted == old(self)@.adopted,
            final(self)@.intake == old(self)@.intake,
            final(self)@.threshold == old(self)@.threshold,
            mark_inv(s0, final(self)@.slots, final(ctx)@, final(traced)@),
            forall|x: usize| marked(old(self)@.slots, x) ==> #[trigger] marked(final(self)@.slots, x),
            live(old(self)@.slots, a) ==> marked(final(self)@.slots, a),
            if live(old(self)@.slots, a) && !marked(old(self)@.slots, a) {
                final(self)@.slots == old(self)@.slots.update(
                    a as int,
                    Some(header(old(self)@.slots, a).with_pos(0)),
                )
            } else {
                final(self)@.slots == old(self)@.slots && final(ctx)@ == old(ctx)@
            },
    {
        let ghost s = self@.slots;
        let ghost q = ctx@;
        let ghost t = traced@;
        assert((seq![a] + q)[0] == a);
        assert forall|i: int| 0 <= i < q.len() implies reachable(s0, #[trigger] q[i]) by {
            assert((seq![a] + q)[i + 1] == q[i]);
        }
        if a >= self.slots.len() {
            assert forall|x: usize, c: usize|
                marked(s, x) && #[trigger] edge(s0, x, c) && live(s0, c) implies #[trigger] marked(s, c)
                    || q.contains(c) by {
                if !marked(s, c) {
                    assert((seq![a] + q).contains(c));
                    let k = (seq![a] + q).index_of(c);
                    assert(k > 0);
                    assert(q[k - 1] == c);
                }
            }
            return;
        }
        let ghost h = header(s, a);
        let mut expanded = false;
        match &mut self.slots[a] {
            Some(d) => {
                let prev = d.pos;
                d.pos = 0;
                if prev > 0 && !d.trace_lock {
                    d.trace_lock = true;
                    d.payload.trace(ctx);
                    d.trace_lock = false;
                    expanded = true;
                }
            },
            None => {},
        }
        if expanded {
            traced.push(a);
        }
        proof {
            let s2 = self@.slots;
            if live(s, a) && !marked(s, a) {
                assert(expanded);
                assert(s2 == s.update(a as int, Some(h.with_pos(0))));
                let ch = h.payload.children();
                assert(ctx@ == q + ch);
                assert(header(s0, a).payload == h.payload);
                assert forall|i: int| 0 <= i < ctx@.len() implies reachable(s0, #[trigger] ctx@[i]) by {
                    if i >= q.len() {
                        assert(ctx@[i] == ch[i - q.len()]);
                        assert(edge(s0, a, ctx@[i]));
                        lemma_edge_reachable(s0, a, ctx@[i]);
                    }
                }
                assert forall|x: usize| #[trigger] live(s2, x) implies header(s2, x).pos == header(s0, x).pos
                    || header(s2, x).pos == 0 by {
                    if x != a {
                        assert(live(s, x));
                    }
                }
                assert forall|x: usize| #[trigger] marked(s2, x) implies reachable(s0, x) by {
                    if x != a {
                        assert(marked(s, x));
                    }
                }
                assert forall|x: usize, c: usize|
                    marked(s2, x) && #[trigger] edge(s0, x, c) && live(s0, c) implies #[trigger] marked(s2, c)
                        || ctx@.contains(c) by {
                    if x == a {
                        let j = ch.index_of(c);
                        assert(ctx@[q.len() + j] == c);
                    } else {
                        assert(marked(s, x));
                        if c != a && !marked(s, c) {
                            assert((seq![a] + q).contains(c));
                            let k = (seq![a] + q).index_of(c);
                            assert(q[k - 1] == c);
                            assert(ctx@[k - 1] == c);
                        }
                        if c != a && marked(s, c) {
                            assert(marked(s2, c));
                        }
                    }
                }
                assert(!t.contains(a));
                assert forall|x: usize| #[trigger] traced@.contains(x) <==> marked(s2, x) by {
                    if x != a {
                        assert(traced@ == t.push(a));
                        if t.contains(x) {
                            let k = t.index_of(x);
                            assert(traced@[k] == x);
                        }
                        if traced@.contains(x) {
                            let k = traced@.index_of(x);
                            assert(t[k] == x);
                        }
                        assert(marked(s2, x) <==> marked(s, x));
                    } else {
                        assert(traced@[traced@.len() - 1] == a);
                    }
                }
                assert(unlocked(s2)) by {
                    assert forall|x: usize| live(s2, x) implies !(#[trigger] header(s2, x)).trace_lock by {
                        if x != a {
                            assert(live(s, x));
                        }
                    }
                }
                assert(same_graph(s0, s2)) by {
                    assert forall|x: usize| #[trigger] live(s0, x) <==> live(s2, x) by {
                        assert(live(s0, x) <==> live(s, x));
                    }
                    assert forall|x: usize| live(s0, x) implies (#[trigger] header(s0, x)).pins == header(s2, x).pins
                        && header(s0, x).payload == header(s2, x).payload by {
                        assert(header(s0, x).pins == header(s, x).pins);
                    }
                }
                assert forall|x: usize| marked(s, x) implies #[trigger] marked(s2, x) by {
                    if x != a {
                        assert(s2[x as int] == s[x as int]);
                    }
                }
                assert forall|i: int| 0 <= i < self@.adopted.len() implies live(self@.slots, #[trigger] self@.adopted[i]) by {
                    assert(live(s, self@.adopted[i]));
                    assert(live(s0, self@.adopted[i]));
                }
                assert forall|i: int| 0 <= i < self@.intake.len() implies live(self@.slots, #[trigger] self@.intake[i]) by {
                    assert(live(s, self@.intake[i]));
                    assert(live(s0, self@.intake[i]));
                }
                assert forall|x: usize| #[trigger] live(self@.slots, x) implies (self@.adopted.contains(x) <==> !self@.intake.contains(x)) by {
                    assert(live(s, x));
                }
            } else {
                assert(s2 =~= s);
                assert forall|x: usize, c: usize|
                    marked(s, x) && #[trigger] edge(s0, x, c) && live(s0, c) implies #[trigger] marked(s, c)
                        || q.contains(c) by {
                    if !marked(s, c) {
                        assert((seq![a] + q).contains(c));
                        let k = (seq![a] + q).index_of(c);
                        if k == 0 {
                            assert(c == a);
                        } else {
                            assert(q[k - 1] == c);
                        }
                    }
                }
            }
        }
    }
}


impl<Q: Traceable> Manager<Q> {
    /// Mark phase: traces every pinned object, then everything queued until
    /// the worklist is empty.
    fn mark(&mut self, Ghost(s0): Ghost<Seq<Option<Data<Q>>>>) -> (traced: Vec<usize>)
        requires
            old(self).wf(),
            old(self)@.intake.len() == 0,
            old(self)@.slots == s0,
            forall|a: usize| #[trigger] live(s0, a) ==> header(s0, a).pos > 0,
        ensures
            final(self).wf(),
            final(self)@.adopted == old(self)@.adopted,
            final(self)@.intake == old(self)@.intake,
            final(self)@.threshold == old(self)@.threshold,
            same_graph(s0, final(self)@.slots),
            forall|a: usize| #[trigger]
                live(s0, a) ==> header(final(self)@.slots, a).pos == if reachable(s0, a) {
                    0
                } else {
                    header(s0, a).pos
                },
            traced@.no_duplicates(),
            forall|a: usize| #[trigger] traced@.contains(a) <==> live(s0, a) && reachable(s0, a),
    {
        let mut ctx = TracingContext::new();
        let mut traced: Vec<usize> = Vec::new();
        proof {
            assert(same_graph(s0, s0));
            assert forall|x: usize| #[trigger] traced@.contains(x) <==> marked(s0, x) by {}
        }
        let mut i: usize = 0;
        while i < self.objects.len()
            invariant
                self.wf(),
                self@.adopted == old(self)@.adopted,
                self@.intake == old(self)@.intake,
                self@.threshold == old(self)@.threshold,
                self@.intake.len() == 0,
                forall|a: usize| #[trigger] live(s0, a) ==> header(s0, a).pos > 0,
                mark_inv(s0, self@.slots, ctx@, traced@),
                forall|j: int|
                    0 <= j < i && is_root(s0, self@.adopted[j]) ==> #[trigger] marked(
                        self@.slots,
                        self@.adopted[j],
                    ),
            decreases self@.adopted.len() - i,
        {
            let a = self.objects[i];
            let ghost before = self@.slots;
            assert(live(self@.slots, a));
            let pins = match &self.slots[a] {
                Some(d) => d.pins,
                None => 0,
            };
            if pins > 0 {
                proof {
                    assert(header(s0, a).pins == pins);
                    lemma_root_reachable(s0, a);
                    queue_grows(s0, self@.slots, ctx@, traced@, a);
                }
                self.trace_object(a, &mut ctx, &mut traced, Ghost(s0));
            }
            proof {
                assert forall|j: int|
                    0 <= j < i + 1 && is_root(s0, self@.adopted[j]) implies #[trigger] marked(
                    self@.slots,
                    self@.adopted[j],
                ) by {
                    if j < i {
                        assert(marked(before, self@.adopted[j]));
                    }
                }
            }
            i = i + 1;
        }
        proof {
            assert forall|r: usize| #[trigger] is_root(s0, r) implies marked(self@.slots, r) by {
                assert(self@.adopted.contains(r));
                let j = self@.adopted.index_of(r);
                assert(marked(self@.slots, self@.adopted[j]));
            }
        }
        loop
            invariant
                self.wf(),
                self@.adopted == old(self)@.adopted,
                self@.intake == old(self)@.intake,
                self@.threshold == old(self)@.threshold,
                mark_inv(s0, self@.slots, ctx@, traced@),
                forall|r: usize| #[trigger] is_root(s0, r) ==> marked(self@.slots, r),
            ensures
                ctx@.len() == 0,
            decreases unmarked_below(self@.slots, self@.slots.len() as int), ctx@.len(),
        {
            let ghost q = ctx@;
            let ghost before = self@.slots;
            match ctx.get_object() {
                Some(a) => {
                    assert(q =~= seq![a] + ctx@);
                    self.trace_object(a, &mut ctx, &mut traced, Ghost(s0));
                    proof {
                        if live(before, a) && !marked(before, a) {
                            lemma_mark_one(before, a, before.len() as int);
                        }
                    }
                },
                None => {
                    break ;
                },
            }
        }
        proof {
            let s = self@.slots;
            let m = Set::new(|x: usize| marked(s, x));
            assert forall|a: usize| #[trigger] live(s0, a) implies header(s, a).pos == if reachable(s0, a) {
                0
            } else {
                header(s0, a).pos
            } by {
                if reachable(s0, a) {
                    assert forall|x: usize, c: usize|
                        m.contains(x) && #[trigger] edge(s0, x, c) && live(s0, c) implies #[trigger] m.contains(c) by {
                        assert(marked(s, x));
                        assert(!ctx@.contains(c));
                    }
                    assert forall|r: usize| is_root(s0, r) implies #[trigger] m.contains(r) by {
                        assert(marked(s, r));
                    }
                    lemma_closed_holds_reachable(s0, m, a);
                } else {
                    assert(live(s, a));
                    assert(!marked(s, a));
                }
            }
            assert forall|a: usize| #[trigger] traced@.contains(a) <==> live(s0, a) && reachable(s0, a) by {
                if live(s0, a) {
                    assert(live(s, a));
                }
            }
        }
        traced
    }
}

impl<Q: Traceable> Manager<Q> {
    /// Intake: moves every registered address into the adopted list.
    fn adopt_intake(&mut self)
        requires
            old(self).wf(),
        ensures
            final(self).wf(),
            final(self)@.slots == old(self)@.slots,
            final(self)@.adopted == old(self)@.adopted + old(self)@.intake,
            final(self)@.intake.len() == 0,
            final(self)@.threshold == old(self)@.threshold,
    {
        let mut i: usize = 0;
        while i < self.sink.len()
            invariant
                self@.slots == old(self)@.slots,
                self@.intake == old(self)@.intake,
                self@.threshold == old(self)@.threshold,
                old(self).wf(),
                i <= self@.intake.len(),
                self@.adopted == old(self)@.adopted + old(self)@.intake.subrange(0, i as int),
            decreases self@.intake.len() - i,
        {
            let a = self.sink[i];
            self.objects.push(a);
            assert(old(self)@.intake.subrange(0, i + 1) == old(self)@.intake.subrange(0, i as int).push(a));
            i = i + 1;
        }
        self.sink = Vec::new();
        proof {
            let o = old(self)@;
            assert(o.intake.subrange(0, o.intake.len() as int) == o.intake);
            let all = o.adopted + o.intake;
            assert forall|x: int, y: int| 0 <= x < y < all.len() implies all[x] != all[y] by {
                if y < o.adopted.len() {
                } else if x >= o.adopted.len() {
                    assert(all[x] == o.intake[x - o.adopted.len()]);
                    assert(all[y] == o.intake[y - o.adopted.len()]);
                } else {
                    assert(o.adopted.contains(all[x]));
                    assert(all[y] == o.intake[y - o.adopted.len()]);
                    assert(o.intake.contains(all[y]));
                    assert(live(o.slots, o.adopted[x]));
                }
            }
            assert forall|k: int| 0 <= k < all.len() implies live(o.slots, #[trigger] all[k]) by {
                if k < o.adopted.len() {
                    assert(live(o.slots, o.adopted[k]));
                } else {
                    assert(all[k] == o.intake[k - o.adopted.len()]);
                    assert(live(o.slots, o.intake[k - o.adopted.len()]));
                }
            }
            assert forall|a: usize| #[trigger] live(o.slots, a) implies all.contains(a) by {
                if o.adopted.contains(a) {
                    let k = o.adopted.index_of(a);
                    assert(all[k] == a);
                } else {
                    let k = o.intake.index_of(a);
                    assert(all[o.adopted.len() + k] == a);
                }
            }
        }
    }

    /// Aging: every adopted object's position goes up by one (stopping at
    /// the counter's maximum).
    fn age_all(&mut self)
        requires
            old(self).wf(),
            old(self)@.intake.len() == 0,
        ensures
            final(self).wf(),
            final(self)@.slots == aged_slots(old(self)@.slots),
            final(self)@.adopted == old(self)@.adopted,
            final(self)@.intake == old(self)@.intake,
            final(self)@.threshold == old(self)@.threshold,
    {
        let ghost s = self@.slots;
        let mut i: usize = 0;
        while i < self.objects.len()
            invariant
                old(self).wf(),
                old(self)@.intake.len() == 0,
                s == old(self)@.slots,
                self@.adopted == old(self)@.adopted,
                self@.intake == old(self)@.intake,
                self@.threshold == old(self)@.threshold,
                i <= self@.adopted.len(),
                self@.slots.len() == s.len(),
                forall|a: usize| #[trigger] live(self@.slots, a) <==> live(s, a),
                forall|a: usize|
                    #![trigger self@.slots[a as int]]
                    live(s, a) ==> self@.slots[a as int] == if self@.adopted.subrange(0, i as int).contains(a) {
                        Some(header(s, a).with_pos(aged(header(s, a).pos)))
                    } else {
                        s[a as int]
                    },
            decreases self@.adopted.len() - i,
        {
            let a = self.objects[i];
            let ghost before = self@.slots;
            assert(live(s, a));
            assert(!self@.adopted.subrange(0, i as int).contains(a)) by {
                if self@.adopted.subrange(0, i as int).contains(a) {
                    let k = self@.adopted.subrange(0, i as int).index_of(a);
                    assert(self@.adopted[k] == a);
                }
            }
            let (pins, pos) = match &self.slots[a] {
                Some(d) => (d.pins, d.pos),
                None => (0, 0),
            };
            let next: u8 = if pos < 255 { pos + 1 } else { 255 };
            self.set_header(a, pins, next);
            proof {
                assert(self@.adopted.subrange(0, i + 1) == self@.adopted.subrange(0, i as int).push(a));
                assert forall|b: usize| #[trigger] live(self@.slots, b) <==> live(s, b) by {
                    assert(live(self@.slots, b) <==> live(before, b));
                }
                assert forall|b: usize|
                    #![trigger self@.slots[b as int]]
                    live(s, b) implies self@.slots[b as int] == if self@.adopted.subrange(0, i + 1).contains(b) {
                        Some(header(s, b).with_pos(aged(header(s, b).pos)))
                    } else {
                        s[b as int]
                    } by {
                    if b != a {
                        assert(self@.slots[b as int] == before[b as int]);
                        assert(self@.adopted.subrange(0, i + 1).contains(b) <==> self@.adopted.subrange(0, i as int).contains(b)) by {
                            if self@.adopted.subrange(0, i + 1).contains(b) {
                                let k = self@.adopted.subrange(0, i + 1).index_of(b);
                                assert(self@.adopted.subrange(0, i as int)[k] == b);
                            }
                            if self@.adopted.subrange(0, i as int).contains(b) {
                                let k = self@.adopted.subrange(0, i as int).index_of(b);
                                assert(self@.adopted.subrange(0, i + 1)[k] == b);
                            }
                        }
                    } else {
                        assert(self@.adopted.subrange(0, i + 1)[i as int] == a);
                    }
                }
            }
            i = i + 1;
        }
        proof {
            assert(self@.adopted.subrange(0, self@.adopted.len() as int) == self@.adopted);
            assert(self@.slots =~= aged_slots(s)) by {
                assert forall|k: int| 0 <= k < s.len() implies self@.slots[k] == aged_slots(s)[k] by {
                    let a = k as usize;
                    if live(s, a) {
                        assert(self@.adopted.contains(a));
                    } else {
                        assert(!live(self@.slots, a));
                    }
                }
            }
            assert forall|k: int| 0 <= k < self@.adopted.len() implies live(self@.slots, #[trigger] self@.adopted[k]) by {
                assert(live(s, self@.adopted[k]));
            }
            assert forall|a: usize| #[trigger] live(self@.slots, a) implies (self@.adopted.contains(a) <==> !self@.intake.contains(a)) by {
                assert(live(s, a));
            }
            assert forall|a: usize| live(self@.slots, a) implies !(#[trigger] header(self@.slots, a)).trace_lock by {
                assert(live(s, a));
            }
        }
    }
}

impl<Q: Traceable> Manager<Q> {
    /// Sweep: frees every adopted object whose position exceeds the death
    /// threshold and drops it from the adopted list.
    fn sweep(&mut self) -> (freed: Vec<usize>)
        requires
            old(self).wf(),
            old(self)@.intake.len() == 0,
        ensures
            final(self).wf(),
            final(self)@.slots == swept_slots(old(self)@.slots, old(self)@.threshold),
            final(self)@.intake == old(self)@.intake,
            final(self)@.threshold == old(self)@.threshold,
            freed@.no_duplicates(),
            forall|a: usize| #[trigger]
                freed@.contains(a) <==> live(old(self)@.slots, a) && header(old(self)@.slots, a).pos
                    > old(self)@.threshold,
    {
        let ghost s = self@.slots;
        let ghost adopted = self@.adopted;
        let t = self.threshold;
        let mut kept: Vec<usize> = Vec::new();
        let mut freed: Vec<usize> = Vec::new();
        let mut i: usize = 0;
        while i < self.objects.len()
            invariant
                old(self).wf(),
                old(self)@.intake.len() == 0,
                s == old(self)@.slots,
                adopted == old(self)@.adopted,
                self@.adopted == adopted,
                self@.intake == old(self)@.intake,
                self@.threshold == t,
                t == old(self)@.threshold,
                i <= adopted.len(),
                self@.slots.len() == s.len(),
                forall|k: int|
                    #![trigger self@.slots[k]]
                    0 <= k < s.len() ==> self@.slots[k] == if live(s, k as usize) && header(s, k as usize).pos > t
                        && adopted.subrange(0, i as int).contains(k as usize) {
                        None
                    } else {
                        s[k]
                    },
                kept@.no_duplicates(),
                freed@.no_duplicates(),
                forall|a: usize| #[trigger]
                    kept@.contains(a) <==> adopted.subrange(0, i as int).contains(a) && header(s, a).pos <= t,
                forall|a: usize| #[trigger]
                    freed@.contains(a) <==> adopted.subrange(0, i as int).contains(a) && header(s, a).pos > t,
            decreases adopted.len() - i,
        {
            let a = self.objects[i];
            let ghost before = self@.slots;
            let ghost k0 = kept@;
            let ghost f0 = freed@;
            assert(live(s, a));
            assert(!adopted.subrange(0, i as int).contains(a)) by {
                if adopted.subrange(0, i as int).contains(a) {
                    let k = adopted.subrange(0, i as int).index_of(a);
                    assert(adopted[k] == a);
                }
            }
            assert(adopted.subrange(0, i + 1) == adopted.subrange(0, i as int).push(a));
            assert forall|b: usize| b != a implies (adopted.subrange(0, i + 1).contains(b) <==> adopted.subrange(0, i as int).contains(b)) by {
                if adopted.subrange(0, i + 1).contains(b) {
                    let k = adopted.subrange(0, i + 1).index_of(b);
                    assert(adopted.subrange(0, i as int)[k] == b);
                }
                if adopted.subrange(0, i as int).contains(b) {
                    let k = adopted.subrange(0, i as int).index_of(b);
                    assert(adopted.subrange(0, i + 1)[k] == b);
                }
            }
            assert(adopted.subrange(0, i + 1)[i as int] == a);
            assert(self@.slots[a as int] == s[a as int]);
            let pos = match &self.slots[a] {
                Some(d) => d.pos,
                None => 0,
            };
            if pos > t {
                self.slots[a] = None;
                freed.push(a);
                proof {
                    assert(!f0.contains(a));
                    assert forall|b: usize| #[trigger] freed@.contains(b) <==> adopted.subrange(0, i + 1).contains(b)
                        && header(s, b).pos > t by {
                        if b != a {
                            if f0.contains(b) {
                                let k = f0.index_of(b);
                                assert(freed@[k] == b);
                            }
                            if freed@.contains(b) {
                                let k = freed@.index_of(b);
                                assert(f0[k] == b);
                            }
                        } else {
                            assert(freed@[freed@.len() - 1] == a);
                        }
                    }
                    assert forall|b: usize| #[trigger] kept@.contains(b) <==> adopted.subrange(0, i + 1).contains(b)
                        && header(s, b).pos <= t by {
                        if b == a {
                            assert(!kept@.contains(a));
                        }
                    }
                }
            } else {
                kept.push(a);
                proof {
                    assert(!k0.contains(a));
                    assert forall|b: usize| #[trigger] kept@.contains(b) <==> adopted.subrange(0, i + 1).contains(b)
                        && header(s, b).pos <= t by {
                        if b != a {
                            if k0.contains(b) {
                                let k = k0.index_of(b);
                                assert(kept@[k] == b);
                            }
                            if kept@.contains(b) {
                                let k = kept@.index_of(b);
                                assert(k0[k] == b);
                            }
                        } else {
                            assert(kept@[kept@.len() - 1] == a);
                        }
                    }
                    assert forall|b: usize| #[trigger] freed@.contains(b) <==> adopted.subrange(0, i + 1).contains(b)
                        && header(s, b).pos > t by {
                        if b == a {
                            assert(!freed@.contains(a));
                        }
                    }
                }
            }
            proof {
                assert forall|k: int|
                    #![trigger self@.slots[k]]
                    0 <= k < s.len() implies self@.slots[k] == if live(s, k as usize) && header(s, k as usize).pos > t
                        && adopted.subrange(0, i + 1).contains(k as usize) {
                        None
                    } else {
                        s[k]
                    } by {
                    if k != a as int {
                        assert(self@.slots[k] == before[k]);
                    }
                }
            }
            i = i + 1;
        }
        self.objects = kept;
        proof {
            assert(adopted.subrange(0, adopted.len() as int) == adopted);
            let s2 = self@.slots;
            assert(s2 =~= swept_slots(s, t));
            assert forall|k: int| 0 <= k < self@.adopted.len() implies live(s2, #[trigger] self@.adopted[k]) by {
                let a = self@.adopted[k];
                assert(kept@.contains(a));
                assert(adopted.contains(a));
                let j = adopted.index_of(a);
                assert(live(s, adopted[j]));
                assert(s2[a as int] == s[a as int]);
            }
            assert forall|a: usize| #[trigger] live(s2, a) implies (self@.adopted.contains(a) <==> !self@.intake.contains(a)) by {
                assert(s2[a as int] == swept_slots(s, t)[a as int]);
                assert(live(s, a));
                assert(adopted.contains(a));
            }
            assert forall|a: usize| live(s2, a) implies !(#[trigger] header(s2, a)).trace_lock by {
                assert(s2[a as int] == swept_slots(s, t)[a as int]);
                assert(live(s, a));
            }
            assert forall|a: usize| #[trigger] freed@.contains(a) <==> live(s, a) && header(s, a).pos > t by {
                if live(s, a) {
                    assert(adopted.contains(a));
                }
                if freed@.contains(a) {
                    let j = adopted.index_of(a);
                    assert(live(s, adopted[j]));
                }
            }
        }
        freed
    }

    /// Runs one collection cycle: intake, aging, marking from every pinned
    /// object, and sweep. Every object reachable from a pinned object gets
    /// position 0; every other live object ages by one and is freed once its
    /// position exceeds the death threshold.
    pub fn collect(&mut self) -> (r: CycleReport)
        requires
            old(self).wf(),
        ensures
            final(self).wf(),
            final(self)@.slots == cycle(old(self)@.slots, old(self)@.threshold),
            final(self)@.intake.len() == 0,
            final(self)@.threshold == old(self)@.threshold,
            forall|a: usize| #[trigger] final(self)@.adopted.contains(a) <==> live(final(self)@.slots, a),
            r.traced@.no_duplicates(),
            forall|a: usize| #[trigger]
                r.traced@.contains(a) <==> live(old(self)@.slots, a) && reachable(old(self)@.slots, a),
            r.freed@.no_duplicates(),
            forall|a: usize| #[trigger]
                r.freed@.contains(a) <==> live(old(self)@.slots, a) && !live(final(self)@.slots, a),
    {
        let ghost s = self@.slots;
        let ghost t = self@.threshold;
        self.adopt_intake();
        self.age_all();
        let ghost s0 = self@.slots;
        proof {
            assert(same_graph(s, s0)) by {
                assert forall|a: usize| #[trigger] live(s, a) <==> live(s0, a) by {
                    if a < s.len() {
                        assert(s0[a as int] == aged_slots(s)[a as int]);
                    }
                }
                assert forall|a: usize| live(s, a) implies (#[trigger] header(s, a)).pins == header(s0, a).pins
                    && header(s, a).payload == header(s0, a).payload by {
                    assert(s0[a as int] == aged_slots(s)[a as int]);
                }
            }
            assert forall|a: usize| #[trigger] live(s0, a) implies header(s0, a).pos > 0 by {
                assert(s0[a as int] == aged_slots(s)[a as int]);
            }
        }
        let traced = self.mark(Ghost(s0));
        let ghost s1 = self@.slots;
        let freed = self.sweep();
        proof {
            let s2 = self@.slots;
            assert(s2 =~= cycle(s, t)) by {
                assert forall|k: int| 0 <= k < s.len() implies s2[k] == cycle(s, t)[k] by {
                    let a = k as usize;
                    assert(s2[k] == swept_slots(s1, t)[k]);
                    assert(s0[k] == aged_slots(s)[k]);
                    if live(s, a) {
                        lemma_same_graph_reachable(s, s0, a);
                        assert(live(s0, a));
                        assert(live(s1, a));
                        let h = header(s, a);
                        assert(header(s0, a).pos == aged(h.pos));
                        assert(header(s1, a).pos == next_pos(s, a));
                        assert(!header(s1, a).trace_lock);
                        assert(!h.trace_lock);
                        assert(header(s1, a) == Data { pins: h.pins, pos: next_pos(s, a), trace_lock: h.trace_lock, payload: h.payload });
                    } else {
                        assert(!live(s0, a));
                        assert(!live(s1, a));
                    }
                }
            }
            assert forall|a: usize| #[trigger] traced@.contains(a) <==> live(s, a) && reachable(s, a) by {
                lemma_same_graph_reachable(s, s0, a);
            }
            assert forall|a: usize| #[trigger] freed@.contains(a) <==> live(s, a) && !live(s2, a) by {
                if a < s.len() {
                    assert(s2[a as int] == swept_slots(s1, t)[a as int]);
                }
            }
            assert forall|a: usize| #[trigger] self@.adopted.contains(a) <==> live(s2, a) by {
                if self@.adopted.contains(a) {
                    let j = self@.adopted.index_of(a);
                    assert(live(s2, self@.adopted[j]));
                }
            }
        }
        CycleReport { traced, freed }
    }
}

/// Queuing one more reachable address keeps the mark-phase invariant.
proof fn queue_grows<Q: Traceable>(
    s0: Seq<Option<Data<Q>>>,
    s: Seq<Option<Data<Q>>>,
    q: Seq<usize>,
    t: Seq<usize>,
    a: usize,
)
    requires
        mark_inv(s0, s, q, t),
        reachable(s0, a),
    ensures
        mark_inv(s0, s, seq![a] + q, t),
{
    let q2 = seq![a] + q;
    assert forall|i: int| 0 <= i < q2.len() implies reachable(s0, #[trigger] q2[i]) by {
        if i > 0 {
            assert(q2[i] == q[i - 1]);
        }
    }
    assert forall|x: usize, c: usize|
        marked(s, x) && #[trigger] edge(s0, x, c) && live(s0, c) implies #[trigger] marked(s, c)
            || q2.contains(c) by {
        if !marked(s, c) {
            let k = q.index_of(c);
            assert(q2[k + 1] == c);
        }
    }
}

} // verus!
