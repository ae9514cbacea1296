use std::cell::Cell;

use gravity_garbage::{
    start_gc_manager, Data, Manager, PinPtr, Ptr, Traceable, TracingContext, DEATH_THRESHOLD,
};

/// A node that keeps everything it references reachable.
struct Node {
    value: i32,
    next: Vec<Ptr>,
    traced: Cell<u32>,
}

impl Node {
    fn new(value: i32, next: Vec<Ptr>) -> Node {
        Node { value, next, traced: Cell::new(0) }
    }
}

impl Traceable for Node {
    fn trace(&self, ctx: &mut TracingContext) {
        self.traced.set(self.traced.get() + 1);
        self.next.trace(ctx);
    }
}

/// A node whose link is weak: it does not report it when traced.
struct WeakNode {
    value: i32,
    prev: Option<Ptr>,
}

impl Traceable for WeakNode {
    fn trace(&self, _ctx: &mut TracingContext) {}
}

fn run_cycles<Q: Traceable>(mgr: &mut Manager<Q>, n: usize) -> Vec<usize> {
    let mut freed = Vec::new();
    for _ in 0..n {
        let report = mgr.collect();
        freed.extend(report.freed);
    }
    freed
}

#[test]
fn data_new_starts_pinned_at_position_zero() {
    let d = Data::new(7u8);
    assert_eq!(d.pins, 1);
    assert_eq!(d.pos, 0);
    assert!(!d.trace_lock);
    assert_eq!(d.payload, 7);
}

#[test]
fn new_object_has_one_pin_and_position_zero() {
    let mut mgr: Manager<Node> = Manager::new();
    let root = Ptr::new(&mut mgr, Node::new(5, vec![]));
    let p = root.downgrade();
    assert_eq!(p.raw(), 0);
    assert_eq!(p.get_pins(&mgr), 1);
    assert_eq!(p.get_pos(&mgr), 0);
    assert_eq!(p.deref(&mgr).value, 5);
    let second = PinPtr::new(&mut mgr, Node::new(6, vec![]));
    assert_eq!(second.downgrade().raw(), 1);
    assert_eq!(mgr.live_count(), 2);
}

#[test]
fn start_gc_manager_is_empty_with_default_threshold() {
    let mgr: Manager<Node> = start_gc_manager();
    assert_eq!(mgr.threshold(), DEATH_THRESHOLD);
    assert_eq!(mgr.threshold(), 10);
    assert_eq!(mgr.live_count(), 0);
}

#[test]
fn root_keeps_alive() {
    let mut mgr: Manager<Node> = Manager::new();
    let root = Ptr::new(&mut mgr, Node::new(42, vec![]));
    let p = root.downgrade();
    let freed = run_cycles(&mut mgr, 100);
    assert!(freed.is_empty());
    assert!(mgr.is_live(p));
    assert_eq!(p.get_pos(&mgr), 0);
    assert_eq!(p.get_pins(&mgr), 1);
    assert_eq!(p.deref(&mgr).value, 42);
}

#[test]
fn unrooted_is_reclaimed_after_threshold_plus_one_cycles() {
    let mut mgr: Manager<Node> = Manager::new();
    let root = Ptr::new(&mut mgr, Node::new(1, vec![]));
    let p = root.into_unpinned(&mut mgr);
    assert_eq!(p.get_pins(&mgr), 0);
    run_cycles(&mut mgr, 10);
    assert!(mgr.is_live(p));
    assert_eq!(p.get_pos(&mgr), 10);
    let freed = run_cycles(&mut mgr, 1);
    assert_eq!(freed, vec![0]);
    assert!(!mgr.is_live(p));
    assert_eq!(mgr.live_count(), 0);
}

#[test]
fn custom_threshold_is_respected() {
    let mut mgr: Manager<Node> = Manager::with_threshold(2);
    let root = Ptr::new(&mut mgr, Node::new(1, vec![]));
    let p = root.downgrade();
    root.release(&mut mgr);
    run_cycles(&mut mgr, 2);
    assert!(mgr.is_live(p));
    run_cycles(&mut mgr, 1);
    assert!(!mgr.is_live(p));
}

#[test]
fn reference_cycle_without_root_is_collected() {
    let mut mgr: Manager<Node> = Manager::new();
    let ra = Ptr::new(&mut mgr, Node::new(1, vec![]));
    let rb = Ptr::new(&mut mgr, Node::new(2, vec![ra.downgrade()]));
    let a = ra.downgrade();
    let b = rb.downgrade();
    a.write(&mut mgr, Node::new(1, vec![b]));
    ra.release(&mut mgr);
    rb.release(&mut mgr);
    run_cycles(&mut mgr, 10);
    assert!(mgr.is_live(a) && mgr.is_live(b));
    let mut freed = run_cycles(&mut mgr, 1);
    freed.sort();
    assert_eq!(freed, vec![0, 1]);
    assert!(!mgr.is_live(a) && !mgr.is_live(b));
}

#[test]
fn reference_cycle_with_root_is_retained_then_collected() {
    let mut mgr: Manager<Node> = Manager::new();
    let ra = Ptr::new(&mut mgr, Node::new(1, vec![]));
    let rb = Ptr::new(&mut mgr, Node::new(2, vec![ra.downgrade()]));
    let rc = Ptr::new(&mut mgr, Node::new(3, vec![rb.downgrade()]));
    let (a, b, c) = (ra.downgrade(), rb.downgrade(), rc.downgrade());
    a.write(&mut mgr, Node::new(1, vec![c]));
    rb.release(&mut mgr);
    rc.release(&mut mgr);
    for _ in 0..40 {
        let report = mgr.collect();
        assert!(report.freed.is_empty());
        for p in [a, b, c] {
            assert!(mgr.is_live(p));
            assert_eq!(p.get_pos(&mgr), 0);
        }
    }
    ra.release(&mut mgr);
    run_cycles(&mut mgr, 10);
    assert_eq!(mgr.live_count(), 3);
    run_cycles(&mut mgr, 1);
    assert_eq!(mgr.live_count(), 0);
}

#[test]
fn pin_count_follows_clone_and_release() {
    let mut mgr: Manager<Node> = Manager::new();
    let root = Ptr::new(&mut mgr, Node::new(1, vec![]));
    let p = root.downgrade();
    let c1 = root.clone(&mut mgr);
    let c2 = c1.clone(&mut mgr);
    assert_eq!(p.get_pins(&mgr), 3);
    c1.release(&mut mgr);
    assert_eq!(p.get_pins(&mgr), 2);
    let up = p.into_pinned(&mut mgr);
    assert_eq!(p.get_pins(&mgr), 3);
    p.pin(&mut mgr);
    p.unpin(&mut mgr);
    assert_eq!(p.get_pins(&mgr), 3);
    let back = up.into_unpinned(&mut mgr);
    assert_eq!(back, p);
    c2.release(&mut mgr);
    root.release(&mut mgr);
    assert_eq!(p.get_pins(&mgr), 0);
}

#[test]
fn pinned_object_survives_while_any_handle_is_held() {
    let mut mgr: Manager<Node> = Manager::new();
    let root = Ptr::new(&mut mgr, Node::new(1, vec![]));
    let p = root.downgrade();
    let other = root.clone(&mut mgr);
    root.release(&mut mgr);
    run_cycles(&mut mgr, 30);
    assert!(mgr.is_live(p));
    other.release(&mut mgr);
    run_cycles(&mut mgr, 11);
    assert!(!mgr.is_live(p));
}

#[test]
fn move_up_returns_previous_position() {
    let mut mgr: Manager<Node> = Manager::new();
    let root = Ptr::new(&mut mgr, Node::new(1, vec![]));
    let p = root.downgrade();
    assert_eq!(p.move_up(&mut mgr), 0);
    assert_eq!(p.move_up(&mut mgr), 1);
    assert_eq!(p.get_pos(&mgr), 2);
    mgr.collect();
    assert_eq!(p.get_pos(&mgr), 0);
}

#[test]
fn no_object_is_freed_twice() {
    let mut mgr: Manager<Node> = Manager::new();
    let mut roots = Vec::new();
    for i in 0..20 {
        roots.push(Ptr::new(&mut mgr, Node::new(i, vec![])));
    }
    let mut all_freed = Vec::new();
    for (i, r) in roots.into_iter().enumerate() {
        r.release(&mut mgr);
        if i % 3 == 0 {
            all_freed.extend(mgr.collect().freed);
        }
    }
    all_freed.extend(run_cycles(&mut mgr, 30));
    let mut sorted = all_freed.clone();
    sorted.sort();
    sorted.dedup();
    assert_eq!(sorted.len(), all_freed.len());
    assert_eq!(sorted, (0..20).collect::<Vec<usize>>());
    assert!(run_cycles(&mut mgr, 5).is_empty());
}

#[test]
fn object_reached_twice_is_traced_once_per_cycle() {
    let mut mgr: Manager<Node> = Manager::new();
    let rc = Ptr::new(&mut mgr, Node::new(3, vec![]));
    let ra = Ptr::new(&mut mgr, Node::new(1, vec![rc.downgrade()]));
    let rb = Ptr::new(&mut mgr, Node::new(2, vec![rc.downgrade()]));
    let root = Ptr::new(&mut mgr, Node::new(0, vec![ra.downgrade(), rb.downgrade()]));
    let c = rc.downgrade();
    rc.release(&mut mgr);
    ra.release(&mut mgr);
    rb.release(&mut mgr);
    let report = mgr.collect();
    let mut traced = report.traced.clone();
    traced.sort();
    assert_eq!(traced, vec![0, 1, 2, 3]);
    assert_eq!(c.deref(&mgr).traced.get(), 1);
    mgr.collect();
    assert_eq!(c.deref(&mgr).traced.get(), 2);
    assert_eq!(root.downgrade().deref(&mgr).traced.get(), 2);
}

#[test]
fn unreachable_objects_are_not_traced() {
    let mut mgr: Manager<Node> = Manager::new();
    let keep = Ptr::new(&mut mgr, Node::new(0, vec![]));
    let drop_me = Ptr::new(&mut mgr, Node::new(1, vec![]));
    let d = drop_me.downgrade();
    drop_me.release(&mut mgr);
    let report = mgr.collect();
    assert_eq!(report.traced, vec![keep.downgrade().raw()]);
    assert_eq!(d.deref(&mgr).traced.get(), 0);
    assert_eq!(d.get_pos(&mgr), 1);
}

#[test]
fn dangling_reference_in_payload_is_ignored() {
    let mut mgr: Manager<Node> = Manager::new();
    let old = Ptr::new(&mut mgr, Node::new(1, vec![]));
    let stale = old.downgrade();
    old.release(&mut mgr);
    run_cycles(&mut mgr, 11);
    assert!(!mgr.is_live(stale));
    let root = Ptr::new(&mut mgr, Node::new(2, vec![stale]));
    let report = mgr.collect();
    assert_eq!(report.traced, vec![root.downgrade().raw()]);
    assert!(!mgr.is_live(stale));
}

#[test]
fn chain_of_weak_links_settles_at_one_live_object() {
    let mut mgr: Manager<WeakNode> = Manager::new();
    let mut root = Ptr::new(&mut mgr, WeakNode { value: -1, prev: None });
    for i in 0..1000 {
        let prev = root.downgrade();
        let next = Ptr::new(&mut mgr, WeakNode { value: i, prev: Some(prev) });
        let old = std::mem::replace(&mut root, next);
        old.release(&mut mgr);
    }
    run_cycles(&mut mgr, 12);
    assert_eq!(mgr.live_count(), 1);
    let last = root.downgrade();
    assert_eq!(last.deref(&mgr).value, 999);
    assert_eq!(last.get_pins(&mgr), 1);
    let prev = last.deref(&mgr).prev.unwrap();
    assert!(!mgr.is_live(prev));
}

#[test]
fn chain_of_traced_links_is_retained_from_its_newest_root() {
    let mut mgr: Manager<Node> = Manager::new();
    let mut root = Ptr::new(&mut mgr, Node::new(-1, vec![]));
    for i in 0..1000 {
        let prev = root.downgrade();
        let next = Ptr::new(&mut mgr, Node::new(i, vec![prev]));
        let old = std::mem::replace(&mut root, next);
        old.release(&mut mgr);
    }
    run_cycles(&mut mgr, 12);
    assert_eq!(mgr.live_count(), 1001);
    let mut p = root.downgrade();
    let mut pinned = 0;
    let mut count = 1;
    if p.get_pins(&mgr) > 0 {
        pinned += 1;
    }
    while let Some(n) = p.deref(&mgr).next.first().copied() {
        if n.get_pins(&mgr) > 0 {
            pinned += 1;
        }
        count += 1;
        p = n;
    }
    assert_eq!(count, 1001);
    assert_eq!(pinned, 1);
    root.release(&mut mgr);
    run_cycles(&mut mgr, 11);
    assert_eq!(mgr.live_count(), 0);
}

#[test]
fn option_and_box_payloads_trace_their_contents() {
    let mut mgr: Manager<Option<Box<Ptr>>> = Manager::new();
    let leaf = Ptr::new(&mut mgr, None);
    let l = leaf.downgrade();
    let _root = Ptr::new(&mut mgr, Some(Box::new(l)));
    leaf.release(&mut mgr);
    let report = mgr.collect();
    assert_eq!(report.traced.len(), 2);
    run_cycles(&mut mgr, 20);
    assert!(mgr.is_live(l));
    assert_eq!(l.get_pos(&mgr), 0);
}

#[test]
fn write_replaces_payload_and_keeps_header() {
    let mut mgr: Manager<Node> = Manager::new();
    let root = Ptr::new(&mut mgr, Node::new(1, vec![]));
    let p = root.downgrade();
    p.move_up(&mut mgr);
    p.write(&mut mgr, Node::new(9, vec![]));
    assert_eq!(p.deref(&mgr).value, 9);
    assert_eq!(p.get_pins(&mgr), 1);
    assert_eq!(p.get_pos(&mgr), 1);
}

#[test]
fn address_never_allocated_is_not_live() {
    let mut mgr: Manager<Node> = Manager::new();
    let root = Ptr::new(&mut mgr, Node::new(1, vec![]));
    let mut other = Manager::<Node>::new();
    let foreign = Ptr::new(&mut other, Node::new(2, vec![]));
    let _second = Ptr::new(&mut other, Node::new(3, vec![]));
    let second = _second.downgrade();
    assert!(mgr.is_live(root.downgrade()));
    assert!(mgr.is_live(foreign.downgrade()));
    assert!(!mgr.is_live(second));
}
