//! General properties of collection cycles, proved over the heap model
//! that `Manager::collect` and the handle operations are specified by.

use vstd::prelude::*;

use crate::graph::{
    aged, cycle, cycles, edge, header, is_path, is_root, lemma_edge_reachable, lemma_path_prefix,
    lemma_root_reachable, live, next_slot, reachable,
};
use crate::mem_block::Data;
use crate::traceable::Traceable;

verus! {

/// A cycle keeps the length of the heap and the value of every slot that
/// was already free.
pub proof fn lemma_cycle_slot<Q: Traceable>(s: Seq<Option<Data<Q>>>, t: u8, a: usize)
    ensures
        cycle(s, t).len() == s.len(),
        a < s.len() ==> cycle(s, t)[a as int] == next_slot(s, t, a),
        live(cycle(s, t), a) ==> live(s, a) && header(cycle(s, t), a).pins == header(s, a).pins
            && header(cycle(s, t), a).payload == header(s, a).payload
            && header(cycle(s, t), a).trace_lock == header(s, a).trace_lock
            && header(cycle(s, t), a).pos <= t,
{
    if a < s.len() {
        assert(cycle(s, t)[a as int] == next_slot(s, t, a));
    }
}

/// Every path of the heap after a cycle was already a path before it.
proof fn lemma_paths_back<Q: Traceable>(s: Seq<Option<Data<Q>>>, t: u8, p: Seq<usize>)
    requires
        is_path(cycle(s, t), p),
    ensures
        is_path(s, p),
{
    let c = cycle(s, t);
    lemma_cycle_slot(s, t, p[0]);
    assert forall|i: int| 0 <= i < p.len() - 1 implies #[trigger] edge(s, p[i], p[i + 1]) by {
        assert(edge(c, p[i], p[i + 1]));
        lemma_cycle_slot(s, t, p[i]);
    }
}

/// What is unreachable stays unreachable across a cycle.
proof fn lemma_unreachable_stays<Q: Traceable>(s: Seq<Option<Data<Q>>>, t: u8, a: usize)
    requires
        !reachable(s, a),
    ensures
        !reachable(cycle(s, t), a),
{
    if reachable(cycle(s, t), a) {
        let p = choose|p: Seq<usize>| #[trigger] is_path(cycle(s, t), p) && p.last() == a;
        lemma_paths_back(s, t, p);
        assert(is_path(s, p) && p.last() == a);
    }
}

/// A reachable live object survives a cycle with position 0, unchanged
/// otherwise, and is still reachable afterwards.
proof fn lemma_reachable_survives<Q: Traceable>(s: Seq<Option<Data<Q>>>, t: u8, a: usize)
    requires
        live(s, a),
        reachable(s, a),
    ensures
        live(cycle(s, t), a),
        header(cycle(s, t), a) == header(s, a).with_pos(0),
        reachable(cycle(s, t), a),
{
    let c = cycle(s, t);
    lemma_cycle_slot(s, t, a);
    let p = choose|p: Seq<usize>| #[trigger] is_path(s, p) && p.last() == a;
    assert forall|k: int| 0 <= k < p.len() implies #[trigger] live(c, p[k]) && header(c, p[k])
        == header(s, p[k]).with_pos(0) by {
        lemma_path_prefix(s, p, k);
        if k < p.len() - 1 {
            assert(edge(s, p[k], p[k + 1]));
        }
        lemma_cycle_slot(s, t, p[k]);
    }
    assert forall|i: int| 0 <= i < p.len() - 1 implies #[trigger] edge(c, p[i], p[i + 1]) by {
        assert(edge(s, p[i], p[i + 1]));
        assert(live(c, p[i]));
    }
    assert(live(c, p[0]));
    assert(is_path(c, p));
}

/// A freed slot stays free.
proof fn lemma_free_stays_free<Q: Traceable>(s: Seq<Option<Data<Q>>>, t: u8, a: usize, n: nat)
    requires
        !live(s, a),
    ensures
        !live(cycles(s, t, n), a),
    decreases n,
{
    if n > 0 {
        lemma_cycle_slot(s, t, a);
        lemma_free_stays_free(cycle(s, t), t, a, (n - 1) as nat);
    }
}

/// Running `m` cycles and then `n` more is running `m + n` cycles.
pub proof fn lemma_cycles_compose<Q: Traceable>(s: Seq<Option<Data<Q>>>, t: u8, m: nat, n: nat)
    ensures
        cycles(cycles(s, t, m), t, n) == cycles(s, t, m + n),
    decreases m,
{
    if m > 0 {
        lemma_cycles_compose(cycle(s, t), t, (m - 1) as nat, n);
        assert((m - 1) as nat + n == (m + n - 1) as nat);
    }
}

/// Position after `k` aging steps from `p`, stopping at the maximum.
pub open spec fn aged_by(p: u8, k: nat) -> int {
    if p + k > 255 {
        255
    } else {
        p + k
    }
}

/// An unreachable live object, while it stays live, ages by one each cycle
/// and, after at least one cycle, has a position within the threshold.
proof fn lemma_unreachable_ages<Q: Traceable>(s: Seq<Option<Data<Q>>>, t: u8, a: usize, k: nat)
    requires
        live(s, a),
        !reachable(s, a),
    ensures
        live(cycles(s, t, k), a) ==> !reachable(cycles(s, t, k), a) && header(cycles(s, t, k), a).pos
            == aged_by(header(s, a).pos, k) && (k >= 1 ==> header(cycles(s, t, k), a).pos <= t),
    decreases k,
{
    if k > 0 {
        let c = cycle(s, t);
        lemma_cycle_slot(s, t, a);
        lemma_unreachable_stays(s, t, a);
        if live(c, a) {
            assert(header(c, a).pos == aged(header(s, a).pos));
            lemma_unreachable_ages(c, t, a, (k - 1) as nat);
        } else {
            lemma_free_stays_free(c, t, a, (k - 1) as nat);
        }
    }
}

/// An object reachable from a pinned object (in
/// particular a pinned object itself) is never freed while nothing changes
/// between cycles; after each cycle its position is 0 and its pins and
/// payload are as before.
pub proof fn lemma_reachable_retained<Q: Traceable>(s: Seq<Option<Data<Q>>>, t: u8, a: usize, n: nat)
    requires
        live(s, a),
        reachable(s, a),
        n >= 1,
    ensures
        live(cycles(s, t, n), a),
        header(cycles(s, t, n), a) == header(s, a).with_pos(0),
        reachable(cycles(s, t, n), a),
    decreases n,
{
    lemma_reachable_survives(s, t, a);
    assert(cycles(s, t, n) == cycles(cycle(s, t), t, (n - 1) as nat));
    if n == 1 {
        assert(cycles(cycle(s, t), t, 0) == cycle(s, t));
    } else {
        lemma_reachable_retained(cycle(s, t), t, a, (n - 1) as nat);
    }
}

/// A pinned object is never freed while its pin is held: after each cycle
/// it is live with position 0 and its pins and payload are as before.
pub proof fn lemma_root_keeps_alive<Q: Traceable>(s: Seq<Option<Data<Q>>>, t: u8, a: usize, n: nat)
    requires
        is_root(s, a),
        n >= 1,
    ensures
        live(cycles(s, t, n), a),
        header(cycles(s, t, n), a) == header(s, a).with_pos(0),
{
    lemma_root_reachable(s, a);
    lemma_reachable_retained(s, t, a, n);
}

/// A live object with no pins and no path from any
/// pinned object is freed within `t + 1` cycles, where `t` is the death
/// threshold.
pub proof fn lemma_unrooted_is_reclaimed<Q: Traceable>(s: Seq<Option<Data<Q>>>, t: u8, a: usize)
    requires
        t < 255,
        live(s, a),
        header(s, a).pins == 0,
        !reachable(s, a),
    ensures
        !live(cycles(s, t, t as nat + 1), a),
{
    lemma_unreachable_ages(s, t, a, t as nat + 1);
}

/// A group of unpinned objects that nothing outside the
/// group references (for instance two objects referencing each other) is
/// freed whole within `t + 1` cycles, however the members reference each
/// other.
pub proof fn lemma_isolated_group_reclaimed<Q: Traceable>(
    s: Seq<Option<Data<Q>>>,
    t: u8,
    g: Set<usize>,
)
    requires
        t < 255,
        forall|x: usize| #[trigger] g.contains(x) ==> live(s, x) && header(s, x).pins == 0,
        forall|y: usize, x: usize| #[trigger] edge(s, y, x) && g.contains(x) ==> g.contains(y),
    ensures
        forall|x: usize| #[trigger] g.contains(x) ==> !live(cycles(s, t, t as nat + 1), x),
{
    assert forall|x: usize| #[trigger] g.contains(x) implies !live(cycles(s, t, t as nat + 1), x) by {
        if reachable(s, x) {
            let p = choose|p: Seq<usize>| #[trigger] is_path(s, p) && p.last() == x;
            lemma_path_outside(s, g, p, p.len() - 1);
        }
        lemma_unrooted_is_reclaimed(s, t, x);
    }
}

proof fn lemma_path_outside<Q: Traceable>(s: Seq<Option<Data<Q>>>, g: Set<usize>, p: Seq<usize>, k: int)
    requires
        forall|x: usize| #[trigger] g.contains(x) ==> live(s, x) && header(s, x).pins == 0,
        forall|y: usize, x: usize| #[trigger] edge(s, y, x) && g.contains(x) ==> g.contains(y),
        is_path(s, p),
        0 <= k < p.len(),
    ensures
        !g.contains(p[k]),
    decreases k,
{
    if k > 0 {
        let i = k - 1;
        assert(edge(s, p[i], p[i + 1]));
        lemma_path_outside(s, g, p, i);
    }
}

/// The members of `m`, in order, each reference the next, and the last
/// references the first.
pub open spec fn is_ring<Q: Traceable>(s: Seq<Option<Data<Q>>>, m: Seq<usize>) -> bool {
    &&& m.len() > 0
    &&& forall|i: int| 0 <= i < m.len() - 1 ==> #[trigger] edge(s, m[i], m[i + 1])
    &&& edge(s, m.last(), m[0])
}

/// A reference cycle with a pinned member is kept whole,
/// every member reset to position 0 each cycle, for as long as the pin is
/// held. Once that member's only pin is released, and nothing outside the
/// cycle references it and no other member is pinned, every member is freed
/// within `t + 1` cycles.
pub proof fn lemma_cycle_retention<Q: Traceable>(
    s: Seq<Option<Data<Q>>>,
    t: u8,
    m: Seq<usize>,
    j: int,
    n: nat,
)
    requires
        t < 255,
        is_ring(s, m),
        0 <= j < m.len(),
        is_root(s, m[j]),
        n >= 1,
    ensures
        forall|i: int|
            0 <= i < m.len() ==> #[trigger] live(cycles(s, t, n), m[i]) && header(cycles(s, t, n), m[i]).pos
                == 0,
        ({
            let r = m[j];
            let released = s.update(r as int, Some(header(s, r).with_pins(0)));
            header(s, r).pins == 1 && (forall|i: int|
                0 <= i < m.len() && i != j ==> header(s, #[trigger] m[i]).pins == 0) && (forall|
                y: usize,
                x: usize,
            | #[trigger] edge(s, y, x) && m.contains(x) ==> m.contains(y)) ==> forall|i: int|
                0 <= i < m.len() ==> !live(cycles(released, t, t as nat + 1), #[trigger] m[i])
        }),
{
    lemma_ring_retained(s, t, m, j, n);
    assert forall|i: int| 0 <= i < m.len() implies live(s, #[trigger] m[i]) by {
        if i < m.len() - 1 {
            assert(edge(s, m[i], m[i + 1]));
        } else {
            assert(edge(s, m.last(), m[0]));
        }
    }
    let r = m[j];
    let released = s.update(r as int, Some(header(s, r).with_pins(0)));
    if header(s, r).pins == 1 && (forall|i: int|
        0 <= i < m.len() && i != j ==> header(s, #[trigger] m[i]).pins == 0) && (forall|
        y: usize,
        x: usize,
    | #[trigger] edge(s, y, x) && m.contains(x) ==> m.contains(y)) {
        let g = m.to_set();
        assert forall|x: usize| #[trigger] g.contains(x) implies live(released, x) && header(released, x).pins
            == 0 by {
            let i = m.index_of(x);
            assert(live(s, m[i]));
        }
        assert forall|y: usize, x: usize| #[trigger] edge(released, y, x) && g.contains(x) implies g.contains(y) by {
            assert(edge(s, y, x));
        }
        lemma_isolated_group_reclaimed(released, t, g);
        assert forall|i: int| 0 <= i < m.len() implies !live(cycles(released, t, t as nat + 1), #[trigger] m[i]) by {
            assert(g.contains(m[i]));
        }
    }
}

/// Every member of a ring with a pinned member survives `n` cycles with
/// position 0.
proof fn lemma_ring_retained<Q: Traceable>(s: Seq<Option<Data<Q>>>, t: u8, m: Seq<usize>, j: int, n: nat)
    requires
        is_ring(s, m),
        0 <= j < m.len(),
        is_root(s, m[j]),
        n >= 1,
    ensures
        forall|i: int|
            0 <= i < m.len() ==> #[trigger] live(cycles(s, t, n), m[i]) && header(cycles(s, t, n), m[i]).pos
                == 0,
{
    assert forall|i: int| 0 <= i < m.len() implies live(s, #[trigger] m[i]) by {
        if i < m.len() - 1 {
            assert(edge(s, m[i], m[i + 1]));
        } else {
            assert(edge(s, m.last(), m[0]));
        }
    }
    lemma_root_reachable(s, m[j]);
    lemma_ring_reachable(s, m, j, m.len() as int);
    assert forall|i: int| 0 <= i < m.len() implies #[trigger] live(cycles(s, t, n), m[i]) && header(
        cycles(s, t, n),
        m[i],
    ).pos == 0 by {
        let k = if i >= j { i - j } else { i - j + m.len() };
        assert((j + k) % (m.len() as int) == i) by (nonlinear_arith)
            requires
                0 <= i < m.len(),
                0 <= j < m.len(),
                k == if i >= j { i - j } else { i - j + m.len() },
        ;
        assert(reachable(s, m[(j + k) % (m.len() as int)]));
        lemma_reachable_retained(s, t, m[i], n);
    }
    assert(forall|i: int| 0 <= i < m.len() ==> #[trigger] live(cycles(s, t, n), m[i]) && header(cycles(s, t, n), m[i]).pos == 0);
}

/// Walking `k` steps round the ring from a reachable member reaches every
/// member on the way.
proof fn lemma_ring_reachable<Q: Traceable>(s: Seq<Option<Data<Q>>>, m: Seq<usize>, j: int, k: int)
    requires
        is_ring(s, m),
        0 <= j < m.len(),
        reachable(s, m[j]),
        0 <= k <= m.len(),
    ensures
        forall|d: int| 0 <= d < k ==> reachable(s, #[trigger] m[(j + d) % (m.len() as int)]),
    decreases k,
{
    if k > 0 {
        lemma_ring_reachable(s, m, j, k - 1);
        let len = m.len() as int;
        let d = k - 1;
        if d > 0 {
            let dp = d - 1;
            assert(reachable(s, m[(j + dp) % len]));
            let a = (j + dp) % len;
            let b = (j + d) % len;
            assert(0 <= a < len && 0 <= b < len) by (nonlinear_arith)
                requires
                    len > 0,
                    a == (j + dp) % len,
                    dp == d - 1,
                    b == (j + d) % len,
                    j + dp >= 0,
            ;
            assert(a < len - 1 ==> b == a + 1) by (nonlinear_arith)
                requires
                    len > 0,
                    a == (j + dp) % len,
                    dp == d - 1,
                    b == (j + d) % len,
                    j + dp >= 0,
                    0 <= a < len,
            ;
            assert(a == len - 1 ==> b == 0) by (nonlinear_arith)
                requires
                    len > 0,
                    a == (j + dp) % len,
                    dp == d - 1,
                    b == (j + d) % len,
                    j + dp >= 0,
            ;
            assert(reachable(s, m[a]));
            if a < len - 1 {
                assert(edge(s, m[a], m[a + 1]));
            } else {
                assert(edge(s, m.last(), m[0]));
            }
            lemma_edge_reachable(s, m[a], m[b]);
        } else {
            assert(j % len == j) by (nonlinear_arith)
                requires
                    0 <= j < len,
            ;
        }
    }
}

/// Once an address has been freed by some cycle it stays
/// free in every later cycle, so its object is freed at most once.
pub proof fn lemma_no_double_free<Q: Traceable>(s: Seq<Option<Data<Q>>>, t: u8, a: usize, m: nat, n: nat)
    requires
        m <= n,
        !live(cycles(s, t, m), a),
    ensures
        !live(cycles(s, t, n), a),
{
    lemma_free_stays_free(cycles(s, t, m), t, a, (n - m) as nat);
    lemma_cycles_compose(s, t, m, (n - m) as nat);
    assert(m + (n - m) as nat == n);
}

/// One handle operation on an object's header: `true` creates an owning
/// handle (`PinPtr::clone`, `Ptr::pin`, `Ptr::into_pinned`), `false` gives
/// one up (`PinPtr::release`, `Ptr::unpin`, `PinPtr::into_unpinned`).
pub open spec fn pin_step<Q>(d: Data<Q>, op: bool) -> Data<Q> {
    if op {
        d.with_pins((d.pins + 1) as u32)
    } else {
        d.with_pins((d.pins - 1) as u32)
    }
}

/// The header after the operations `ops`, in order.
pub open spec fn pin_steps<Q>(d: Data<Q>, ops: Seq<bool>) -> Data<Q>
    decreases ops.len(),
{
    if ops.len() == 0 {
        d
    } else {
        pin_step(pin_steps(d, ops.drop_last()), ops.last())
    }
}

/// How many times `b` occurs in `ops`.
pub open spec fn occurrences(ops: Seq<bool>, b: bool) -> int
    decreases ops.len(),
{
    if ops.len() == 0 {
        0
    } else {
        occurrences(ops.drop_last(), b) + if ops.last() == b {
            1int
        } else {
            0int
        }
    }
}

/// Owning handles alive after `ops` when `n` were alive before.
pub open spec fn handles_after(n: int, ops: Seq<bool>) -> int {
    n + occurrences(ops, true) - occurrences(ops, false)
}

/// A program holding `n` owning handles can perform `ops`: it gives a
/// handle up only while it holds one, and holds at most `u32::MAX`.
pub open spec fn feasible(n: int, ops: Seq<bool>) -> bool {
    forall|k: int|
        0 <= k < ops.len() ==> if #[trigger] ops[k] {
            handles_after(n, ops.subrange(0, k)) < u32::MAX
        } else {
            handles_after(n, ops.subrange(0, k)) > 0
        }
}

/// After any feasible sequence of handle operations the
/// pin count equals the number of owning handles alive, which is never
/// negative; nothing else in the header changes.
pub proof fn lemma_pin_accounting<Q>(d: Data<Q>, ops: Seq<bool>)
    requires
        feasible(d.pins as int, ops),
    ensures
        0 <= handles_after(d.pins as int, ops) <= u32::MAX,
        pin_steps(d, ops) == d.with_pins(handles_after(d.pins as int, ops) as u32),
    decreases ops.len(),
{
    if ops.len() > 0 {
        let pre = ops.drop_last();
        let k = ops.len() - 1;
        assert forall|i: int| 0 <= i < pre.len() implies if #[trigger] pre[i] {
            handles_after(d.pins as int, pre.subrange(0, i)) < u32::MAX
        } else {
            handles_after(d.pins as int, pre.subrange(0, i)) > 0
        } by {
            assert(pre.subrange(0, i) == ops.subrange(0, i));
            assert(pre[i] == ops[i]);
        }
        lemma_pin_accounting(d, pre);
        assert(ops.subrange(0, k) == pre);
        assert(ops[k] == ops.last());
    }
}

} // verus!
