//! The heap model: liveness, references, reachability from pinned objects,
//! and what one collection cycle does to every slot.

use vstd::prelude::*;

use crate::mem_block::Data;
use crate::traceable::Traceable;

verus! {

/// Address `a` holds an allocated object.
pub open spec fn live<Q>(s: Seq<Option<Data<Q>>>, a: usize) -> bool {
    a < s.len() && s[a as int] is Some
}

/// The header at address `a` (meaningful when `live(s, a)`).
pub open spec fn header<Q>(s: Seq<Option<Data<Q>>>, a: usize) -> Data<Q> {
    s[a as int]->0
}

/// A pinned object: a root of the mark phase.
pub open spec fn is_root<Q>(s: Seq<Option<Data<Q>>>, a: usize) -> bool {
    live(s, a) && header(s, a).pins > 0
}

/// The live object at `a` owns a reference to `b`.
pub open spec fn edge<Q: Traceable>(s: Seq<Option<Data<Q>>>, a: usize, b: usize) -> bool {
    live(s, a) && header(s, a).payload.children().contains(b)
}

/// `p` starts at a root and follows owned references.
pub open spec fn is_path<Q: Traceable>(s: Seq<Option<Data<Q>>>, p: Seq<usize>) -> bool {
    &&& p.len() > 0
    &&& is_root(s, p[0])
    &&& forall|i: int| 0 <= i < p.len() - 1 ==> #[trigger] edge(s, p[i], p[i + 1])
}

/// Some path from a root ends at `a`.
pub open spec fn reachable<Q: Traceable>(s: Seq<Option<Data<Q>>>, a: usize) -> bool {
    exists|p: Seq<usize>| #[trigger] is_path(s, p) && p.last() == a
}

/// Two heaps that agree on which addresses are live and on the pins and
/// payload of each live object; they may differ in positions.
pub open spec fn same_graph<Q>(s1: Seq<Option<Data<Q>>>, s2: Seq<Option<Data<Q>>>) -> bool {
    &&& s1.len() == s2.len()
    &&& forall|a: usize| #[trigger] live(s1, a) <==> live(s2, a)
    &&& forall|a: usize|
        live(s1, a) ==> (#[trigger] header(s1, a)).pins == header(s2, a).pins
            && header(s1, a).payload == header(s2, a).payload
}

/// No live object holds the trace lock.
pub open spec fn unlocked<Q>(s: Seq<Option<Data<Q>>>) -> bool {
    forall|a: usize| live(s, a) ==> !(#[trigger] header(s, a)).trace_lock
}

/// Position after one aging step; the counter stops at its maximum.
pub open spec fn aged(pos: u8) -> u8 {
    if pos < 255 {
        (pos + 1) as u8
    } else {
        255
    }
}

/// Position of a live object after one cycle: reset when reachable,
/// aged otherwise.
pub open spec fn next_pos<Q: Traceable>(s: Seq<Option<Data<Q>>>, a: usize) -> u8 {
    if reachable(s, a) {
        0
    } else {
        aged(header(s, a).pos)
    }
}

/// Slot `a` after one cycle with death threshold `t`.
pub open spec fn next_slot<Q: Traceable>(s: Seq<Option<Data<Q>>>, t: u8, a: usize) -> Option<
    Data<Q>,
> {
    if live(s, a) {
        let d = header(s, a);
        if next_pos(s, a) > t {
            None
        } else {
            Some(Data { pins: d.pins, pos: next_pos(s, a), trace_lock: d.trace_lock, payload: d.payload })
        }
    } else {
        s[a as int]
    }
}

/// The heap after one collection cycle in which every live object is adopted.
pub open spec fn cycle<Q: Traceable>(s: Seq<Option<Data<Q>>>, t: u8) -> Seq<Option<Data<Q>>> {
    Seq::new(s.len(), |i: int| next_slot(s, t, i as usize))
}

/// The heap after `n` cycles with no mutator activity in between.
pub open spec fn cycles<Q: Traceable>(s: Seq<Option<Data<Q>>>, t: u8, n: nat) -> Seq<
    Option<Data<Q>>,
>
    decreases n,
{
    if n == 0 {
        s
    } else {
        cycles(cycle(s, t), t, (n - 1) as nat)
    }
}

/// A pinned object is reachable by the path made of itself.
pub proof fn lemma_root_reachable<Q: Traceable>(s: Seq<Option<Data<Q>>>, a: usize)
    requires
        is_root(s, a),
    ensures
        reachable(s, a),
{
    let p = seq![a];
    assert(is_path(s, p) && p.last() == a);
}

/// What a reachable live object references is reachable.
pub proof fn lemma_edge_reachable<Q: Traceable>(s: Seq<Option<Data<Q>>>, a: usize, b: usize)
    requires
        reachable(s, a),
        edge(s, a, b),
    ensures
        reachable(s, b),
{
    let p = choose|p: Seq<usize>| #[trigger] is_path(s, p) && p.last() == a;
    let q = p.push(b);
    assert forall|i: int| 0 <= i < q.len() - 1 implies #[trigger] edge(s, q[i], q[i + 1]) by {
        if i < p.len() - 1 {
            assert(q[i] == p[i] && q[i + 1] == p[i + 1]);
        } else {
            assert(q[i] == a && q[i + 1] == b);
        }
    }
    assert(is_path(s, q) && q.last() == b);
}

/// Every element of a path is reachable.
pub proof fn lemma_path_prefix<Q: Traceable>(s: Seq<Option<Data<Q>>>, p: Seq<usize>, k: int)
    requires
        is_path(s, p),
        0 <= k < p.len(),
    ensures
        reachable(s, p[k]),
{
    let q = p.subrange(0, k + 1);
    assert forall|i: int| 0 <= i < q.len() - 1 implies #[trigger] edge(s, q[i], q[i + 1]) by {
        assert(q[i] == p[i] && q[i + 1] == p[i + 1]);
        assert(edge(s, p[i], p[i + 1]));
    }
    assert(is_path(s, q) && q.last() == p[k]);
}

/// Reachability depends on liveness, pins and payloads only.
pub proof fn lemma_same_graph_reachable<Q: Traceable>(
    s1: Seq<Option<Data<Q>>>,
    s2: Seq<Option<Data<Q>>>,
    a: usize,
)
    requires
        same_graph(s1, s2),
    ensures
        reachable(s1, a) == reachable(s2, a),
{
    assert forall|p: Seq<usize>| #[trigger] is_path(s1, p) implies is_path(s2, p) by {
        assert forall|i: int| 0 <= i < p.len() - 1 implies #[trigger] edge(s2, p[i], p[i + 1]) by {
            assert(edge(s1, p[i], p[i + 1]));
        }
    }
    assert forall|p: Seq<usize>| #[trigger] is_path(s2, p) implies is_path(s1, p) by {
        assert forall|i: int| 0 <= i < p.len() - 1 implies #[trigger] edge(s1, p[i], p[i + 1]) by {
            assert(edge(s2, p[i], p[i + 1]));
        }
    }
    if reachable(s1, a) {
        let p = choose|p: Seq<usize>| #[trigger] is_path(s1, p) && p.last() == a;
        assert(is_path(s2, p));
    }
    if reachable(s2, a) {
        let p = choose|p: Seq<usize>| #[trigger] is_path(s2, p) && p.last() == a;
        assert(is_path(s1, p));
    }
}

/// A set that holds every root and every live object referenced from a
/// member holds every reachable live object.
pub proof fn lemma_closed_holds_reachable<Q: Traceable>(
    s: Seq<Option<Data<Q>>>,
    m: Set<usize>,
    a: usize,
)
    requires
        forall|r: usize| is_root(s, r) ==> #[trigger] m.contains(r),
        forall|x: usize, c: usize|
            m.contains(x) && #[trigger] edge(s, x, c) && live(s, c) ==> #[trigger] m.contains(c),
        reachable(s, a),
        live(s, a),
    ensures
        m.contains(a),
{
    let p = choose|p: Seq<usize>| #[trigger] is_path(s, p) && p.last() == a;
    lemma_path_within(s, m, p, p.len() - 1);
}

proof fn lemma_path_within<Q: Traceable>(s: Seq<Option<Data<Q>>>, m: Set<usize>, p: Seq<usize>, k: int)
    requires
        forall|r: usize| is_root(s, r) ==> #[trigger] m.contains(r),
        forall|x: usize, c: usize|
            m.contains(x) && #[trigger] edge(s, x, c) && live(s, c) ==> #[trigger] m.contains(c),
        is_path(s, p),
        0 <= k < p.len(),
        live(s, p[k]),
    ensures
        m.contains(p[k]),
    decreases k,
{
    if k > 0 {
        let i = k - 1;
        assert(edge(s, p[i], p[i + 1]));
        lemma_path_within(s, m, p, k - 1);
    }
}


/// The live object at `a` has been reached in the current mark phase.
pub open spec fn marked<Q>(s: Seq<Option<Data<Q>>>, a: usize) -> bool {
    live(s, a) && header(s, a).pos == 0
}

/// The heap after one aging step of every live object.
pub open spec fn aged_slots<Q>(s: Seq<Option<Data<Q>>>) -> Seq<Option<Data<Q>>> {
    Seq::new(
        s.len(),
        |i: int|
            if live(s, i as usize) {
                Some(header(s, i as usize).with_pos(aged(header(s, i as usize).pos)))
            } else {
                s[i]
            },
    )
}

/// The heap with every live object whose position exceeds `t` freed.
pub open spec fn swept_slots<Q>(s: Seq<Option<Data<Q>>>, t: u8) -> Seq<Option<Data<Q>>> {
    Seq::new(
        s.len(),
        |i: int|
            if live(s, i as usize) && header(s, i as usize).pos > t {
                None
            } else {
                s[i]
            },
    )
}

/// Number of live objects at addresses below `n`.
pub open spec fn live_below<Q>(s: Seq<Option<Data<Q>>>, n: int) -> nat
    decreases n,
{
    if n <= 0 {
        0
    } else {
        live_below(s, n - 1) + if live(s, (n - 1) as usize) {
            1nat
        } else {
            0nat
        }
    }
}

/// Number of live, not yet marked objects at addresses below `n`.
pub open spec fn unmarked_below<Q>(s: Seq<Option<Data<Q>>>, n: int) -> nat
    decreases n,
{
    if n <= 0 {
        0
    } else {
        unmarked_below(s, n - 1) + if live(s, (n - 1) as usize) && header(s, (n - 1) as usize).pos != 0 {
            1nat
        } else {
            0nat
        }
    }
}

/// Marking one unmarked object lowers the count by one.
pub proof fn lemma_mark_one<Q>(s: Seq<Option<Data<Q>>>, a: usize, n: int)
    requires
        live(s, a),
        header(s, a).pos != 0,
        0 <= n <= s.len(),
        s.len() <= usize::MAX,
    ensures
        unmarked_below(s.update(a as int, Some(header(s, a).with_pos(0))), n) + (if a < n {
            1nat
        } else {
            0nat
        }) == unmarked_below(s, n),
    decreases n,
{
    let s2 = s.update(a as int, Some(header(s, a).with_pos(0)));
    if n > 0 {
        lemma_mark_one(s, a, n - 1);
        let b = (n - 1) as usize;
        assert(b as int == n - 1);
        if b == a {
            assert(header(s2, b).pos == 0);
        } else {
            assert(s2[b as int] == s[b as int]);
            assert(live(s2, b) == live(s, b));
        }
    }
}

} // verus!
