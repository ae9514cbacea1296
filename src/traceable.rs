use vstd::prelude::*;

use crate::manager::TracingContext;
use crate::mem_block::Ptr;

verus! {

/// A payload that can report the references it owns.
///
/// `children` is the sequence of addresses that `trace` hands to the
/// context, in order. A payload that owns no references keeps the default.
pub trait Traceable {
    open spec fn children(&self) -> Seq<usize> {
        Seq::empty()
    }

    fn trace(&self, ctx: &mut TracingContext)
        ensures
            final(ctx)@ == old(ctx)@ + self.children(),
    ;
}

/// The references owned by each element of `s`, one after another.
pub open spec fn children_of_all<Q: Traceable>(s: Seq<Q>) -> Seq<usize>
    decreases s.len(),
{
    if s.len() == 0 {
        Seq::empty()
    } else {
        children_of_all(s.drop_last()) + s.last().children()
    }
}

impl Traceable for Ptr {
    open spec fn children(&self) -> Seq<usize> {
        seq![self@]
    }

    fn trace(&self, ctx: &mut TracingContext) {
        ctx.trace(*self);
    }
}

impl<Q: Traceable> Traceable for Option<Q> {
    open spec fn children(&self) -> Seq<usize> {
        match self {
            Some(q) => q.children(),
            None => Seq::empty(),
        }
    }

    fn trace(&self, ctx: &mut TracingContext) {
        if let Some(inner) = self {
            inner.trace(ctx);
        } else {
            assert(ctx@ == old(ctx)@ + Seq::<usize>::empty());
        }
    }
}

impl<Q: Traceable> Traceable for Box<Q> {
    open spec fn children(&self) -> Seq<usize> {
        (**self).children()
    }

    fn trace(&self, ctx: &mut TracingContext) {
        (**self).trace(ctx);
    }
}

impl<Q: Traceable> Traceable for Vec<Q> {
    open spec fn children(&self) -> Seq<usize> {
        children_of_all(self@)
    }

    fn trace(&self, ctx: &mut TracingContext) {
        let mut i: usize = 0;
        while i < self.len()
            invariant
                i <= self@.len(),
                ctx@ == old(ctx)@ + children_of_all(self@.subrange(0, i as int)),
            decreases self@.len() - i,
        {
            let ghost before = ctx@;
            self[i].trace(ctx);
            assert(self@.subrange(0, i + 1).drop_last() == self@.subrange(0, i as int));
            assert(ctx@ == before + self@[i as int].children());
            i = i + 1;
        }
        assert(self@.subrange(0, self@.len() as int) == self@);
    }
}

} // verus!
