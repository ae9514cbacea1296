use vstd::prelude::*;

verus! {

/// The header of one allocation, co-located with its payload.
pub struct Data<Q> {
    /// Number of live owning handles (`PinPtr`) to this object.
    pub pins: u32,
    /// Collection cycles since the object was last proven reachable.
    pub pos: u8,
    /// Held while the collector runs this object's trace callback.
    pub trace_lock: bool,
    /// The user value.
    pub payload: Q,
}

impl<Q> Data<Q> {
    /// A fresh header: one pin, position 0, trace lock free.
    pub fn new(data: Q) -> (r: Self)
        ensures
            r.pins == 1,
            r.pos == 0,
            !r.trace_lock,
            r.payload == data,
    {
        Data { pins: 1, pos: 0, trace_lock: false, payload: data }
    }

    /// This header with its pin count replaced.
    pub open spec fn with_pins(self, pins: u32) -> Data<Q> {
        Data { pins, pos: self.pos, trace_lock: self.trace_lock, payload: self.payload }
    }

    /// This header with its position replaced.
    pub open spec fn with_pos(self, pos: u8) -> Data<Q> {
        Data { pins: self.pins, pos, trace_lock: self.trace_lock, payload: self.payload }
    }

    /// This header with its payload replaced.
    pub open spec fn with_payload(self, payload: Q) -> Data<Q> {
        Data { pins: self.pins, pos: self.pos, trace_lock: self.trace_lock, payload }
    }
}

/// A non-owning handle: the address of an object in a `Manager`'s heap.
/// It does not affect the object's pin count.
#[derive(Clone, Copy, PartialEq, Eq, Structural, Debug)]
pub struct Ptr {
    addr: usize,
}

impl View for Ptr {
    type V = usize;

    closed spec fn view(&self) -> usize {
        self.addr
    }
}

impl Ptr {
    /// The handle for address `addr`.
    pub(crate) fn at(addr: usize) -> (r: Ptr)
        ensures
            r@ == addr,
    {
        Ptr { addr }
    }

    /// The address this handle refers to.
    pub fn raw(&self) -> (r: usize)
        ensures
            r == self@,
    {
        self.addr
    }
}

/// An owning handle: while it is held, its object has at least one pin.
#[derive(Debug)]
pub struct PinPtr(Ptr);

impl View for PinPtr {
    type V = usize;

    closed spec fn view(&self) -> usize {
        self.0@
    }
}

impl PinPtr {
    pub(crate) fn wrap(p: Ptr) -> (r: PinPtr)
        ensures
            r@ == p@,
    {
        PinPtr(p)
    }

    /// A non-owning handle to the same object; the pin count is not changed.
    pub fn downgrade(&self) -> (r: Ptr)
        ensures
            r@ == self@,
    {
        self.0
    }
}

} // verus!
