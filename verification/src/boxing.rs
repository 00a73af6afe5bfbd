//! Construction in place, as a two-phase protocol: `Boxing::make_place`
//! reserves raw storage of a value's kind, and `InterimBox::finalize`
//! writes the constructed value into that storage and wraps it in the
//! owning box.

use vstd::prelude::*;
use core::marker::PhantomData;
use crate::allocator::{alloc_transition, kind_of, Address, Alloc, Kind};
use crate::boxed::Box;

verus! {

/// An allocator put forward as the place a value will be built in.
pub struct Boxing<A: Alloc>(pub A);

/// Storage reserved for one `T` that has not been written yet.
pub struct InterimBox<T, A> {
    p: Address,
    a: A,
    elem: PhantomData<T>,
}

impl<T, A: Alloc> InterimBox<T, A> {
    pub closed spec fn spec_ptr(&self) -> Address {
        self.p
    }

    pub closed spec fn spec_alloc(&self) -> A {
        self.a
    }

    /// The reserved record is live and has the value's kind.
    pub closed spec fn wf(&self) -> bool {
        &&& self.a.wf()
        &&& self.a.mem().dom().contains(self.p as int)
        &&& self.a.mem()[self.p as int].kind == kind_of::<T>()
    }

    /// The raw write location this place stands for.
    pub fn pointer(&self) -> (r: Address)
        ensures
            r == self.spec_ptr(),
    {
        self.p
    }

    /// Writes the constructed value into the reserved storage and wraps it
    /// in the owning box.
    pub fn finalize(self, value: T) -> (r: Box<T, A>)
        requires
            self.wf(),
        ensures
            r.wf(),
            r.spec_value() == value,
            r.spec_ptr() == self.spec_ptr(),
            r.spec_alloc() == self.spec_alloc(),
    {
        let InterimBox { p, a, elem: _ } = self;
        Box::from_raw_alloc(value, p, a)
    }
}

impl<A: Alloc> Boxing<A> {
    /// Reserves storage for one `T`: the first half of the protocol. The
    /// allocator must be able to satisfy the value's footprint.
    pub fn make_place<T>(self) -> (r: InterimBox<T, A>)
        requires
            self.0.wf(),
            self.0.can_alloc(kind_of::<T>()),
        ensures
            r.wf(),
            alloc_transition(
                self.0.mem(),
                r.spec_alloc().mem(),
                r.spec_ptr(),
                kind_of::<T>(),
            ),
    {
        let Boxing(mut a) = self;
        let k = Kind::new::<T>();
        let p = a.allocate(k);
        InterimBox { p, a, elem: PhantomData }
    }
}

} // verus!
