//! A single-owner box: one value, the record reserved for it, and the
//! allocator instance that produced the record, torn down together. The
//! teardown is an explicit method, a single deterministic sequence: hand
//! the value back, release the record, release the allocator.

use vstd::prelude::*;
use crate::allocator::{kind_of, Address, Alloc, DefaultAlloc, Kind};

verus! {

/// One value together with the allocator record that holds its footprint
/// and the allocator that produced it.
pub struct Box<T, A: Alloc = DefaultAlloc> {
    value: T,
    ptr: Address,
    alloc: A,
}

impl<T, A: Alloc> Box<T, A> {
    pub closed spec fn spec_value(&self) -> T {
        self.value
    }

    pub closed spec fn spec_ptr(&self) -> Address {
        self.ptr
    }

    pub closed spec fn spec_alloc(&self) -> A {
        self.alloc
    }

    /// The box owns a live record of exactly one `T`'s kind.
    pub closed spec fn wf(&self) -> bool {
        &&& self.alloc.wf()
        &&& self.alloc.mem().dom().contains(self.ptr as int)
        &&& self.alloc.mem()[self.ptr as int].kind == kind_of::<T>()
    }

    /// Wraps a value, a record previously allocated for one `T`, and the
    /// allocator that produced the record.
    pub fn from_raw_alloc(value: T, raw: Address, alloc: A) -> (r: Self)
        requires
            alloc.wf(),
            alloc.mem().dom().contains(raw as int),
            alloc.mem()[raw as int].kind == kind_of::<T>(),
        ensures
            r.wf(),
            r.spec_value() == value,
            r.spec_ptr() == raw,
            r.spec_alloc() == alloc,
    {
        Box { value, ptr: raw, alloc }
    }

    /// Read access to the boxed value.
    pub fn get(&self) -> (r: &T)
        ensures
            r == self.spec_value(),
    {
        &self.value
    }

    /// Write access to the boxed value.
    pub fn get_mut(&mut self) -> (r: &mut T)
        ensures
            *r == old(self).spec_value(),
            final(self).spec_value() == *final(r),
            final(self).spec_ptr() == old(self).spec_ptr(),
            final(self).spec_alloc() == old(self).spec_alloc(),
            old(self).wf() ==> final(self).wf(),
    {
        &mut self.value
    }

    /// Takes the box apart without releasing the record: the value, the
    /// record's still-live address, and the allocator all pass to the
    /// caller, who becomes responsible for the record.
    pub fn value_alloc(self) -> (r: (T, Address, A))
        ensures
            r.0 == self.spec_value(),
            r.1 == self.spec_ptr(),
            r.2 == self.spec_alloc(),
    {
        let Box { value, ptr, alloc } = self;
        (value, ptr, alloc)
    }

    /// Explicit teardown: hands the value back, releases the record to the
    /// allocator, and returns the allocator for its own release.
    pub fn free(self) -> (r: (T, A))
        requires
            self.wf(),
        ensures
            r.0 == self.spec_value(),
            r.1.wf(),
            r.1.mem() == self.spec_alloc().mem().remove(self.spec_ptr() as int),
    {
        let Box { value, ptr, alloc } = self;
        let mut alloc = alloc;
        let k = Kind::new::<T>();
        alloc.deallocate(ptr, k);
        (value, alloc)
    }
}

} // verus!
