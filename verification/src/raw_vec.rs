//! The growable buffer: an owned, capacity-tracked block of `T` elements
//! on top of any allocator capability. It tracks no logical length, only
//! the allocated capacity, and grows by doubling or by exact reservation.

use vstd::prelude::*;
use core::marker::PhantomData;
use crate::allocator::{
    array_kind_of, alloc_transition, realloc_transition, lemma_pow2_positive, lemma_round_up,
    Address, Alloc, DefaultAlloc, Kind, MemBlock, SuperAlloc, EMPTY,
};

verus! {

/// What `reserve` and `reserve_exact` compare before growing: the free
/// room left, computed with a wrapping subtraction so that a `used` count
/// beyond the capacity asks for a huge remainder only when it wraps.
pub open spec fn wrapped_remaining(cap: usize, used: usize) -> int {
    if used <= cap {
        cap - used
    } else {
        cap - used + usize::MAX + 1
    }
}

/// Whether a reservation of `extra` beyond `used` forces the buffer to grow.
pub open spec fn spec_needs_grow(cap: usize, used: usize, extra: usize) -> bool {
    wrapped_remaining(cap, used) < extra
}

/// What shrinking does to the allocator's model: the old block is gone, a
/// fresh block of the smaller kind holds the surviving prefix of its bytes,
/// and nothing else moved.
pub open spec fn shrink_transition(
    pre: Map<int, MemBlock>,
    post: Map<int, MemBlock>,
    p0: usize,
    p1: usize,
    k1: Kind,
) -> bool {
    &&& p1 != 0
    &&& !pre.dom().contains(p1 as int)
    &&& post.dom() =~= pre.dom().remove(p0 as int).insert(p1 as int)
    &&& post[p1 as int].kind == k1
    &&& post[p1 as int].bytes.len() == k1.size
    &&& post[p1 as int].bytes == pre[p0 as int].bytes.subrange(0, k1.size as int)
    &&& forall|q: int|
        #[trigger] pre.dom().contains(q) && q != p0 as int && q != p1 as int ==> post[q]
            == pre[q]
}

/// A buffer that owns a contiguous block of `T` elements and the allocator
/// instance that produced it. The capacity it reports is the element count
/// its block was allocated for, or the untracked maximum for zero-sized
/// elements, which never allocate.
pub struct RawVec<T, A: Alloc = DefaultAlloc> {
    ptr: Address,
    cap: usize,
    alloc: A,
    elem: PhantomData<T>,
}

/// The sentinel address and starting capacity of a buffer that owns no
/// block yet: zero-sized elements report the maximum count, everything
/// else starts at zero.
fn empty_parts<T>() -> (r: (Address, usize))
    ensures
        r.0 == EMPTY,
        r.1 == (if vstd::layout::size_of::<T>() == 0 {
            usize::MAX
        } else {
            0usize
        }),
{
    let cap = if core::mem::size_of::<T>() == 0 {
        usize::MAX
    } else {
        0
    };
    (EMPTY, cap)
}

/// The growth guard: no buffer ever asks an allocator for more than
/// `isize::MAX` bytes. A request beyond that is a capacity overflow, ruled
/// out before it could reach the allocator.
fn alloc_guard(alloc_size: usize)
    requires
        alloc_size <= isize::MAX as usize,
{
}

/// Builds the padded array kind for `n` elements of `T`; exact because an
/// element's size is a multiple of its alignment.
fn elem_array_kind<T>(n: usize) -> (k: Kind)
    requires
        n * vstd::layout::size_of::<T>() <= usize::MAX,
    ensures
        k == array_kind_of::<T>(n),
        k.wf(),
        k.size == n * vstd::layout::size_of::<T>(),
        k.align == vstd::layout::align_of::<T>(),
{
    let k = Kind::new::<T>();
    proof {
        lemma_pow2_positive(k.align as int);
        lemma_round_up(k.size as int, k.align as int);
    }
    k.array(n)
}

impl<T, A: Alloc> RawVec<T, A> {
    /// The address of the owned block, or the sentinel.
    pub closed spec fn spec_ptr(&self) -> Address {
        self.ptr
    }

    /// The capacity this buffer reports: its element count, or the
    /// untracked maximum for zero-sized elements.
    pub closed spec fn spec_cap(&self) -> usize {
        if vstd::layout::size_of::<T>() == 0 {
            usize::MAX
        } else {
            self.cap
        }
    }

    /// The owned allocator instance.
    pub closed spec fn spec_alloc(&self) -> A {
        self.alloc
    }

    /// The buffer either sits at the sentinel without owning a block, or
    /// its address names a live block allocated for exactly its capacity,
    /// never more than `isize::MAX` bytes.
    pub closed spec fn wf(&self) -> bool {
        &&& self.alloc.wf()
        &&& if vstd::layout::size_of::<T>() == 0 || self.cap == 0 {
            self.ptr == EMPTY
        } else {
            &&& self.alloc.mem().dom().contains(self.ptr as int)
            &&& self.alloc.mem()[self.ptr as int].kind == array_kind_of::<T>(self.cap)
            &&& self.cap * vstd::layout::size_of::<T>() <= isize::MAX
        }
    }

    /// Creates the empty buffer around an allocator of the caller's choice.
    pub fn with_alloc(a: A) -> (r: Self)
        requires
            a.wf(),
        ensures
            r.wf(),
            r.spec_alloc() == a,
            r.spec_cap() == (if vstd::layout::size_of::<T>() == 0 {
                usize::MAX
            } else {
                0usize
            }),
            r.spec_ptr() == EMPTY,
    {
        let (ptr, cap) = empty_parts::<T>();
        RawVec { ptr, cap, alloc: a, elem: PhantomData }
    }

    /// Allocates a buffer of exactly `cap` elements from the given
    /// allocator. Zero total bytes (a zero capacity or a zero-sized
    /// element) degenerate to the sentinel without allocating, and a
    /// zero-sized element reports the maximum capacity.
    pub fn with_capacity_alloc(cap: usize, a: A) -> (r: Self)
        requires
            a.wf(),
            cap * vstd::layout::size_of::<T>() <= isize::MAX,
            cap * vstd::layout::size_of::<T>() > 0 ==> a.can_alloc(array_kind_of::<T>(cap)),
        ensures
            r.wf(),
            r.spec_cap() == (if vstd::layout::size_of::<T>() == 0 {
                usize::MAX
            } else {
                cap
            }),
            cap * vstd::layout::size_of::<T>() == 0 ==> r.spec_alloc() == a
                && r.spec_ptr() == EMPTY,
            cap * vstd::layout::size_of::<T>() > 0 ==> alloc_transition(
                a.mem(),
                r.spec_alloc().mem(),
                r.spec_ptr(),
                array_kind_of::<T>(cap),
            ),
    {
        let mut a = a;
        let elem_size = core::mem::size_of::<T>();
        let alloc_size = cap * elem_size;
        alloc_guard(alloc_size);
        proof {
            assert((cap as int) * (elem_size as int) == 0 <==> (cap == 0 || elem_size == 0))
                by (nonlinear_arith);
        }
        let ptr = if alloc_size == 0 {
            EMPTY
        } else {
            let k = elem_array_kind::<T>(cap);
            // the contract owes success here, so no path to the fatal
            // out-of-memory hook remains
            alloc_nonzero(&mut a, k)
        };
        RawVec { ptr, cap, alloc: a, elem: PhantomData }
    }

    /// The block's address; the sentinel when nothing is allocated.
    pub fn ptr(&self) -> (r: Address)
        ensures
            r == self.spec_ptr(),
    {
        self.ptr
    }

    /// The capacity: how many elements fit before the buffer must grow.
    pub fn cap(&self) -> (r: usize)
        ensures
            r == self.spec_cap(),
    {
        if core::mem::size_of::<T>() == 0 {
            usize::MAX
        } else {
            self.cap
        }
    }
}

/// Allocates and returns the nonzero address the contract owes.
fn alloc_nonzero<A: Alloc>(a: &mut A, k: Kind) -> (p: Address)
    requires
        old(a).wf(),
        k.wf(),
        old(a).can_alloc(k),
    ensures
        final(a).wf(),
        p != 0,
        alloc_transition(old(a).mem(), final(a).mem(), p, k),
{
    a.allocate(k)
}

} // verus!

verus! {

/// The capacity `double` grows to from `cap`: a fresh buffer jumps to four
/// elements (one when four might not fit in the address space), a live one
/// doubles.
pub open spec fn doubled_cap<T>(cap: usize) -> usize {
    if cap == 0 {
        if vstd::layout::size_of::<T>() > usize::MAX as int / 8 {
            1usize
        } else {
            4usize
        }
    } else {
        (2 * cap) as usize
    }
}

impl<T, A: Alloc> RawVec<T, A> {
    /// Doubles the capacity, used on the append path; amortized constant
    /// per element. A zero-sized element type never reaches here: its
    /// capacity is already the maximum, so needing to double is a capacity
    /// overflow, which the contract rules out.
    pub fn double(&mut self)
        requires
            old(self).wf(),
            vstd::layout::size_of::<T>() != 0,
            doubled_cap::<T>(old(self).spec_cap()) * vstd::layout::size_of::<T>()
                <= isize::MAX,
            old(self).spec_alloc().can_alloc(
                array_kind_of::<T>(doubled_cap::<T>(old(self).spec_cap())),
            ),
        ensures
            final(self).wf(),
            final(self).spec_cap() == doubled_cap::<T>(old(self).spec_cap()),
            final(self).spec_ptr() != 0,
            old(self).spec_cap() == 0 ==> alloc_transition(
                old(self).spec_alloc().mem(),
                final(self).spec_alloc().mem(),
                final(self).spec_ptr(),
                array_kind_of::<T>(doubled_cap::<T>(0)),
            ),
            old(self).spec_cap() > 0 ==> realloc_transition(
                old(self).spec_alloc().mem(),
                final(self).spec_alloc().mem(),
                old(self).spec_ptr(),
                array_kind_of::<T>(old(self).spec_cap()),
                (doubled_cap::<T>(old(self).spec_cap())
                    * vstd::layout::size_of::<T>()) as usize,
                final(self).spec_ptr(),
            ),
    {
        let elem_size = core::mem::size_of::<T>();
        let (new_cap, ptr) = if self.cap == 0 {
            let new_cap: usize = if elem_size > usize::MAX / 8 {
                1
            } else {
                4
            };
            let k = elem_array_kind::<T>(new_cap);
            let p = self.alloc.allocate(k);
            (new_cap, p)
        } else {
            let ghost c0 = self.cap;
            proof {
                assert(c0 <= c0 * elem_size) by (nonlinear_arith)
                    requires
                        elem_size >= 1,
                        c0 >= 0,
                ;
                assert(2 * c0 <= 2 * c0 * elem_size) by (nonlinear_arith)
                    requires
                        elem_size >= 1,
                        c0 >= 0,
                ;
                assert(c0 * elem_size < 2 * c0 * elem_size) by (nonlinear_arith)
                    requires
                        elem_size >= 1,
                        c0 >= 1,
                ;
            }
            let new_cap = 2 * self.cap;
            let new_alloc_size = new_cap * elem_size;
            alloc_guard(new_alloc_size);
            let k = elem_array_kind::<T>(self.cap);
            let p = self.alloc.realloc(self.ptr, k, new_alloc_size);
            (new_cap, p)
        };
        // a null result is ruled out by the contract, so no path to the
        // fatal out-of-memory hook remains
        self.ptr = ptr;
        self.cap = new_cap;
    }

    /// Grows to exactly `used_cap + needed_extra_cap` elements if the
    /// current capacity does not already cover it; no overshoot, and a
    /// sufficient capacity changes nothing at all.
    pub fn reserve_exact(&mut self, used_cap: usize, needed_extra_cap: usize)
        requires
            old(self).wf(),
            spec_needs_grow(old(self).spec_cap(), used_cap, needed_extra_cap) ==> {
                &&& used_cap + needed_extra_cap <= usize::MAX
                &&& (used_cap + needed_extra_cap) * vstd::layout::size_of::<T>()
                    <= isize::MAX
                &&& old(self).spec_alloc().can_alloc(
                    array_kind_of::<T>((used_cap + needed_extra_cap) as usize),
                )
            },
        ensures
            final(self).wf(),
            !spec_needs_grow(old(self).spec_cap(), used_cap, needed_extra_cap) ==> *final(self)
                == *old(self),
            spec_needs_grow(old(self).spec_cap(), used_cap, needed_extra_cap) ==> final(self).spec_cap() == used_cap + needed_extra_cap && final(self).spec_ptr() != 0,
            used_cap <= old(self).spec_cap() ==> final(self).spec_cap() >= used_cap
                + needed_extra_cap,
            final(self).spec_cap() >= old(self).spec_cap(),
            spec_needs_grow(old(self).spec_cap(), used_cap, needed_extra_cap) && old(self).spec_cap() == 0 ==> alloc_transition(
                old(self).spec_alloc().mem(),
                final(self).spec_alloc().mem(),
                final(self).spec_ptr(),
                array_kind_of::<T>((used_cap + needed_extra_cap) as usize),
            ),
            spec_needs_grow(old(self).spec_cap(), used_cap, needed_extra_cap) && old(self).spec_cap() > 0 ==> realloc_transition(
                old(self).spec_alloc().mem(),
                final(self).spec_alloc().mem(),
                old(self).spec_ptr(),
                array_kind_of::<T>(old(self).spec_cap()),
                ((used_cap + needed_extra_cap) * vstd::layout::size_of::<T>()) as usize,
                final(self).spec_ptr(),
            ),
    {
        let remaining = self.cap().wrapping_sub(used_cap);
        if remaining >= needed_extra_cap {
            return ;
        }
        let elem_size = core::mem::size_of::<T>();
        let new_cap = used_cap + needed_extra_cap;
        let new_alloc_size = new_cap * elem_size;
        alloc_guard(new_alloc_size);
        let ghost c0 = self.cap;
        proof {
            if 1 <= elem_size && c0 < new_cap {
                assert(c0 * elem_size < new_cap * elem_size) by (nonlinear_arith)
                    requires
                        elem_size >= 1,
                        0 <= c0 < new_cap,
                ;
            }
        }
        let ptr = if self.cap == 0 {
            let k = elem_array_kind::<T>(new_cap);
            self.alloc.allocate(k)
        } else {
            let k = elem_array_kind::<T>(self.cap);
            self.alloc.realloc(self.ptr, k, new_alloc_size)
        };
        self.ptr = ptr;
        self.cap = new_cap;
    }

    /// Grows to at least twice `used_cap + needed_extra_cap` elements when
    /// the current capacity is insufficient, over-provisioning so that a
    /// run of future reservations is amortized; a sufficient capacity
    /// changes nothing at all.
    pub fn reserve(&mut self, used_cap: usize, needed_extra_cap: usize)
        requires
            old(self).wf(),
            spec_needs_grow(old(self).spec_cap(), used_cap, needed_extra_cap) ==> {
                &&& (used_cap + needed_extra_cap) * 2 <= usize::MAX
                &&& (used_cap + needed_extra_cap) * 2 * vstd::layout::size_of::<T>()
                    <= isize::MAX
                &&& old(self).spec_alloc().can_alloc(
                    array_kind_of::<T>(((used_cap + needed_extra_cap) * 2) as usize),
                )
            },
        ensures
            final(self).wf(),
            !spec_needs_grow(old(self).spec_cap(), used_cap, needed_extra_cap) ==> *final(self)
                == *old(self),
            spec_needs_grow(old(self).spec_cap(), used_cap, needed_extra_cap) ==> final(self).spec_cap() == (used_cap + needed_extra_cap) * 2 && final(self).spec_ptr() != 0,
            used_cap <= old(self).spec_cap() ==> final(self).spec_cap() >= used_cap
                + needed_extra_cap,
            final(self).spec_cap() >= old(self).spec_cap(),
            spec_needs_grow(old(self).spec_cap(), used_cap, needed_extra_cap) && old(self).spec_cap() == 0 ==> alloc_transition(
                old(self).spec_alloc().mem(),
                final(self).spec_alloc().mem(),
                final(self).spec_ptr(),
                array_kind_of::<T>(((used_cap + needed_extra_cap) * 2) as usize),
            ),
            spec_needs_grow(old(self).spec_cap(), used_cap, needed_extra_cap) && old(self).spec_cap() > 0 ==> realloc_transition(
                old(self).spec_alloc().mem(),
                final(self).spec_alloc().mem(),
                old(self).spec_ptr(),
                array_kind_of::<T>(old(self).spec_cap()),
                ((used_cap + needed_extra_cap) * 2 * vstd::layout::size_of::<T>()) as usize,
                final(self).spec_ptr(),
            ),
    {
        let remaining = self.cap().wrapping_sub(used_cap);
        if remaining >= needed_extra_cap {
            return ;
        }
        let elem_size = core::mem::size_of::<T>();
        let new_cap = (used_cap + needed_extra_cap) * 2;
        let new_alloc_size = new_cap * elem_size;
        alloc_guard(new_alloc_size);
        let ghost c0 = self.cap;
        proof {
            if 1 <= elem_size && c0 < new_cap {
                assert(c0 * elem_size < new_cap * elem_size) by (nonlinear_arith)
                    requires
                        elem_size >= 1,
                        0 <= c0 < new_cap,
                ;
            }
        }
        let ptr = if self.cap == 0 {
            let k = elem_array_kind::<T>(new_cap);
            self.alloc.allocate(k)
        } else {
            let k = elem_array_kind::<T>(self.cap);
            self.alloc.realloc(self.ptr, k, new_alloc_size)
        };
        self.ptr = ptr;
        self.cap = new_cap;
    }
}

} // verus!

verus! {

impl<T, A: Alloc> RawVec<T, A> {
    /// Shrinks the buffer to exactly `amount` elements, which must not
    /// exceed the capacity. Zero resets to the sentinel and deliberately
    /// leaves the old block behind, so the allocator model is unchanged;
    /// any other smaller amount moves the surviving prefix into a block of
    /// exactly that capacity and frees the old one. For zero-sized
    /// elements only the stored count changes.
    pub fn shrink_to_fit(&mut self, amount: usize)
        requires
            old(self).wf(),
            vstd::layout::size_of::<T>() != 0 ==> amount <= old(self).spec_cap(),
            vstd::layout::size_of::<T>() != 0 && 0 < amount && amount != old(self).spec_cap()
                ==> old(self).spec_alloc().can_alloc(array_kind_of::<T>(amount)),
        ensures
            final(self).wf(),
            vstd::layout::size_of::<T>() == 0 ==> final(self).spec_cap() == usize::MAX
                && final(self).spec_alloc() == old(self).spec_alloc(),
            vstd::layout::size_of::<T>() != 0 ==> final(self).spec_cap() == amount,
            vstd::layout::size_of::<T>() != 0 && amount == 0 ==> final(self).spec_alloc().mem()
                == old(self).spec_alloc().mem() && final(self).spec_ptr() == EMPTY,
            vstd::layout::size_of::<T>() != 0 && amount == old(self).spec_cap() && amount != 0
                ==> *final(self) == *old(self),
            vstd::layout::size_of::<T>() != 0 && 0 < amount < old(self).spec_cap()
                ==> shrink_transition(
                old(self).spec_alloc().mem(),
                final(self).spec_alloc().mem(),
                old(self).spec_ptr(),
                final(self).spec_ptr(),
                array_kind_of::<T>(amount),
            ),
    {
        let elem_size = core::mem::size_of::<T>();
        if elem_size == 0 {
            self.cap = amount;
            return ;
        }
        // asking to shrink to a larger capacity is a contract violation,
        // ruled out by the `requires`
        if amount == 0 {
            let (p, c) = empty_parts::<T>();
            self.ptr = p;
            self.cap = c;
        } else if self.cap != amount {
            let ghost pre = self.alloc.mem();
            let ghost old_ptr = self.ptr;
            proof {
                assert(amount * elem_size < self.cap * elem_size) by (nonlinear_arith)
                    requires
                        elem_size >= 1,
                        0 <= amount < self.cap,
                ;
                self.alloc.lemma_mem_wf();
            }
            // move the surviving prefix into an exact block: the generic
            // reallocation never shrinks in place, and the teardown must
            // later free the block under its exact kind
            let k_new = elem_array_kind::<T>(amount);
            let p = alloc_nonzero(&mut self.alloc, k_new);
            let count = amount * elem_size;
            let mut i: usize = 0;
            while i < count
                invariant
                    self.alloc.wf(),
                    count == amount * elem_size,
                    i <= count,
                    p != 0,
                    old_ptr == self.ptr,
                    self.cap == old(self).spec_cap(),
                    self.cap * elem_size <= isize::MAX,
                    elem_size == vstd::layout::size_of::<T>(),
                    0 < amount < self.cap,
                    pre.dom().contains(old_ptr as int),
                    pre[old_ptr as int].bytes.len() >= count,
                    pre[old_ptr as int].kind == array_kind_of::<T>(self.cap as usize),
                    !pre.dom().contains(p as int),
                    self.alloc.mem().dom() =~= pre.dom().insert(p as int),
                    self.alloc.mem()[p as int].kind == k_new,
                    self.alloc.mem()[p as int].bytes.len() == count,
                    self.alloc.mem()[p as int].bytes.subrange(0, i as int) =~= pre[
                        old_ptr as int].bytes.subrange(0, i as int),
                    forall|q: int| #[trigger]
                        pre.dom().contains(q) ==> self.alloc.mem()[q] == pre[q],
                    k_new == array_kind_of::<T>(amount),
                    k_new.size == count,
                decreases count - i,
            {
                let b = self.alloc.read_byte(self.ptr, i);
                self.alloc.write_byte(p, i, b);
                i = i + 1;
            }
            let k_old = elem_array_kind::<T>(self.cap);
            self.alloc.deallocate(self.ptr, k_old);
            proof {
                assert(self.alloc.mem().dom() =~= pre.dom().remove(old_ptr as int).insert(
                    p as int,
                ));
                assert(self.alloc.mem()[p as int].bytes =~= self.alloc.mem()[
                    p as int].bytes.subrange(0, count as int));
                assert(self.alloc.mem()[p as int].bytes =~= pre[old_ptr as int].bytes.subrange(
                    0,
                    count as int,
                ));
            }
            self.ptr = p;
            self.cap = amount;
        }
    }

    /// Explicit teardown: releases the owned block (if any) back to the
    /// allocator and leaves the buffer in its empty state. The sentinel
    /// states, including every zero-sized-element buffer, release nothing.
    pub fn free(&mut self)
        requires
            old(self).wf(),
        ensures
            final(self).wf(),
            final(self).spec_ptr() == EMPTY,
            final(self).spec_cap() == (if vstd::layout::size_of::<T>() == 0 {
                usize::MAX
            } else {
                0usize
            }),
            vstd::layout::size_of::<T>() != 0 && old(self).spec_cap() != 0 ==> final(self).spec_alloc().mem() == old(self).spec_alloc().mem().remove(
                old(self).spec_ptr() as int,
            ),
            vstd::layout::size_of::<T>() == 0 || old(self).spec_cap() == 0 ==> final(self).spec_alloc() == old(self).spec_alloc(),
    {
        let elem_size = core::mem::size_of::<T>();
        if elem_size != 0 && self.cap != 0 {
            let k = elem_array_kind::<T>(self.cap);
            self.alloc.deallocate(self.ptr, k);
        }
        let (p, c) = empty_parts::<T>();
        self.ptr = p;
        self.cap = c;
    }
}

impl<T> RawVec<T, DefaultAlloc> {
    /// Creates the empty buffer around a fresh general-purpose allocator.
    pub fn new() -> (r: Self)
        ensures
            r.wf(),
            r.spec_cap() == (if vstd::layout::size_of::<T>() == 0 {
                usize::MAX
            } else {
                0usize
            }),
            r.spec_ptr() == EMPTY,
            r.spec_alloc().mem() == Map::<int, MemBlock>::empty(),
    {
        Self::with_alloc(Default::default())
    }

    /// Allocates a buffer of `cap` elements from a fresh general-purpose
    /// allocator; the request must stay within the growth guard.
    pub fn with_capacity(cap: usize) -> (r: Self)
        requires
            cap * vstd::layout::size_of::<T>() <= isize::MAX,
        ensures
            r.wf(),
            r.spec_cap() == (if vstd::layout::size_of::<T>() == 0 {
                usize::MAX
            } else {
                cap
            }),
            cap * vstd::layout::size_of::<T>() == 0 ==> r.spec_alloc().mem() == Map::<
                int,
                MemBlock,
            >::empty() && r.spec_ptr() == EMPTY,
            cap * vstd::layout::size_of::<T>() > 0 ==> alloc_transition(
                Map::empty(),
                r.spec_alloc().mem(),
                r.spec_ptr(),
                array_kind_of::<T>(cap),
            ),
    {
        vstd::layout::layout_for_type_is_valid::<T>();
        let a: DefaultAlloc = Default::default();
        proof {
            let es = vstd::layout::size_of::<T>() as int;
            assert((cap as int) * es == 0 <==> (cap == 0 || es == 0)) by (nonlinear_arith);
            if cap * vstd::layout::size_of::<T>() > 0 {
                let align = vstd::layout::align_of::<T>() as usize;
                if align > isize::MAX as usize {
                    vstd::arithmetic::div_mod::lemma_small_mod(
                        isize::MAX as nat,
                        align as nat,
                    );
                }
                assert(array_kind_of::<T>(cap).align <= isize::MAX as usize);
            }
        }
        Self::with_capacity_alloc(cap, a)
    }
}

} // verus!
