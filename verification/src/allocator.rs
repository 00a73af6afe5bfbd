//! The layout calculus and the allocator capability.
//!
//! `Kind` describes a memory record's byte size and required alignment and
//! composes records by concatenation, realignment and replication. The
//! `Alloc` trait states what any allocator must do, over a model that maps
//! each live address to the block it names; `SuperAlloc` supplies the
//! derived operations every allocator gets for free; `DefaultAlloc` is the
//! library's own general-purpose allocator.

use vstd::prelude::*;
use vstd::arithmetic::power2::is_pow2;
use vstd::arithmetic::div_mod::{
    lemma_fundamental_div_mod,
    lemma_fundamental_div_mod_converse_mod,
    lemma_mod_division_less_than_divisor,
    lemma_mod_multiples_basic,
    lemma_mod_multiples_vanish,
    lemma_small_mod,
};

verus! {

pub type Size = usize;

pub type Capacity = usize;

pub type Alignment = usize;

/// Addresses are abstract: an allocator hands out nonzero tokens and the
/// model tracks which token names which live block. Zero is the failure
/// marker, never a valid address.
pub type Address = usize;

/// The address a client uses for a zero-sized buffer it never really
/// allocated; it names no block and must never be deallocated.
pub const EMPTY: Address = 1;

/// `len` rounded up to the next multiple of `align`.
pub open spec fn round_up(len: int, align: int) -> int {
    ((len + align - 1) / align) * align
}

/// Everything a caller needs to know about `round_up`: it clears `len` by
/// less than one alignment unit, lands on a multiple of `align`, and adds
/// exactly the padding that the remainder of `len` leaves open.
pub proof fn lemma_round_up(len: int, align: int)
    requires
        0 <= len,
        0 < align,
    ensures
        len <= round_up(len, align) < len + align,
        round_up(len, align) % align == 0,
        round_up(len, align) == len + (if len % align == 0 {
            0int
        } else {
            align - len % align
        }),
{
    let x = len + align - 1;
    let q = x / align;
    let r = x % align;
    lemma_fundamental_div_mod(x, align);
    lemma_mod_division_less_than_divisor(x, align);
    lemma_mod_multiples_basic(q, align);
    let m0 = len % align;
    lemma_fundamental_div_mod(len, align);
    lemma_mod_division_less_than_divisor(len, align);
    let q0 = len / align;
    if m0 == 0 {
        lemma_mod_multiples_vanish(q0, align - 1, align);
        lemma_small_mod((align - 1) as nat, align as nat);
        assert(r == align - 1);
    } else {
        assert(x == align * (q0 + 1) + (m0 - 1)) by (nonlinear_arith)
            requires
                x == len + align - 1,
                len == align * q0 + m0,
        ;
        lemma_fundamental_div_mod_converse_mod(x, align, q0 + 1, m0 - 1);
        assert(r == m0 - 1);
    }
}

/// A power of two is positive, so a well-formed alignment can divide.
pub proof fn lemma_pow2_positive(a: int)
    requires
        is_pow2(a),
    ensures
        0 < a,
{
    reveal(is_pow2);
}

/// Category for a memory record.
///
/// An instance of `Kind` describes a particular layout of memory.
/// You build a `Kind` up as an input to give to an allocator.
#[derive(Copy, Clone, Debug, PartialEq, Eq, Structural)]
pub struct Kind {
    pub size: Size,
    pub align: Alignment,
}

pub fn size_align<T>() -> (r: (usize, usize))
    ensures
        r.0 == vstd::layout::size_of::<T>(),
        r.1 == vstd::layout::align_of::<T>(),
        is_pow2(r.1 as int),
        r.0 % r.1 == 0,
        vstd::layout::valid_layout(r.0, r.1),
{
    vstd::layout::layout_for_type_is_valid::<T>();
    (core::mem::size_of::<T>(), core::mem::align_of::<T>())
}

impl Kind {
    /// A kind is well formed when its alignment is a power of two: the one
    /// contract every operation and every allocator asks of the kinds it is
    /// given.
    pub open spec fn wf(self) -> bool {
        is_pow2(self.align as int)
    }

    pub fn size(&self) -> (r: usize)
        ensures
            r == self.size,
    {
        self.size
    }

    pub fn align(&self) -> (r: usize)
        ensures
            r == self.align,
    {
        self.align
    }

    fn new_internal<T>() -> (r: Kind)
        ensures
            r.size == vstd::layout::size_of::<T>(),
            r.align == vstd::layout::align_of::<T>(),
            r.wf(),
            r.size % r.align == 0,
            vstd::layout::valid_layout(r.size, r.align),
    {
        let (size, align) = size_align::<T>();
        Kind { size, align }
    }

    /// Constructor from explicit parts; the power-of-two obligation on the
    /// alignment is the caller's, as the `requires` says.
    pub fn from_size_align(size: usize, align: usize) -> (r: Kind)
        requires
            is_pow2(align as int),
        ensures
            r == (Kind { size, align }),
            r.wf(),
    {
        Kind { size, align }
    }

    /// Creates a `Kind` describing the record for a single instance of `T`.
    pub fn new<T>() -> (r: Kind)
        ensures
            r.size == vstd::layout::size_of::<T>(),
            r.align == vstd::layout::align_of::<T>(),
            r.wf(),
            r.size % r.align == 0,
            vstd::layout::valid_layout(r.size, r.align),
    {
        Kind::new_internal::<T>()
    }

    /// Creates a `Kind` describing the record for `self` followed by
    /// `next` with no additional padding between the two. Since no
    /// padding is inserted, the alignment of `next` is irrelevant,
    /// and is not incorporated *at all* into the resulting `Kind`.
    ///
    /// Returns `(k, offset)`, where `k` is the kind of the concatenated
    /// record and `offset` is the start of `next` within it; the offset
    /// is always exactly `self.size`.
    pub fn extend_packed(self, next: Kind) -> (r: (Kind, usize))
        requires
            self.size + next.size <= usize::MAX,
        ensures
            r.0.size == self.size + next.size,
            r.0.align == self.align,
            r.1 == self.size,
    {
        let new_size = self.size + next.size;
        (Kind { size: new_size, align: self.align }, self.size)
    }

    /// Creates a `Kind` describing the record that can hold a value
    /// of the same kind as `self`, but that also is aligned to
    /// alignment `align`. If `self` already meets the prescribed
    /// alignment, then returns `self`. The size never changes.
    pub fn align_to(self, align: usize) -> (r: Kind)
        requires
            self.wf(),
            is_pow2(align as int),
        ensures
            r.size == self.size,
            r.align == vstd::math::max(self.align as int, align as int),
            r.wf(),
    {
        if align > self.align {
            Kind { align, size: self.size }
        } else {
            self
        }
    }

    /// Returns the amount of padding we must insert after `self`
    /// to ensure that the following address will satisfy `align`.
    fn pad_to(self, align: usize) -> (r: usize)
        requires
            0 < align,
        ensures
            r == round_up(self.size as int, align as int) - self.size,
            r < align,
    {
        proof {
            lemma_round_up(self.size as int, align as int);
        }
        let rem = self.size % align;
        if rem == 0 {
            0
        } else {
            align - rem
        }
    }

    /// Creates a `Kind` describing the record for `self` followed by
    /// `next`, including any necessary padding to ensure that `next`
    /// will be properly aligned. The resulting `Kind` satisfies the
    /// alignment of both `self` and `next`.
    ///
    /// Returns `(k, offset)`, where `k` is the kind of the concatenated
    /// record and `offset` is the start of `next` within it. The offset
    /// never cuts into the first record (`offset >= self.size`) and the
    /// composed alignment is the larger of the two.
    pub fn extend(self, next: Kind) -> (r: (Kind, usize))
        requires
            self.wf(),
            next.wf(),
            round_up(self.size as int, vstd::math::max(self.align as int, next.align as int))
                + next.size <= usize::MAX,
        ensures
            r.0.align == vstd::math::max(self.align as int, next.align as int),
            r.1 == round_up(self.size as int, r.0.align as int),
            r.0.size == r.1 + next.size,
            r.0.wf(),
            r.1 >= self.size,
            r.1 as int % (r.0.align as int) == 0,
    {
        let new_align = if self.align >= next.align {
            self.align
        } else {
            next.align
        };
        let realigned = Kind { align: new_align, size: self.size };
        proof {
            lemma_pow2_positive(new_align as int);
            lemma_round_up(self.size as int, new_align as int);
        }
        let pad = realigned.pad_to(new_align);
        let offset = self.size + pad;
        let new_size = offset + next.size;
        (Kind { size: new_size, align: new_align }, offset)
    }

    /// Creates a `Kind` describing the record for `n` instances of
    /// `self`, with a suitable amount of padding between each: the
    /// composed size is exactly `n` stretches of the element size
    /// rounded up to the element alignment.
    pub fn array(self, n: usize) -> (r: Kind)
        requires
            self.wf(),
            round_up(self.size as int, self.align as int) <= usize::MAX,
            n * round_up(self.size as int, self.align as int) <= usize::MAX,
        ensures
            r.size == n * round_up(self.size as int, self.align as int),
            r.align == self.align,
            r.wf(),
            self.size % self.align == 0 ==> r.size == n * self.size,
    {
        proof {
            lemma_pow2_positive(self.align as int);
            lemma_round_up(self.size as int, self.align as int);
        }
        let padded_size = self.size + self.pad_to(self.align);
        assert(padded_size * n == n * round_up(self.size as int, self.align as int))
            by (nonlinear_arith)
            requires
                padded_size == round_up(self.size as int, self.align as int),
        ;
        Kind { size: padded_size * n, align: self.align }
    }

    /// Creates a `Kind` describing the record for `n` instances of
    /// `self`, with no padding between each.
    pub fn array_packed(self, n: usize) -> (r: Kind)
        requires
            self.size * n <= usize::MAX,
        ensures
            r.size == n * self.size,
            r.align == self.align,
    {
        assert(self.size * n == n * self.size) by (nonlinear_arith);
        Kind { size: self.size * n, align: self.align }
    }
}

} // verus!

verus! {

/// The model of one live allocation: the kind it was made with and the
/// bytes it currently holds.
pub ghost struct MemBlock {
    pub kind: Kind,
    pub bytes: Seq<u8>,
}

/// Two byte ranges that do not overlap.
pub open spec fn ranges_disjoint(a1: int, s1: int, a2: int, s2: int) -> bool {
    a1 + s1 <= a2 || a2 + s2 <= a1
}

/// The range starting at `a` of `s` bytes overlaps no live block of `m`.
pub open spec fn range_free(m: Map<int, MemBlock>, a: int, s: int) -> bool {
    forall|q: int| #[trigger]
        m.dom().contains(q) ==> ranges_disjoint(q, m[q].kind.size as int, a, s)
}

/// What a successful allocation does to the model: a nonzero fresh address,
/// aligned as requested, whose range overlaps no live block, and which now
/// names a block of exactly the requested kind, every other block untouched.
pub open spec fn alloc_transition(
    pre: Map<int, MemBlock>,
    post: Map<int, MemBlock>,
    p: usize,
    kind: Kind,
) -> bool {
    &&& p != 0
    &&& !pre.dom().contains(p as int)
    &&& range_free(pre, p as int, kind.size as int)
    &&& p as int % kind.align as int == 0
    &&& p + kind.size <= usize::MAX
    &&& post.dom() =~= pre.dom().insert(p as int)
    &&& post[p as int].kind == kind
    &&& post[p as int].bytes.len() == kind.size
    &&& forall|q: int| #[trigger] pre.dom().contains(q) ==> post[q] == pre[q]
}

/// What `realloc` does to the model. Fitting requests are answered in
/// place and never shrink the block; growing requests either fail with
/// the model untouched (the old block stays valid) or move the contents
/// to a fresh block of the resized kind, preserving every old byte.
pub open spec fn realloc_transition(
    pre: Map<int, MemBlock>,
    post: Map<int, MemBlock>,
    ptr: usize,
    kind: Kind,
    new_size: usize,
    r: usize,
) -> bool {
    if new_size <= kind.size {
        r == ptr && post == pre
    } else if r == 0 {
        post == pre
    } else {
        &&& !pre.dom().contains(r as int)
        &&& range_free(pre, r as int, new_size as int)
        &&& r as int % kind.align as int == 0
        &&& r + new_size <= usize::MAX
        &&& post.dom() =~= pre.dom().remove(ptr as int).insert(r as int)
        &&& post[r as int].kind == (Kind { size: new_size, align: kind.align })
        &&& post[r as int].bytes.len() == new_size
        &&& post[r as int].bytes.subrange(0, kind.size as int) == pre[ptr as int].bytes
        &&& forall|q: int|
            #[trigger] pre.dom().contains(q) && q != ptr as int ==> post[q] == pre[q]
    }
}

/// The allocator capability: the two mandatory primitives plus byte access
/// to the blocks the allocator handed out. Everything else is derived in
/// `SuperAlloc`.
pub trait Alloc: Sized {
    /// The implementation's internal invariant.
    spec fn wf(&self) -> bool;

    /// The model: which live block each address currently names.
    spec fn mem(&self) -> Map<int, MemBlock>;

    /// Whether the allocator is certain to satisfy a request of this kind
    /// in its current state; outside this, `alloc` may fail.
    spec fn can_alloc(&self, kind: Kind) -> bool;

    /// Every live block's bytes match its kind, the kind is well formed,
    /// and the block's range lies in the valid address space.
    proof fn lemma_mem_wf(&self)
        requires
            self.wf(),
        ensures
            forall|q: int| #[trigger]
                self.mem().dom().contains(q) ==> self.mem()[q].bytes.len()
                    == self.mem()[q].kind.size && self.mem()[q].kind.wf() && 0 < q && q
                    + self.mem()[q].kind.size <= usize::MAX,
    ;

    /// Returns a freshly allocated, uninitialized region of `kind.size`
    /// bytes aligned to `kind.align`, or zero on failure, in which case
    /// nothing has changed.
    fn allocate(&mut self, kind: Kind) -> (p: Address)
        requires
            old(self).wf(),
            kind.wf(),
        ensures
            final(self).wf(),
            p == 0 ==> final(self).mem() == old(self).mem(),
            old(self).can_alloc(kind) ==> p != 0,
            p != 0 ==> alloc_transition(old(self).mem(), final(self).mem(), p, kind),
    ;

    /// Frees a region previously returned by `allocate` (or `realloc`) for an
    /// equal kind. Freeing anything else is no contract of this trait: the
    /// `requires` leaves it out.
    fn deallocate(&mut self, ptr: Address, kind: Kind)
        requires
            old(self).wf(),
            kind.wf(),
            old(self).mem().dom().contains(ptr as int),
            old(self).mem()[ptr as int].kind == kind,
        ensures
            final(self).wf(),
            final(self).mem() == old(self).mem().remove(ptr as int),
    ;

    /// Reads byte `i` of the block at `ptr`.
    fn read_byte(&self, ptr: Address, i: usize) -> (b: u8)
        requires
            self.wf(),
            self.mem().dom().contains(ptr as int),
            i < self.mem()[ptr as int].bytes.len(),
        ensures
            b == self.mem()[ptr as int].bytes[i as int],
    ;

    /// Writes byte `i` of the block at `ptr`.
    fn write_byte(&mut self, ptr: Address, i: usize, b: u8)
        requires
            old(self).wf(),
            old(self).mem().dom().contains(ptr as int),
            i < old(self).mem()[ptr as int].bytes.len(),
        ensures
            final(self).wf(),
            final(self).mem() == old(self).mem().insert(
                ptr as int,
                (MemBlock {
                    kind: old(self).mem()[ptr as int].kind,
                    bytes: old(self).mem()[ptr as int].bytes.update(i as int, b),
                }),
            ),
    ;
}

} // verus!

verus! {

/// An address together with the usable capacity behind it.
pub struct Excess(pub Address, pub Capacity);

/// Allocation failure as a value; never a panic.
#[derive(Copy, Clone, Debug, PartialEq, Eq, Structural)]
pub struct AllocError;

/// The kind of a single `T`, at the specification level.
pub open spec fn kind_of<T>() -> Kind {
    Kind {
        size: vstd::layout::size_of::<T>() as usize,
        align: vstd::layout::align_of::<T>() as usize,
    }
}

/// The kind `Kind::array` builds for `n` elements of `T`, at the
/// specification level; exact because an element's size is always a
/// multiple of its alignment.
pub open spec fn array_kind_of<T>(n: usize) -> Kind {
    Kind {
        size: (n * vstd::layout::size_of::<T>()) as usize,
        align: vstd::layout::align_of::<T>() as usize,
    }
}

/// The derived operations every allocator gets for free: typed single and
/// array allocation, the usable-size query, excess reporting, and the
/// generic reallocation that answers fitting requests in place and
/// otherwise moves the block while preserving its bytes.
pub trait SuperAlloc: Alloc {
    /// Lower bound on the bytes usable at a block of this kind without
    /// reallocation; this model reports no slack.
    fn usable_size(&self, kind: Kind) -> (r: Capacity)
        ensures
            r == kind.size,
    {
        kind.size()
    }

    /// Allocates a record for one `T`; failure is a value, not a panic.
    fn alloc_one<T>(&mut self) -> (r: Result<Address, AllocError>)
        requires
            old(self).wf(),
        ensures
            final(self).wf(),
            old(self).can_alloc(kind_of::<T>()) ==> r is Ok,
            r matches Ok(p) ==> alloc_transition(
                old(self).mem(),
                final(self).mem(),
                p,
                kind_of::<T>(),
            ),
            r is Err ==> final(self).mem() == old(self).mem(),
    {
        let k = Kind::new::<T>();
        let p = self.allocate(k);
        if p != 0 {
            Ok(p)
        } else {
            Err(AllocError)
        }
    }

    /// Frees a record previously allocated for one `T`.
    fn dealloc_one<T>(&mut self, ptr: Address)
        requires
            old(self).wf(),
            old(self).mem().dom().contains(ptr as int),
            old(self).mem()[ptr as int].kind == kind_of::<T>(),
        ensures
            final(self).wf(),
            final(self).mem() == old(self).mem().remove(ptr as int),
    {
        let k = Kind::new::<T>();
        self.deallocate(ptr, k);
    }

    /// Allocates a padded array record for `n` instances of `T`.
    fn alloc_array<T>(&mut self, n: usize) -> (r: Result<Address, AllocError>)
        requires
            old(self).wf(),
            n * vstd::layout::size_of::<T>() <= usize::MAX,
        ensures
            final(self).wf(),
            old(self).can_alloc(array_kind_of::<T>(n)) ==> r is Ok,
            r matches Ok(p) ==> alloc_transition(
                old(self).mem(),
                final(self).mem(),
                p,
                array_kind_of::<T>(n),
            ),
            r is Err ==> final(self).mem() == old(self).mem(),
    {
        let k = Kind::new::<T>();
        proof {
            lemma_pow2_positive(k.align as int);
            lemma_round_up(k.size as int, k.align as int);
        }
        let ak = k.array(n);
        assert(ak == array_kind_of::<T>(n));
        let p = self.allocate(ak);
        if p != 0 {
            Ok(p)
        } else {
            Err(AllocError)
        }
    }

    /// Allocates and reports the usable size alongside the address.
    fn alloc_excess(&mut self, kind: Kind) -> (r: Excess)
        requires
            old(self).wf(),
            kind.wf(),
        ensures
            final(self).wf(),
            r.1 == kind.size,
            old(self).can_alloc(kind) ==> r.0 != 0,
            r.0 == 0 ==> final(self).mem() == old(self).mem(),
            r.0 != 0 ==> alloc_transition(old(self).mem(), final(self).mem(), r.0, kind),
    {
        let p = self.allocate(kind);
        let u = self.usable_size(kind);
        Excess(p, u)
    }

    /// Reallocates the block at `ptr` to `new_size` bytes. A request that
    /// already fits returns the address unchanged and never shrinks the
    /// block; a growing request moves the contents to a fresh block and
    /// frees the old one, or fails with everything as it was.
    fn realloc(&mut self, ptr: Address, kind: Kind, new_size: Size) -> (r: Address)
        requires
            old(self).wf(),
            kind.wf(),
            old(self).mem().dom().contains(ptr as int),
            old(self).mem()[ptr as int].kind == kind,
        ensures
            final(self).wf(),
            realloc_transition(old(self).mem(), final(self).mem(), ptr, kind, new_size, r),
            new_size > kind.size && old(self).can_alloc(
                Kind { size: new_size, align: kind.align },
            ) ==> r != 0,
    {
        if new_size <= self.usable_size(kind) {
            return ptr;
        }
        let ghost pre = old(self).mem();
        proof {
            self.lemma_mem_wf();
        }
        let new_kind = Kind { size: new_size, align: kind.align() };
        let new_ptr = self.allocate(new_kind);
        if new_ptr != 0 {
            let count = if kind.size() <= new_size {
                kind.size()
            } else {
                new_size
            };
            let mut i: usize = 0;
            while i < count
                invariant
                    self.wf(),
                    count == kind.size,
                    kind.size < new_size,
                    i <= count,
                    pre.dom().contains(ptr as int),
                    pre[ptr as int].kind == kind,
                    pre[ptr as int].bytes.len() == kind.size,
                    new_ptr != 0,
                    !pre.dom().contains(new_ptr as int),
                    range_free(pre, new_ptr as int, new_size as int),
                    new_ptr as int % kind.align as int == 0,
                    new_ptr + new_size <= usize::MAX,
                    self.mem().dom() =~= pre.dom().insert(new_ptr as int),
                    self.mem()[new_ptr as int].kind == new_kind,
                    self.mem()[new_ptr as int].bytes.len() == new_size,
                    self.mem()[new_ptr as int].bytes.subrange(0, i as int) =~= pre[ptr as int]
                        .bytes.subrange(0, i as int),
                    forall|q: int| #[trigger]
                        pre.dom().contains(q) ==> self.mem()[q] == pre[q],
                    new_kind == (Kind { size: new_size, align: kind.align }),
                decreases count - i,
            {
                let b = self.read_byte(ptr, i);
                self.write_byte(new_ptr, i, b);
                i = i + 1;
            }
            self.deallocate(ptr, kind);
            proof {
                assert(pre[ptr as int].bytes.subrange(0, kind.size as int) =~= pre[ptr as int]
                    .bytes);
                assert(final(self).mem().dom() =~= pre.dom().remove(ptr as int).insert(
                    new_ptr as int,
                ));
            }
        }
        new_ptr
    }

    /// `realloc` plus the usable size of the resulting block.
    fn realloc_excess(&mut self, ptr: Address, kind: Kind, new_size: Size) -> (r: Excess)
        requires
            old(self).wf(),
            kind.wf(),
            old(self).mem().dom().contains(ptr as int),
            old(self).mem()[ptr as int].kind == kind,
        ensures
            final(self).wf(),
            realloc_transition(old(self).mem(), final(self).mem(), ptr, kind, new_size, r.0),
            r.1 == new_size,
            new_size > kind.size && old(self).can_alloc(
                Kind { size: new_size, align: kind.align },
            ) ==> r.0 != 0,
    {
        let p = self.realloc(ptr, kind, new_size);
        let u = self.usable_size(Kind { size: new_size, align: kind.align() });
        Excess(p, u)
    }
}

/// Every allocator gets the derived operations for free.
impl<A: Alloc> SuperAlloc for A {

}

} // verus!

verus! {

broadcast use vstd::set::group_set_axioms, vstd::map::group_map_axioms;

/// Lowest address the general-purpose allocator ever hands out; keeps every
/// real block clear of the failure marker and of `EMPTY`.
pub const HEAP_BASE: usize = 16;

/// One block the general-purpose allocator has handed out and not taken
/// back: where it starts, what it was allocated as, and its bytes.
struct HeapBlock {
    base: usize,
    kind: Kind,
    data: Vec<u8>,
}

impl HeapBlock {
    spec fn wf(&self) -> bool {
        &&& self.kind.wf()
        &&& self.data@.len() == self.kind.size
        &&& HEAP_BASE <= self.base
        &&& self.base as int % self.kind.align as int == 0
        &&& self.base + self.kind.size <= usize::MAX
    }

    spec fn end(&self) -> int {
        self.base + self.kind.size
    }

    spec fn model(&self) -> MemBlock {
        MemBlock { kind: self.kind, bytes: self.data@ }
    }
}

/// The library's general-purpose allocator: a model heap that hands out
/// fresh, pairwise disjoint, aligned address ranges, never reuses an
/// address, and remembers the bytes behind every live block.
pub struct DefaultAlloc {
    next: usize,
    blocks: Vec<HeapBlock>,
}

impl DefaultAlloc {
    spec fn block_ok(&self, i: int) -> bool {
        &&& self.blocks[i].wf()
        &&& self.blocks[i].end() <= self.next
        &&& self.blocks[i].base < self.next
    }

    spec fn ordered(&self, i: int, j: int) -> bool {
        &&& self.blocks[i].end() <= self.blocks[j].base
        &&& self.blocks[i].base < self.blocks[j].base
    }

    proof fn lemma_distinct_bases(&self, i: int, j: int)
        requires
            self.wf(),
            0 <= i < self.blocks.len(),
            0 <= j < self.blocks.len(),
            i != j,
        ensures
            self.blocks[i].base != self.blocks[j].base,
    {
        if i < j {
            assert(self.ordered(i, j));
        } else {
            assert(self.ordered(j, i));
        }
    }

    /// Each stored block is visible in the model under its own base.
    proof fn lemma_mem_at(&self, i: int)
        requires
            self.wf(),
            0 <= i < self.blocks.len(),
        ensures
            self.mem().dom().contains(self.blocks[i].base as int),
            self.mem()[self.blocks[i].base as int] == self.blocks[i].model(),
    {
        assert(self.block_ok(i));
        let a = self.blocks[i].base as int;
        assert(exists|k: int|
            0 <= k < self.blocks.len() && self.blocks[k].base as int == a) by {
            assert(self.blocks[i].base as int == a);
        }
        let k = choose|k: int| 0 <= k < self.blocks.len() && self.blocks[k].base as int == a;
        if k != i {
            self.lemma_distinct_bases(i, k);
        }
    }

    /// Any two live blocks of the general-purpose allocator occupy
    /// disjoint address ranges.
    pub proof fn lemma_blocks_disjoint(&self, a: int, b: int)
        requires
            self.wf(),
            self.mem().dom().contains(a),
            self.mem().dom().contains(b),
            a != b,
        ensures
            ranges_disjoint(
                a,
                self.mem()[a].kind.size as int,
                b,
                self.mem()[b].kind.size as int,
            ),
    {
        let i = choose|i: int| 0 <= i < self.blocks.len() && self.blocks[i].base as int == a;
        let j = choose|j: int| 0 <= j < self.blocks.len() && self.blocks[j].base as int == b;
        self.lemma_mem_at(i);
        self.lemma_mem_at(j);
        assert(self.block_ok(i));
        assert(self.block_ok(j));
        if i < j {
            assert(self.ordered(i, j));
        } else {
            assert(self.ordered(j, i));
        }
    }

    /// Every model address comes from a stored block, below the watermark.
    proof fn lemma_mem_dom(&self, a: int)
        requires
            self.wf(),
            self.mem().dom().contains(a),
        ensures
            exists|i: int|
                0 <= i < self.blocks.len() && self.blocks[i].base as int == a,
            HEAP_BASE <= a,
            a < self.next,
            a + self.mem()[a].kind.size <= self.next,
            self.mem()[a].bytes.len() == self.mem()[a].kind.size,
            self.mem()[a].kind.wf(),
    {
        let i = choose|i: int| 0 <= i < self.blocks.len() && self.blocks[i].base as int == a;
        assert(self.block_ok(i));
        self.lemma_mem_at(i);
    }
}

impl Alloc for DefaultAlloc {
    closed spec fn wf(&self) -> bool {
        &&& HEAP_BASE <= self.next
        &&& forall|i: int| 0 <= i < self.blocks.len() ==> #[trigger] self.block_ok(i)
        &&& forall|i: int, j: int|
            0 <= i < j < self.blocks.len() ==> #[trigger] self.ordered(i, j)
    }

    closed spec fn mem(&self) -> Map<int, MemBlock> {
        Map::new(
            |a: int|
                exists|i: int| 0 <= i < self.blocks.len() && self.blocks[i].base as int == a,
            |a: int|
                {
                    let i = choose|i: int|
                        0 <= i < self.blocks.len() && self.blocks[i].base as int == a;
                    self.blocks[i].model()
                },
        )
    }

    /// The heap accepts any request whose aligned range still fits in the
    /// remaining address space.
    closed spec fn can_alloc(&self, kind: Kind) -> bool {
        round_up(self.next as int, kind.align as int) + vstd::math::max(kind.size as int, 1)
            <= usize::MAX
    }

    proof fn lemma_mem_wf(&self) {
        assert forall|q: int| #[trigger] self.mem().dom().contains(q) implies self.mem()[q]
            .bytes.len() == self.mem()[q].kind.size && self.mem()[q].kind.wf() && 0 < q && q
            + self.mem()[q].kind.size <= usize::MAX by {
            self.lemma_mem_dom(q);
        }
    }

    fn allocate(&mut self, kind: Kind) -> (p: Address)
    {
        proof {
            lemma_pow2_positive(kind.align as int);
            lemma_round_up(self.next as int, kind.align as int);
        }
        let align = kind.align();
        let rem = self.next % align;
        let pad = if rem == 0 {
            0
        } else {
            align - rem
        };
        if pad > usize::MAX - self.next {
            return 0;
        }
        let base = self.next + pad;
        let step = if kind.size() == 0 {
            1
        } else {
            kind.size()
        };
        if step > usize::MAX - base {
            return 0;
        }
        let ghost pre = self.mem();
        let ghost old_self = *self;
        let data = zero_bytes(kind.size());
        self.blocks.push(HeapBlock { base, kind, data });
        self.next = base + step;
        proof {
            let n = self.blocks.len() as int - 1;
            assert forall|i: int| 0 <= i < self.blocks.len() implies #[trigger] self.block_ok(
                i,
            ) by {
                if i < n {
                    assert(old_self.block_ok(i));
                }
            }
            assert forall|i: int, j: int|
                0 <= i < j < self.blocks.len() implies #[trigger] self.ordered(i, j) by {
                if j < n {
                    assert(old_self.ordered(i, j));
                } else {
                    assert(old_self.block_ok(i));
                }
            }
            assert(self.wf());
            // the model gained exactly the new block
            assert forall|a: int| #[trigger]
                self.mem().dom().contains(a) implies pre.dom().contains(a) || a
                == base as int by {
                let i = choose|i: int|
                    0 <= i < self.blocks.len() && self.blocks[i].base as int == a;
                if i < n {
                    old_self.lemma_mem_at(i);
                }
            }
            assert forall|a: int| #[trigger]
                pre.dom().contains(a) implies self.mem().dom().contains(a) by {
                old_self.lemma_mem_dom(a);
                let i = choose|i: int|
                    0 <= i < old_self.blocks.len() && old_self.blocks[i].base as int == a;
                assert(self.blocks[i].base as int == a);
            }
            assert(self.mem().dom().contains(base as int)) by {
                self.lemma_mem_at(n);
            }
            assert(self.mem().dom() =~= pre.dom().insert(base as int));
            assert(!pre.dom().contains(base as int)) by {
                if pre.dom().contains(base as int) {
                    old_self.lemma_mem_dom(base as int);
                }
            }
            self.lemma_mem_at(n);
            assert(self.mem()[base as int].kind == kind);
            assert(self.mem()[base as int].bytes.len() == kind.size);
            assert forall|q: int| #[trigger] pre.dom().contains(q) implies self.mem()[q]
                == pre[q] by {
                old_self.lemma_mem_dom(q);
                let i = choose|i: int|
                    0 <= i < old_self.blocks.len() && old_self.blocks[i].base as int == q;
                old_self.lemma_mem_at(i);
                assert(self.blocks[i].base as int == q);
                self.lemma_mem_at(i);
            }
            assert forall|q: int| #[trigger] pre.dom().contains(q) implies ranges_disjoint(
                q,
                pre[q].kind.size as int,
                base as int,
                kind.size as int,
            ) by {
                old_self.lemma_mem_dom(q);
            }
            assert(alloc_transition(pre, self.mem(), base, kind));
        }
        base
    }

    fn deallocate(&mut self, ptr: Address, kind: Kind)
    {
        proof {
            self.lemma_mem_dom(ptr as int);
        }
        let ghost pre = self.mem();
        let ghost old_self = *self;
        let mut idx: usize = 0;
        while self.blocks[idx].base != ptr
            invariant
                *self == old_self,
                self.wf(),
                0 <= idx < self.blocks.len(),
                forall|j: int| 0 <= j < idx ==> self.blocks[j].base != ptr,
                exists|i: int|
                    0 <= i < self.blocks.len() && self.blocks[i].base == ptr,
            decreases self.blocks.len() - idx,
        {
            idx = idx + 1;
            proof {
                let i = choose|i: int|
                    0 <= i < self.blocks.len() && self.blocks[i].base == ptr;
                assert(idx <= i);
            }
        }
        let ghost k = idx as int;
        self.blocks.remove(idx);
        proof {
            // ordering and block bounds survive deleting one entry
            assert forall|i: int| 0 <= i < self.blocks.len() implies #[trigger] self.block_ok(
                i,
            ) by {
                if i < k {
                    assert(old_self.block_ok(i));
                    assert(self.blocks[i] == old_self.blocks[i]);
                } else {
                    assert(old_self.block_ok(i + 1));
                    assert(self.blocks[i] == old_self.blocks[i + 1]);
                }
            }
            assert forall|i: int, j: int|
                0 <= i < j < self.blocks.len() implies #[trigger] self.ordered(i, j) by {
                let i0 = if i < k { i } else { i + 1 };
                let j0 = if j < k { j } else { j + 1 };
                assert(old_self.ordered(i0, j0));
                assert(self.blocks[i] == old_self.blocks[i0]);
                assert(self.blocks[j] == old_self.blocks[j0]);
            }
            assert(self.wf());
            assert forall|a: int| self.mem().dom().contains(a) <==> (pre.dom().contains(a)
                && a != ptr as int) by {
                if self.mem().dom().contains(a) {
                    let i = choose|i: int|
                        0 <= i < self.blocks.len() && self.blocks[i].base as int == a;
                    let i0 = if i < k { i } else { i + 1 };
                    assert(old_self.blocks[i0].base as int == a);
                    old_self.lemma_mem_at(i0);
                    if i0 != k {
                        old_self.lemma_distinct_bases(i0, k);
                    }
                }
                if pre.dom().contains(a) && a != ptr as int {
                    old_self.lemma_mem_dom(a);
                    let i0 = choose|i: int|
                        0 <= i < old_self.blocks.len() && old_self.blocks[i].base as int == a;
                    let i = if i0 < k { i0 } else { i0 - 1 };
                    assert(self.blocks[i] == old_self.blocks[i0]);
                    assert(self.blocks[i].base as int == a);
                }
            }
            assert(self.mem().dom() =~= pre.remove(ptr as int).dom());
            assert forall|q: int| #[trigger] self.mem().dom().contains(q) implies self.mem()[q]
                == pre[q] by {
                let i = choose|i: int|
                    0 <= i < self.blocks.len() && self.blocks[i].base as int == q;
                let i0 = if i < k { i } else { i + 1 };
                assert(self.blocks[i] == old_self.blocks[i0]);
                old_self.lemma_mem_at(i0);
                self.lemma_mem_at(i);
            }
            assert(self.mem() =~= pre.remove(ptr as int));
        }
    }

    fn read_byte(&self, ptr: Address, i: usize) -> (b: u8)
    {
        proof {
            self.lemma_mem_dom(ptr as int);
        }
        let mut idx: usize = 0;
        while self.blocks[idx].base != ptr
            invariant
                self.wf(),
                self.mem().dom().contains(ptr as int),
                i < self.mem()[ptr as int].bytes.len(),
                0 <= idx < self.blocks.len(),
                forall|j: int| 0 <= j < idx ==> self.blocks[j].base != ptr,
                exists|k: int|
                    0 <= k < self.blocks.len() && self.blocks[k].base == ptr,
            decreases self.blocks.len() - idx,
        {
            idx = idx + 1;
            proof {
                let n = choose|k: int|
                    0 <= k < self.blocks.len() && self.blocks[k].base == ptr;
                assert(idx <= n);
            }
        }
        proof {
            self.lemma_mem_at(idx as int);
        }
        self.blocks[idx].data[i]
    }

    fn write_byte(&mut self, ptr: Address, i: usize, b: u8)
    {
        proof {
            self.lemma_mem_dom(ptr as int);
        }
        let ghost pre = self.mem();
        let ghost old_self = *self;
        let mut idx: usize = 0;
        while self.blocks[idx].base != ptr
            invariant
                *self == old_self,
                self.wf(),
                self.mem().dom().contains(ptr as int),
                i < self.mem()[ptr as int].bytes.len(),
                0 <= idx < self.blocks.len(),
                forall|j: int| 0 <= j < idx ==> self.blocks[j].base != ptr,
                exists|k: int|
                    0 <= k < self.blocks.len() && self.blocks[k].base == ptr,
            decreases self.blocks.len() - idx,
        {
            idx = idx + 1;
            proof {
                let n = choose|k: int|
                    0 <= k < self.blocks.len() && self.blocks[k].base == ptr;
                assert(idx <= n);
            }
        }
        let ghost k = idx as int;
        proof {
            old_self.lemma_mem_at(k);
        }
        let blk = &mut self.blocks[idx];
        blk.data.set(i, b);
        proof {
            assert(self.blocks[k].base == old_self.blocks[k].base);
            assert(self.blocks[k].kind == old_self.blocks[k].kind);
            assert(self.blocks[k].data@ == old_self.blocks[k].data@.update(i as int, b));
            assert forall|ii: int| 0 <= ii < self.blocks.len() implies #[trigger] self
                .block_ok(ii) by {
                assert(old_self.block_ok(ii));
                if ii != k {
                    assert(self.blocks[ii] == old_self.blocks[ii]);
                }
            }
            assert forall|ii: int, jj: int|
                0 <= ii < jj < self.blocks.len() implies #[trigger] self.ordered(ii, jj) by {
                assert(old_self.ordered(ii, jj));
                if ii != k {
                    assert(self.blocks[ii] == old_self.blocks[ii]);
                }
                if jj != k {
                    assert(self.blocks[jj] == old_self.blocks[jj]);
                }
            }
            assert(self.wf());
            assert forall|a: int| self.mem().dom().contains(a) <==> pre.dom().contains(a) by {
                if self.mem().dom().contains(a) {
                    let ii = choose|ii: int|
                        0 <= ii < self.blocks.len() && self.blocks[ii].base as int == a;
                    assert(old_self.blocks[ii].base as int == a);
                    old_self.lemma_mem_at(ii);
                }
                if pre.dom().contains(a) {
                    old_self.lemma_mem_dom(a);
                    let ii = choose|ii: int|
                        0 <= ii < old_self.blocks.len() && old_self.blocks[ii].base as int == a;
                    assert(self.blocks[ii].base as int == a);
                }
            }
            self.lemma_mem_at(k);
            assert forall|q: int|
                #[trigger] pre.dom().contains(q) && q != ptr as int implies self.mem()[q]
                == pre[q] by {
                old_self.lemma_mem_dom(q);
                let ii = choose|ii: int|
                    0 <= ii < old_self.blocks.len() && old_self.blocks[ii].base as int == q;
                old_self.lemma_mem_at(ii);
                assert(self.blocks[ii].base as int == q);
                if ii != k {
                    assert(self.blocks[ii] == old_self.blocks[ii]);
                }
                self.lemma_mem_at(ii);
            }
            assert(self.mem() =~~= pre.insert(
                ptr as int,
                (MemBlock {
                    kind: pre[ptr as int].kind,
                    bytes: pre[ptr as int].bytes.update(i as int, b),
                }),
            ));
        }
    }
}

/// Builds a zero-filled byte vector of the requested length.
pub(crate) fn zero_bytes(n: usize) -> (r: Vec<u8>)
    ensures
        r@.len() == n,
{
    let mut v: Vec<u8> = Vec::new();
    let mut i: usize = 0;
    while i < n
        invariant
            v@.len() == i,
            i <= n,
        decreases n - i,
    {
        v.push(0);
        i = i + 1;
    }
    v
}

impl Default for DefaultAlloc {
    /// A fresh allocator with an empty model that can satisfy any request
    /// whose aligned range fits comfortably in the address space.
    fn default() -> (r: Self)
        ensures
            r.wf(),
            r.mem() == Map::<int, MemBlock>::empty(),
            forall|k: Kind|
                k.wf() && k.align <= isize::MAX as usize && k.size <= isize::MAX as usize
                    ==> #[trigger] r.can_alloc(k),
    {
        let r = DefaultAlloc { next: HEAP_BASE, blocks: Vec::new() };
        proof {
            assert(r.mem().dom() =~= Map::<int, MemBlock>::empty().dom());
            assert(r.mem() =~= Map::<int, MemBlock>::empty());
            assert forall|k: Kind|
                k.wf() && k.align <= isize::MAX as usize && k.size <= isize::MAX as usize
                implies #[trigger] r.can_alloc(k) by {
                lemma_pow2_positive(k.align as int);
                lemma_round_up(HEAP_BASE as int, k.align as int);
                if k.align > HEAP_BASE {
                    lemma_small_mod(HEAP_BASE as nat, k.align as nat);
                }
            }
        }
        r
    }
}

} // verus!

verus! {

/// Growing a block preserves every byte it held: whatever a successful,
/// moving reallocation returns, the old block's contents sit unchanged at
/// the front of the new one.
pub proof fn lemma_realloc_preserves(
    pre: Map<int, MemBlock>,
    post: Map<int, MemBlock>,
    ptr: usize,
    kind: Kind,
    new_size: usize,
    r: usize,
)
    requires
        realloc_transition(pre, post, ptr, kind, new_size, r),
        pre.dom().contains(ptr as int),
        pre[ptr as int].bytes.len() == kind.size,
        r != 0,
    ensures
        new_size <= kind.size ==> post[ptr as int].bytes == pre[ptr as int].bytes,
        new_size > kind.size ==> post[r as int].bytes.subrange(0, kind.size as int) == pre[
            ptr as int].bytes,
{
}

} // verus!
