//! A truly simple-minded bump allocator.
//!
//! The allocation area is a single block of `len` bytes, formatted as a run
//! of entries. Each entry is the client's value, padding up to the arena
//! granularity, and a four-byte signed size header at its end whose
//! absolute value is the entry's total size; the sign alone encodes
//! liveness. Allocation rounds the request up to the granularity and bumps
//! a cursor; requests the arena cannot serve (too strict an alignment, or
//! no room) are delegated to a fallback allocator. Deallocation negates the
//! header in place, and when the freed entry is the last one it rolls the
//! cursor backward over every trailing freed entry in one pass, so the
//! allocator is at its best under stack-like (last in, first out) use.

use vstd::prelude::*;
use vstd::arithmetic::power2::is_pow2;
use vstd::arithmetic::div_mod::{
    lemma_add_mod_noop, lemma_fundamental_div_mod, lemma_mod_division_less_than_divisor,
    lemma_mod_multiples_basic,
};
use crate::allocator::{
    alloc_transition, lemma_pow2_positive, ranges_disjoint, Address, Alloc as AllocTrait,
    DefaultAlloc, Kind, MemBlock,
};

verus! {

broadcast use vstd::set::group_set_axioms, vstd::map::group_map_axioms;

/// The arena granularity: entry sizes round up to multiples of this, and it
/// is the strictest alignment the arena itself serves.
pub const MIN_ALIGN: u32 = 16;

/// The largest backing block an arena may be built over.
pub const MAX_LEN: u32 = 4 * 1024 * 1024;

/// An entry's total size for a client request of `size` bytes: the value,
/// the padding and the four-byte header, rounded up to the granularity.
pub open spec fn entry_total(size: int) -> int {
    16 * ((size + 4) / 16 + 1)
}

/// The total strictly covers the value and the header, stays on the
/// granularity grid, and never overshoots by more than one granule.
pub proof fn lemma_entry_total(size: int)
    requires
        0 <= size,
    ensures
        size + 4 < entry_total(size) <= size + 4 + 16,
        entry_total(size) % 16 == 0,
        16 <= entry_total(size),
{
    lemma_fundamental_div_mod(size + 4, 16);
    lemma_mod_division_less_than_divisor(size + 4, 16);
    lemma_mod_multiples_basic((size + 4) / 16 + 1, 16);
}

/// The ghost image of one arena entry.
pub ghost struct ArenaEntry {
    pub offset: int,
    pub total: int,
    pub live: bool,
    pub size: int,
    pub align: int,
}

/// The ghost image of the whole arena: its length, its cursor, and the run
/// of entries between the block start and the cursor.
pub ghost struct ArenaModel {
    pub len: int,
    pub cursor: int,
    pub entries: Seq<ArenaEntry>,
}

pub open spec fn entry_end(e: ArenaEntry) -> int {
    e.offset + e.total
}

pub open spec fn entry_wf(e: ArenaEntry) -> bool {
    &&& 0 <= e.offset
    &&& e.offset % 16 == 0
    &&& 16 <= e.total
    &&& e.total % 16 == 0
    &&& e.live ==> {
        &&& 0 <= e.size
        &&& e.total == entry_total(e.size)
        &&& is_pow2(e.align)
        &&& 0 < e.align <= 16
    }
}

/// The arena's shape: entries tile the space from the block start to the
/// cursor without gaps, and every entry sits on the granularity grid.
pub open spec fn arena_wf(m: ArenaModel) -> bool {
    &&& 0 <= m.cursor <= m.len
    &&& m.cursor % 16 == 0
    &&& (m.entries.len() == 0 ==> m.cursor == 0)
    &&& (m.entries.len() > 0 ==> m.entries[0].offset == 0 && entry_end(
        m.entries[m.entries.len() - 1],
    ) == m.cursor)
    &&& forall|i: int|
        0 <= i < m.entries.len() - 1 ==> (#[trigger] m.entries[i + 1]).offset == entry_end(
            m.entries[i],
        )
    &&& forall|i: int| 0 <= i < m.entries.len() ==> entry_wf(#[trigger] m.entries[i])
}

/// Whether the arena itself can place a request of this size and alignment.
pub open spec fn arena_fits(m: ArenaModel, size: int, align: int) -> bool {
    align <= 16 && m.cursor + entry_total(size) < m.len
}

/// What an arena-served allocation does to the ghost image: one live entry
/// appears at the cursor, which advances past it.
pub open spec fn arena_alloc_step(m: ArenaModel, size: int, align: int) -> ArenaModel {
    ArenaModel {
        len: m.len,
        cursor: m.cursor + entry_total(size),
        entries: m.entries.push(
            ArenaEntry {
                offset: m.cursor,
                total: entry_total(size),
                live: true,
                size,
                align,
            },
        ),
    }
}

/// The index of the last live entry strictly before `i`, or -1.
pub open spec fn last_live_before(entries: Seq<ArenaEntry>, i: int) -> int
    decreases i,
{
    if i <= 0 {
        -1
    } else if entries[i - 1].live {
        i - 1
    } else {
        last_live_before(entries, i - 1)
    }
}

/// What freeing the live entry at index `i` does to the ghost image: a
/// middle entry is only marked freed and the cursor stands still; the last
/// entry takes every trailing freed entry with it, and the cursor rolls
/// back to the end of the last live entry that remains, or to the start.
pub open spec fn arena_dealloc_step(m: ArenaModel, i: int) -> ArenaModel {
    let e = m.entries[i];
    if entry_end(e) != m.cursor {
        ArenaModel {
            len: m.len,
            cursor: m.cursor,
            entries: m.entries.update(
                i,
                ArenaEntry { live: false, offset: e.offset, total: e.total, size: e.size, align: e.align },
            ),
        }
    } else {
        let j = last_live_before(m.entries, i);
        if j < 0 {
            ArenaModel { len: m.len, cursor: 0, entries: Seq::empty() }
        } else {
            ArenaModel {
                len: m.len,
                cursor: entry_end(m.entries[j]),
                entries: m.entries.subrange(0, j + 1),
            }
        }
    }
}

/// One arena entry as stored: its offset, its signed size header, the kind
/// a live entry was allocated with, and the client's bytes.
struct Entry {
    offset: usize,
    header: i32,
    kind: Kind,
    data: Vec<u8>,
}

impl Entry {
    spec fn model(&self) -> ArenaEntry {
        ArenaEntry {
            offset: self.offset as int,
            total: if self.header >= 0 {
                self.header as int
            } else {
                -(self.header as int)
            },
            live: self.header > 0,
            size: self.kind.size as int,
            align: self.kind.align as int,
        }
    }

    spec fn wf(&self) -> bool {
        &&& self.header != 0
        &&& self.header > 0 ==> self.data@.len() == self.kind.size
    }
}

/// The bump allocator: a backing block obtained from the fallback
/// allocator, a cursor, and the entries behind it. Requests the arena
/// cannot serve go to the fallback, and what the fallback handed out the
/// fallback takes back.
pub struct Alloc {
    fallback: DefaultAlloc,
    base: usize,
    len: usize,
    cursor: usize,
    entries: Vec<Entry>,
}

impl View for Alloc {
    type V = ArenaModel;

    closed spec fn view(&self) -> ArenaModel {
        ArenaModel {
            len: self.len as int,
            cursor: self.cursor as int,
            entries: self.entries@.map_values(|e: Entry| e.model()),
        }
    }
}

/// Along a well-formed arena the entries stand in strictly increasing
/// offsets: an earlier entry ends no later than a later one begins.
pub proof fn lemma_arena_chain(m: ArenaModel, i: int, j: int)
    requires
        arena_wf(m),
        0 <= i < j < m.entries.len(),
    ensures
        entry_end(m.entries[i]) <= m.entries[j].offset,
        m.entries[i].offset < m.entries[j].offset,
    decreases j - i,
{
    assert(entry_wf(m.entries[i]));
    assert(entry_wf(m.entries[j]));
    if j == i + 1 {
        assert(m.entries[i + 1].offset == entry_end(m.entries[i]));
    } else {
        lemma_arena_chain(m, i, j - 1);
        assert(m.entries[j - 1 + 1].offset == entry_end(m.entries[j - 1]));
        assert(entry_wf(m.entries[j - 1]));
    }
}

/// Every entry of a well-formed arena ends at or before the cursor.
pub proof fn lemma_arena_end(m: ArenaModel, i: int)
    requires
        arena_wf(m),
        0 <= i < m.entries.len(),
    ensures
        entry_end(m.entries[i]) <= m.cursor,
        m.entries[i].offset < m.cursor,
{
    let n = m.entries.len() as int;
    if i < n - 1 {
        lemma_arena_chain(m, i, n - 1);
    }
}

} // verus!

verus! {

/// A power of two divides every larger power of two.
pub proof fn lemma_pow2_divides(a: int, b: int)
    requires
        is_pow2(a),
        is_pow2(b),
        a <= b,
    ensures
        b % a == 0,
{
    vstd::arithmetic::power2::is_pow2_equiv(a);
    vstd::arithmetic::power2::is_pow2_equiv(b);
    let i = choose|i: nat| vstd::arithmetic::power::pow(2, i) == a;
    let j = choose|j: nat| vstd::arithmetic::power::pow(2, j) == b;
    lemma_pow2_positive(a);
    if j < i {
        vstd::arithmetic::power::lemma_pow_strictly_increases(2, j, i);
    }
    vstd::arithmetic::power::lemma_pow_adds(2, i, (j - i) as nat);
    lemma_mod_multiples_basic(vstd::arithmetic::power::pow(2, (j - i) as nat) as int, a);
}

/// A multiple of sixteen is a multiple of every alignment the arena serves.
pub proof fn lemma_granule_aligned(x: int, align: int)
    requires
        x % 16 == 0,
        is_pow2(align),
        align <= 16,
    ensures
        x % align == 0,
{
    lemma_pow2_positive(align);
    assert(is_pow2(16int)) by {
        reveal_with_fuel(is_pow2, 6);
    }
    lemma_pow2_divides(align, 16);
    let d = 16int / align;
    lemma_fundamental_div_mod(16int, align);
    let m = x / 16int;
    lemma_fundamental_div_mod(x, 16int);
    assert(x == align * (d * m)) by (nonlinear_arith)
        requires
            x == 16 * m,
            16 == align * d,
    ;
    lemma_mod_multiples_basic(d * m, align);
}

impl Alloc {
    /// The address of entry `i`'s value within the address space.
    spec fn addr_of(&self, i: int) -> int {
        self.base + self.entries[i].offset
    }

    /// The whole invariant: the fallback is sound, the arena image is well
    /// formed, the backing block is a live block of the fallback of exactly
    /// the arena's length, and every stored entry carries bytes matching
    /// its kind.
    closed spec fn inv(&self) -> bool {
        &&& self.fallback.wf()
        &&& arena_wf(self@)
        &&& self.len <= MAX_LEN as usize
        &&& self.base as int % 16 == 0
        &&& self.base + self.len <= usize::MAX
        &&& self.fallback.mem().dom().contains(self.base as int)
        &&& self.fallback.mem()[self.base as int].kind == (Kind {
            size: self.len,
            align: MIN_ALIGN as usize,
        })
        &&& forall|i: int| 0 <= i < self.entries.len() ==> (#[trigger] self.entries[i]).wf()
    }

    /// The client-visible blocks the arena itself holds.
    closed spec fn arena_mem(&self) -> Map<int, MemBlock> {
        Map::new(
            |a: int|
                exists|i: int|
                    0 <= i < self.entries.len() && (#[trigger] self.entries[i]).header > 0
                        && self.base + self.entries[i].offset == a,
            |a: int|
                {
                    let i = choose|i: int|
                        0 <= i < self.entries.len() && (#[trigger] self.entries[i]).header > 0
                            && self.base + self.entries[i].offset == a;
                    MemBlock { kind: self.entries[i].kind, bytes: self.entries[i].data@ }
                },
        )
    }

    /// Each live entry is visible in the arena's model under its address.
    proof fn lemma_arena_at(&self, i: int)
        requires
            self.inv(),
            0 <= i < self.entries.len(),
            self.entries[i].header > 0,
        ensures
            self.arena_mem().dom().contains(self.addr_of(i)),
            self.arena_mem()[self.addr_of(i)] == (MemBlock {
                kind: self.entries[i].kind,
                bytes: self.entries[i].data@,
            }),
    {
        let a = self.addr_of(i);
        assert(self.base + self.entries[i].offset == a);
        let j = choose|j: int|
            0 <= j < self.entries.len() && (#[trigger] self.entries[j]).header > 0 && self.base
                + self.entries[j].offset == a;
        if j != i {
            if j < i {
                lemma_arena_chain(self@, j, i);
            } else {
                lemma_arena_chain(self@, i, j);
            }
        }
    }

    /// Every arena-model address is a live entry inside the block, whose
    /// bytes match the kind it was allocated with.
    proof fn lemma_arena_dom(&self, a: int)
        requires
            self.inv(),
            self.arena_mem().dom().contains(a),
        ensures
            exists|i: int|
                0 <= i < self.entries.len() && (#[trigger] self.entries[i]).header > 0
                    && self.base + self.entries[i].offset == a,
            self.base <= a,
            a + self.arena_mem()[a].kind.size < self.base + self@.cursor,
            self@.cursor <= self.len,
            self.arena_mem()[a].bytes.len() == self.arena_mem()[a].kind.size,
            self.arena_mem()[a].kind.wf(),
            self.arena_mem()[a].kind.align <= 16,
    {
        let i = choose|i: int|
            0 <= i < self.entries.len() && (#[trigger] self.entries[i]).header > 0 && self.base
                + self.entries[i].offset == a;
        self.lemma_arena_at(i);
        lemma_arena_end(self@, i);
        assert(entry_wf(self@.entries[i]));
        lemma_entry_total(self@.entries[i].size);
    }

    /// A fallback block other than the backing block lies entirely outside
    /// the arena's address range.
    proof fn lemma_delegated(&self, a: int)
        requires
            self.inv(),
            self.fallback.mem().dom().contains(a),
            a != self.base,
        ensures
            ranges_disjoint(
                a,
                self.fallback.mem()[a].kind.size as int,
                self.base as int,
                self.len as int,
            ),
            !(self.base <= a < self.base + self.len),
    {
        self.fallback.lemma_blocks_disjoint(a, self.base as int);
        self.fallback.lemma_mem_wf();
    }

    /// Creates a bump allocator over a fresh backing block of `len` bytes,
    /// obtained from a fresh fallback allocator.
    pub fn new(len: u32) -> (r: Alloc)
        requires
            len <= MAX_LEN,
        ensures
            r.wf(),
            r@.cursor == 0,
            r@.len == len,
            r@.entries == Seq::<ArenaEntry>::empty(),
            r.mem() == Map::<int, MemBlock>::empty(),
    {
        let mut fallback: DefaultAlloc = Default::default();
        proof {
            assert(is_pow2(MIN_ALIGN as int)) by {
                reveal_with_fuel(is_pow2, 6);
            }
        }
        let k = Kind::from_size_align(len as usize, MIN_ALIGN as usize);
        let base = fallback.allocate(k);
        let r = Alloc {
            fallback,
            base,
            len: len as usize,
            cursor: 0,
            entries: Vec::new(),
        };
        proof {
            assert(r@.entries =~= Seq::<ArenaEntry>::empty());
            assert(r.arena_mem().dom() =~= Set::<int>::empty());
            assert(r.mem().dom() =~= Map::<int, MemBlock>::empty().dom());
            assert(r.mem() =~= Map::<int, MemBlock>::empty());
        }
        r
    }
}

} // verus!

verus! {

/// Skipping a run of freed entries does not change where the last live
/// entry before a position stands.
proof fn lemma_llb_skip(entries: Seq<ArenaEntry>, k: int, i: int)
    requires
        0 <= k <= i <= entries.len(),
        forall|j: int| k <= j < i ==> !(#[trigger] entries[j]).live,
    ensures
        last_live_before(entries, i) == last_live_before(entries, k),
    decreases i - k,
{
    if k < i {
        lemma_llb_skip(entries, k, i - 1);
    }
}

impl Alloc {
    /// The address the backing block starts at.
    pub closed spec fn spec_base(&self) -> usize {
        self.base
    }

    /// The combined client view: what the fallback holds, except the
    /// backing block itself, plus the arena's own live entries.
    closed spec fn model_mem(&self) -> Map<int, MemBlock> {
        self.fallback.mem().remove(self.base as int).union_prefer_right(self.arena_mem())
    }

    /// The cursor: the offset of the first free byte of the arena.
    pub fn cursor(&self) -> (r: usize)
        ensures
            r == self@.cursor,
    {
        self.cursor
    }

    /// The address the backing block starts at.
    pub fn block_start(&self) -> (r: usize)
        ensures
            r == self.spec_base(),
    {
        self.base
    }
}

impl AllocTrait for Alloc {
    closed spec fn wf(&self) -> bool {
        self.inv()
    }

    closed spec fn mem(&self) -> Map<int, MemBlock> {
        self.model_mem()
    }

    /// The arena serves what fits; everything else is as good as the
    /// fallback's word.
    closed spec fn can_alloc(&self, kind: Kind) -> bool {
        arena_fits(self@, kind.size as int, kind.align as int) || self.fallback.can_alloc(kind)
    }

    proof fn lemma_mem_wf(&self) {
        assert forall|q: int| #[trigger] self.mem().dom().contains(q) implies self.mem()[q]
            .bytes.len() == self.mem()[q].kind.size && self.mem()[q].kind.wf() && 0 < q && q
            + self.mem()[q].kind.size <= usize::MAX by {
            if self.arena_mem().dom().contains(q) {
                self.lemma_arena_dom(q);
                self.fallback.lemma_mem_wf();
            } else {
                self.fallback.lemma_mem_wf();
            }
        }
    }

    fn allocate(&mut self, kind: Kind) -> (p: Address)
        ensures
            arena_fits(old(self)@, kind.size as int, kind.align as int) ==> final(self)@
                == arena_alloc_step(old(self)@, kind.size as int, kind.align as int) && p
                as int == old(self).spec_base() + old(self)@.cursor,
            !arena_fits(old(self)@, kind.size as int, kind.align as int) ==> final(self)@
                == old(self)@,
            final(self).spec_base() == old(self).spec_base(),
    {
        proof {
            lemma_entry_total(kind.size as int);
        }
        if kind.align() <= MIN_ALIGN as usize && kind.size() <= self.len {
            let total = ((kind.size() + 4) / 16 + 1) * 16;
            if self.cursor + total < self.len {
                proof {
                    assert(total == entry_total(kind.size as int));
                    lemma_pow2_positive(kind.align as int);
                    self.fallback.lemma_mem_wf();
                }
                let ghost m0 = self@;
                let ghost old_self = *self;
                let data = crate::allocator::zero_bytes(kind.size());
                let e = Entry { offset: self.cursor, header: total as i32, kind, data };
                let p = self.base + self.cursor;
                self.entries.push(e);
                self.cursor = self.cursor + total;
                proof {
                    let n = self.entries.len() as int - 1;
                    assert(self@.entries =~= m0.entries.push(self@.entries[n]));
                    assert(self@.entries[n] == arena_alloc_step(
                        m0,
                        kind.size as int,
                        kind.align as int,
                    ).entries[n]);
                    assert(self@ == arena_alloc_step(m0, kind.size as int, kind.align as int));
                    lemma_add_mod_noop(m0.cursor, total as int, 16);
                    if m0.entries.len() > 0 {
                        assert(entry_wf(m0.entries[m0.entries.len() - 1]));
                    }
                    // shape: the new entry continues the tiling at the cursor
                    assert(arena_wf(self@));
                    // the new address is fresh and its range is free
                    assert(!old_self.arena_mem().dom().contains(p as int)) by {
                        if old_self.arena_mem().dom().contains(p as int) {
                            old_self.lemma_arena_dom(p as int);
                        }
                    }
                    assert(!old_self.fallback.mem().dom().contains(p as int) || p as int
                        == old_self.base as int) by {
                        if old_self.fallback.mem().dom().contains(p as int) && p as int
                            != old_self.base as int {
                            old_self.lemma_delegated(p as int);
                        }
                    }
                    assert(p as int % kind.align as int == 0) by {
                        lemma_granule_aligned(p as int, kind.align as int);
                    }
                    // the model gained exactly the new block
                    assert forall|a: int| #[trigger] self.arena_mem().dom().contains(a) implies
                        old_self.arena_mem().dom().contains(a) || a == p as int by {
                        let i = choose|i: int|
                            0 <= i < self.entries.len() && (#[trigger] self.entries[i]).header
                                > 0 && self.base + self.entries[i].offset == a;
                        if i < n {
                            old_self.lemma_arena_at(i);
                        }
                    }
                    assert forall|a: int| #[trigger] old_self.arena_mem().dom().contains(a)
                        implies self.arena_mem().dom().contains(a) by {
                        old_self.lemma_arena_dom(a);
                        let i = choose|i: int|
                            0 <= i < old_self.entries.len() && (#[trigger] old_self.entries[i]).header > 0 && old_self.base + old_self.entries[i].offset == a;
                        assert(self.entries[i].header > 0 && self.base + self.entries[i].offset
                            == a);
                    }
                    assert(self.arena_mem().dom().contains(p as int)) by {
                        self.lemma_arena_at(n);
                    }
                    assert forall|q: int| #[trigger] old_self.model_mem().dom().contains(q)
                        implies self.model_mem()[q] == old_self.model_mem()[q] by {
                        if old_self.arena_mem().dom().contains(q) {
                            old_self.lemma_arena_dom(q);
                            let i = choose|i: int|
                                0 <= i < old_self.entries.len() && (#[trigger] old_self.entries[i]).header > 0 && old_self.base + old_self.entries[i].offset
                                    == q;
                            old_self.lemma_arena_at(i);
                            self.lemma_arena_at(i);
                        }
                    }
                    assert(self.model_mem().dom() =~= old_self.model_mem().dom().insert(
                        p as int,
                    ));
                    self.lemma_arena_at(n);
                    assert forall|q: int| #[trigger] old_self.model_mem().dom().contains(q)
                        implies ranges_disjoint(
                        q,
                        old_self.model_mem()[q].kind.size as int,
                        p as int,
                        kind.size as int,
                    ) by {
                        if old_self.arena_mem().dom().contains(q) {
                            old_self.lemma_arena_dom(q);
                        } else {
                            old_self.lemma_delegated(q);
                            old_self.fallback.lemma_mem_wf();
                        }
                    }
                    assert(alloc_transition(
                        old_self.model_mem(),
                        self.model_mem(),
                        p,
                        kind,
                    ));
                }
                return p;
            }
        }
        proof {
            lemma_entry_total(kind.size as int);
            assert(!arena_fits(self@, kind.size as int, kind.align as int));
        }
        let ghost old_self = *self;
        let p = self.fallback.allocate(kind);
        proof {
            assert(self@ == old_self@);
            if p != 0 {
                assert(p as int != old_self.base as int);
                // fresh from the fallback: outside the arena and every
                // delegated block, so fresh for the combined model too
                assert(ranges_disjoint(
                    old_self.base as int,
                    old_self.len as int,
                    p as int,
                    kind.size as int,
                ));
                assert(!old_self.arena_mem().dom().contains(p as int)) by {
                    if old_self.arena_mem().dom().contains(p as int) {
                        old_self.lemma_arena_dom(p as int);
                    }
                }
                assert(self.arena_mem() =~= old_self.arena_mem());
                assert forall|a: int| #[trigger] self.model_mem().dom().contains(a) <==> (
                    old_self.model_mem().dom().contains(a) || a == p as int) by {}
                assert(self.model_mem().dom() =~= old_self.model_mem().dom().insert(p as int));
                assert forall|q: int| #[trigger] old_self.model_mem().dom().contains(q) implies
                    self.model_mem()[q] == old_self.model_mem()[q] by {}
                assert forall|q: int| #[trigger] old_self.model_mem().dom().contains(q) implies
                    ranges_disjoint(
                    q,
                    old_self.model_mem()[q].kind.size as int,
                    p as int,
                    kind.size as int,
                ) by {
                    if old_self.arena_mem().dom().contains(q) {
                        old_self.lemma_arena_dom(q);
                        assert(ranges_disjoint(
                            old_self.base as int,
                            old_self.len as int,
                            p as int,
                            kind.size as int,
                        ));
                    }
                }
                assert(alloc_transition(old_self.model_mem(), self.model_mem(), p, kind));
            } else {
                assert(self.arena_mem() =~= old_self.arena_mem());
                assert(self.model_mem() =~= old_self.model_mem());
            }
        }
        p
    }

    fn deallocate(&mut self, ptr: Address, kind: Kind)
        ensures
            kind.align <= MIN_ALIGN as usize && old(self).spec_base() <= ptr && (ptr as int)
                < old(self).spec_base() + old(self)@.len ==> final(self)@
                == arena_dealloc_step(
                old(self)@,
                live_index(old(self)@, ptr as int - old(self).spec_base() as int),
            ),
            !(kind.align <= MIN_ALIGN as usize && old(self).spec_base() <= ptr && (ptr as int)
                < old(self).spec_base() + old(self)@.len) ==> final(self)@ == old(self)@,
            final(self).spec_base() == old(self).spec_base(),
    {
        let ghost m0 = self@;
        let ghost old_self = *self;
        if kind.align() <= MIN_ALIGN as usize && ptr >= self.base && ptr - self.base
            < self.len {
            let offset = ptr - self.base;
            proof {
                // the address must be an arena entry: delegated blocks lie
                // outside the backing block's range
                if !self.arena_mem().dom().contains(ptr as int) {
                    self.lemma_delegated(ptr as int);
                }
                self.lemma_arena_dom(ptr as int);
            }
            let ghost i0 = choose|i: int|
                0 <= i < old_self.entries.len() && (#[trigger] old_self.entries[i]).header > 0
                    && old_self.base + old_self.entries[i].offset == ptr as int;
            proof {
                old_self.lemma_arena_at(i0);
                assert(live_index(m0, offset as int) == i0) by {
                    assert(m0.entries[i0].live && m0.entries[i0].offset == offset as int);
                    let i1 = live_index(m0, offset as int);
                    if i1 != i0 {
                        if i1 < i0 {
                            lemma_arena_chain(m0, i1, i0);
                        } else {
                            lemma_arena_chain(m0, i0, i1);
                        }
                    }
                }
                assert(entry_wf(m0.entries[i0]));
                lemma_arena_end(m0, i0);
                lemma_entry_total(kind.size as int);
            }
            let mut idx: usize = 0;
            while !(self.entries[idx].header > 0 && self.entries[idx].offset == offset)
                invariant
                    *self == old_self,
                    0 <= idx < self.entries.len(),
                    forall|j: int|
                        0 <= j < idx ==> !((#[trigger] self.entries[j]).header > 0
                            && self.entries[j].offset == offset),
                    exists|i: int|
                        0 <= i < self.entries.len() && (#[trigger] self.entries[i]).header > 0
                            && self.entries[i].offset == offset,
                decreases self.entries.len() - idx,
            {
                idx = idx + 1;
                proof {
                    let w = choose|i: int|
                        0 <= i < self.entries.len() && (#[trigger] self.entries[i]).header > 0
                            && self.entries[i].offset == offset;
                    assert(idx <= w);
                }
            }
            proof {
                if idx as int != i0 {
                    if (idx as int) < i0 {
                        lemma_arena_chain(m0, idx as int, i0);
                    } else {
                        lemma_arena_chain(m0, i0, idx as int);
                    }
                }
                assert(idx as int == i0);
                assert(self.entries[idx as int].kind == kind);
            }
            let total = ((kind.size() + 4) / 16 + 1) * 16;
            // defensive check: the size recomputed from the kind must
            // match the stored header, here once and for all
            assert(total as i32 == self.entries[idx as int].header);
            let next = offset + total;
            if next != self.cursor {
                let e = &mut self.entries[idx];
                e.header = -(total as i32);
                e.data = Vec::new();
                proof {
                    assert(self@.entries =~= m0.entries.update(
                        i0,
                        arena_dealloc_step(m0, i0).entries[i0],
                    ));
                    assert(self@ == arena_dealloc_step(m0, i0));
                    assert(arena_wf(self@));
                    // the freed entry leaves the client view; nothing else moves
                    assert forall|a: int| #[trigger] self.arena_mem().dom().contains(a) implies
                        old_self.arena_mem().dom().contains(a) && a != ptr as int by {
                        let i = choose|i: int|
                            0 <= i < self.entries.len() && (#[trigger] self.entries[i]).header
                                > 0 && self.base + self.entries[i].offset == a;
                        assert(i != i0);
                        assert(old_self.entries[i].header > 0 && old_self.base
                            + old_self.entries[i].offset == a);
                        old_self.lemma_arena_at(i);
                        if a == ptr as int {
                            if i < i0 {
                                lemma_arena_chain(m0, i, i0);
                            } else {
                                lemma_arena_chain(m0, i0, i);
                            }
                        }
                    }
                    assert forall|a: int|
                        #[trigger] old_self.arena_mem().dom().contains(a) && a != ptr as int
                        implies self.arena_mem().dom().contains(a) && self.arena_mem()[a]
                        == old_self.arena_mem()[a] by {
                        old_self.lemma_arena_dom(a);
                        let i = choose|i: int|
                            0 <= i < old_self.entries.len() && (#[trigger] old_self.entries[i]).header > 0 && old_self.base + old_self.entries[i].offset == a;
                        if i == i0 {
                            assert(a == ptr as int);
                        }
                        assert(self.entries[i].header > 0 && self.base
                            + self.entries[i].offset == a);
                        old_self.lemma_arena_at(i);
                        self.lemma_arena_at(i);
                    }
                    assert(!old_self.fallback.mem().remove(
                        old_self.base as int,
                    ).dom().contains(ptr as int)) by {
                        if old_self.fallback.mem().dom().contains(ptr as int) && ptr as int
                            != old_self.base as int {
                            old_self.lemma_delegated(ptr as int);
                        }
                    }
                    assert(self.model_mem().dom() =~= old_self.model_mem().dom().remove(
                        ptr as int,
                    ));
                    assert(self.model_mem() =~= old_self.model_mem().remove(ptr as int));
                }
            } else {
                proof {
                    // the entry ending at the cursor is the rightmost one
                    if (i0 as int) < m0.entries.len() - 1 {
                        lemma_arena_chain(m0, i0, m0.entries.len() - 1);
                        assert(entry_wf(m0.entries[m0.entries.len() - 1]));
                        assert(false);
                    }
                }
                let ghost entries0 = old_self.entries@;
                self.entries.pop();
                proof {
                    assert(self.entries@ =~= entries0.subrange(0, entries0.len() - 1));
                }
                while self.entries.len() > 0 && self.entries[self.entries.len() - 1].header < 0
                    invariant
                        self.fallback == old_self.fallback,
                        self.base == old_self.base,
                        self.len == old_self.len,
                        self.cursor == old_self.cursor,
                        self.entries.len() <= i0,
                        0 <= i0 < entries0.len(),
                        entries0 == old_self.entries@,
                        self.entries@ =~= entries0.subrange(0, self.entries.len() as int),
                        forall|j: int|
                            self.entries.len() <= j < i0 ==> (#[trigger] entries0[j]).header
                                < 0,
                    decreases self.entries.len(),
                {
                    proof {
                        let k = self.entries.len() as int;
                        assert(self.entries@[k - 1] == entries0[k - 1]);
                    }
                    self.entries.pop();
                    proof {
                        assert(self.entries@ =~= entries0.subrange(
                            0,
                            self.entries.len() as int,
                        ));
                    }
                }
                let new_cursor = if self.entries.len() == 0 {
                    0
                } else {
                    let last = self.entries.len() - 1;
                    proof {
                        assert(self.entries@[last as int] == entries0[last as int]);
                        assert(old_self.entries[last as int].wf());
                        assert(m0.entries[last as int] == old_self.entries[
                            last as int].model());
                        assert(entry_wf(m0.entries[last as int]));
                        lemma_arena_end(m0, last as int);
                    }
                    self.entries[last].offset + (self.entries[last].header as usize)
                };
                self.cursor = new_cursor;
                proof {
                    let k = self.entries.len() as int;
                    assert forall|j: int| k <= j < i0 implies !(#[trigger] m0.entries[j]).live
                        by {
                        assert(entries0[j].header < 0);
                        assert(m0.entries[j] == old_self.entries[j].model());
                    }
                    assert(self@.entries =~= m0.entries.subrange(0, k));
                    if k > 0 {
                        assert(old_self.entries[k - 1].wf());
                        assert(m0.entries[k - 1] == old_self.entries[k - 1].model());
                    }
                    lemma_llb_skip(m0.entries, k, i0 as int);
                    let j = last_live_before(m0.entries, i0 as int);
                    if k == 0 {
                        assert(j == -1);
                        assert(self@.entries =~= Seq::<ArenaEntry>::empty());
                    } else {
                        assert(m0.entries[k - 1].live);
                        assert(j == k - 1);
                        assert(self@.entries =~= m0.entries.subrange(0, j + 1));
                        assert(self@.cursor == entry_end(m0.entries[j]));
                    }
                    assert(self@ == arena_dealloc_step(m0, i0));
                    assert forall|ii: int| 0 <= ii < k implies entry_wf(
                        #[trigger] self@.entries[ii],
                    ) by {
                        assert(entry_wf(m0.entries[ii]));
                    }
                    if k > 0 {
                        lemma_arena_end(m0, k - 1);
                    }
                    assert(arena_wf(self@));
                    // every popped entry but the freed one was already out
                    // of the client view
                    assert forall|a: int| #[trigger] self.arena_mem().dom().contains(a) implies
                        old_self.arena_mem().dom().contains(a) && a != ptr as int by {
                        let i = choose|i: int|
                            0 <= i < self.entries.len() && (#[trigger] self.entries[i]).header
                                > 0 && self.base + self.entries[i].offset == a;
                        assert(old_self.entries[i].header > 0 && old_self.base
                            + old_self.entries[i].offset == a);
                        old_self.lemma_arena_at(i);
                        if a == ptr as int {
                            lemma_arena_chain(m0, i, i0 as int);
                        }
                    }
                    assert forall|a: int|
                        #[trigger] old_self.arena_mem().dom().contains(a) && a != ptr as int
                        implies self.arena_mem().dom().contains(a) && self.arena_mem()[a]
                        == old_self.arena_mem()[a] by {
                        old_self.lemma_arena_dom(a);
                        let i = choose|i: int|
                            0 <= i < old_self.entries.len() && (#[trigger] old_self.entries[i]).header > 0 && old_self.base + old_self.entries[i].offset == a;
                        if i == i0 {
                            assert(a == ptr as int);
                        }
                        assert(i != i0);
                        if i > i0 {
                            lemma_arena_chain(m0, i0 as int, i);
                            assert(entry_end(m0.entries[i]) <= m0.cursor) by {
                                lemma_arena_end(m0, i);
                            }
                            assert(false);
                        }
                        if self.entries.len() <= i < i0 {
                            assert(!m0.entries[i].live);
                            assert(false);
                        }
                        assert(self.entries[i].header > 0 && self.base
                            + self.entries[i].offset == a);
                        old_self.lemma_arena_at(i);
                        self.lemma_arena_at(i);
                    }
                    assert(!old_self.fallback.mem().remove(
                        old_self.base as int,
                    ).dom().contains(ptr as int)) by {
                        if old_self.fallback.mem().dom().contains(ptr as int) && ptr as int
                            != old_self.base as int {
                            old_self.lemma_delegated(ptr as int);
                        }
                    }
                    assert(self.model_mem().dom() =~= old_self.model_mem().dom().remove(
                        ptr as int,
                    ));
                    assert(self.model_mem() =~= old_self.model_mem().remove(ptr as int));
                }
            }
        } else {
            proof {
                // the address cannot be an arena entry: live entries have
                // small alignment and lie inside the backing block
                if self.arena_mem().dom().contains(ptr as int) {
                    self.lemma_arena_dom(ptr as int);
                    assert(false);
                }
            }
            self.fallback.deallocate(ptr, kind);
            proof {
                assert(self@ == old_self@);
                assert(self.arena_mem() =~= old_self.arena_mem());
                assert(self.model_mem() =~= old_self.model_mem().remove(ptr as int));
            }
        }
    }

    fn read_byte(&self, ptr: Address, i: usize) -> (b: u8)
    {
        if ptr >= self.base && ptr - self.base < self.len {
            proof {
                if !self.arena_mem().dom().contains(ptr as int) {
                    self.lemma_delegated(ptr as int);
                }
                self.lemma_arena_dom(ptr as int);
            }
            let offset = ptr - self.base;
            let mut idx: usize = 0;
            while !(self.entries[idx].header > 0 && self.entries[idx].offset == offset)
                invariant
                    self.inv(),
                    self.arena_mem().dom().contains(ptr as int),
                    offset == ptr - self.base,
                    i < self.arena_mem()[ptr as int].bytes.len(),
                    self.mem()[ptr as int] == self.arena_mem()[ptr as int],
                    0 <= idx < self.entries.len(),
                    forall|j: int|
                        0 <= j < idx ==> !((#[trigger] self.entries[j]).header > 0
                            && self.entries[j].offset == offset),
                    exists|k: int|
                        0 <= k < self.entries.len() && (#[trigger] self.entries[k]).header > 0
                            && self.entries[k].offset == offset,
                decreases self.entries.len() - idx,
            {
                idx = idx + 1;
                proof {
                    let w = choose|k: int|
                        0 <= k < self.entries.len() && (#[trigger] self.entries[k]).header > 0
                            && self.entries[k].offset == offset;
                    assert(idx <= w);
                }
            }
            proof {
                self.lemma_arena_at(idx as int);
                let w = choose|k: int|
                    0 <= k < self.entries.len() && (#[trigger] self.entries[k]).header > 0
                        && self.base + self.entries[k].offset == ptr as int;
                if w != idx as int {
                    if w < idx as int {
                        lemma_arena_chain(self@, w, idx as int);
                    } else {
                        lemma_arena_chain(self@, idx as int, w);
                    }
                }
            }
            self.entries[idx].data[i]
        } else {
            proof {
                if self.arena_mem().dom().contains(ptr as int) {
                    self.lemma_arena_dom(ptr as int);
                    assert(false);
                }
            }
            self.fallback.read_byte(ptr, i)
        }
    }

    fn write_byte(&mut self, ptr: Address, i: usize, b: u8)
        ensures
            final(self)@ == old(self)@,
            final(self).spec_base() == old(self).spec_base(),
    {
        let ghost old_self = *self;
        if ptr >= self.base && ptr - self.base < self.len {
            proof {
                if !self.arena_mem().dom().contains(ptr as int) {
                    self.lemma_delegated(ptr as int);
                }
                self.lemma_arena_dom(ptr as int);
            }
            let offset = ptr - self.base;
            let mut idx: usize = 0;
            while !(self.entries[idx].header > 0 && self.entries[idx].offset == offset)
                invariant
                    *self == old_self,
                    self.inv(),
                    self.arena_mem().dom().contains(ptr as int),
                    offset == ptr - self.base,
                    i < self.arena_mem()[ptr as int].bytes.len(),
                    0 <= idx < self.entries.len(),
                    forall|j: int|
                        0 <= j < idx ==> !((#[trigger] self.entries[j]).header > 0
                            && self.entries[j].offset == offset),
                    exists|k: int|
                        0 <= k < self.entries.len() && (#[trigger] self.entries[k]).header > 0
                            && self.entries[k].offset == offset,
                decreases self.entries.len() - idx,
            {
                idx = idx + 1;
                proof {
                    let w = choose|k: int|
                        0 <= k < self.entries.len() && (#[trigger] self.entries[k]).header > 0
                            && self.entries[k].offset == offset;
                    assert(idx <= w);
                }
            }
            let ghost k0 = idx as int;
            proof {
                old_self.lemma_arena_at(k0);
                let w = choose|k: int|
                    0 <= k < old_self.entries.len() && (#[trigger] old_self.entries[k]).header
                        > 0 && old_self.base + old_self.entries[k].offset == ptr as int;
                if w != k0 {
                    if w < k0 {
                        lemma_arena_chain(old_self@, w, k0);
                    } else {
                        lemma_arena_chain(old_self@, k0, w);
                    }
                }
            }
            let e = &mut self.entries[idx];
            e.data.set(i, b);
            proof {
                assert(self@.entries =~= old_self@.entries);
                assert(self@ == old_self@);
                assert forall|a: int| #[trigger] self.arena_mem().dom().contains(a) <==>
                    old_self.arena_mem().dom().contains(a) by {
                    if self.arena_mem().dom().contains(a) {
                        let ii = choose|ii: int|
                            0 <= ii < self.entries.len() && (#[trigger] self.entries[ii]).header > 0 && self.base + self.entries[ii].offset == a;
                        assert(old_self.entries[ii].header > 0 && old_self.base
                            + old_self.entries[ii].offset == a);
                        old_self.lemma_arena_at(ii);
                    }
                    if old_self.arena_mem().dom().contains(a) {
                        let ii = choose|ii: int|
                            0 <= ii < old_self.entries.len() && (#[trigger] old_self.entries[ii]).header > 0 && old_self.base + old_self.entries[ii].offset == a;
                        assert(self.entries[ii].header > 0 && self.base
                            + self.entries[ii].offset == a);
                        self.lemma_arena_at(ii);
                    }
                }
                self.lemma_arena_at(k0);
                assert forall|q: int|
                    #[trigger] old_self.model_mem().dom().contains(q) && q != ptr as int
                    implies self.model_mem()[q] == old_self.model_mem()[q] by {
                    if old_self.arena_mem().dom().contains(q) {
                        old_self.lemma_arena_dom(q);
                        let ii = choose|ii: int|
                            0 <= ii < old_self.entries.len() && (#[trigger] old_self.entries[ii]).header > 0 && old_self.base + old_self.entries[ii].offset == q;
                        old_self.lemma_arena_at(ii);
                        if ii == k0 {
                            assert(q == ptr as int);
                        }
                        assert(self.entries[ii].header > 0 && self.base
                            + self.entries[ii].offset == q);
                        self.lemma_arena_at(ii);
                    }
                }
                assert(self.model_mem().dom() =~= old_self.model_mem().dom());
                assert(self.model_mem() =~~= old_self.model_mem().insert(
                    ptr as int,
                    (MemBlock {
                        kind: old_self.model_mem()[ptr as int].kind,
                        bytes: old_self.model_mem()[ptr as int].bytes.update(i as int, b),
                    }),
                ));
            }
        } else {
            proof {
                if self.arena_mem().dom().contains(ptr as int) {
                    self.lemma_arena_dom(ptr as int);
                    assert(false);
                }
            }
            self.fallback.write_byte(ptr, i, b);
            proof {
                assert(self@ == old_self@);
                assert(self.arena_mem() =~= old_self.arena_mem());
                assert(self.model_mem() =~~= old_self.model_mem().insert(
                    ptr as int,
                    (MemBlock {
                        kind: old_self.model_mem()[ptr as int].kind,
                        bytes: old_self.model_mem()[ptr as int].bytes.update(i as int, b),
                    }),
                ));
            }
        }
    }
}

/// The index of the live arena entry whose value starts at offset `o`.
pub open spec fn live_index(m: ArenaModel, o: int) -> int {
    choose|i: int| 0 <= i < m.entries.len() && m.entries[i].live && m.entries[i].offset == o
}

} // verus!

verus! {

/// Stack-like teardown: build three entries in order in a fresh arena and
/// free them newest first. Each free rolls the cursor back exactly to the
/// start of the entry just freed, and the last one returns it to the
/// block start.
pub proof fn lemma_bump_lifo(
    m: ArenaModel,
    sx: int,
    ax: int,
    sy: int,
    ay: int,
    sz: int,
    az: int,
)
    requires
        m.entries.len() == 0,
        m.cursor == 0,
        0 <= sx && 0 <= sy && 0 <= sz,
    ensures
        ({
            let m1 = arena_alloc_step(m, sx, ax);
            let m2 = arena_alloc_step(m1, sy, ay);
            let m3 = arena_alloc_step(m2, sz, az);
            let m4 = arena_dealloc_step(m3, 2);
            let m5 = arena_dealloc_step(m4, 1);
            let m6 = arena_dealloc_step(m5, 0);
            &&& m4.cursor == m3.entries[2].offset
            &&& m5.cursor == m4.entries[1].offset
            &&& m6.cursor == 0
        }),
{
    let m1 = arena_alloc_step(m, sx, ax);
    let m2 = arena_alloc_step(m1, sy, ay);
    let m3 = arena_alloc_step(m2, sz, az);
    lemma_entry_total(sx);
    lemma_entry_total(sy);
    lemma_entry_total(sz);
    let m4 = arena_dealloc_step(m3, 2);
    assert(m4.entries =~= m3.entries.subrange(0, 2));
    let m5 = arena_dealloc_step(m4, 1);
    assert(m5.entries =~= m4.entries.subrange(0, 1));
    let m6 = arena_dealloc_step(m5, 0);
}

/// Freeing a middle entry reclaims nothing: the cursor stands still, and a
/// fresh request of the freed entry's exact size is placed at the cursor,
/// past the still-live later entry, never in the freed slot.
pub proof fn lemma_bump_non_lifo(
    m: ArenaModel,
    sx: int,
    ax: int,
    sy: int,
    ay: int,
    sz: int,
    az: int,
)
    requires
        m.entries.len() == 0,
        m.cursor == 0,
        0 <= sx && 0 <= sy && 0 <= sz,
    ensures
        ({
            let m3 = arena_alloc_step(
                arena_alloc_step(arena_alloc_step(m, sx, ax), sy, ay),
                sz,
                az,
            );
            let m4 = arena_dealloc_step(m3, 1);
            let m5 = arena_alloc_step(m4, sy, ay);
            &&& m4.cursor == m3.cursor
            &&& m5.entries[m5.entries.len() - 1].offset != m3.entries[1].offset
        }),
{
    let m1 = arena_alloc_step(m, sx, ax);
    let m2 = arena_alloc_step(m1, sy, ay);
    let m3 = arena_alloc_step(m2, sz, az);
    lemma_entry_total(sx);
    lemma_entry_total(sy);
    lemma_entry_total(sz);
    assert(entry_end(m3.entries[1]) != m3.cursor);
}

} // verus!
