//! Power-of-two buddy allocator.
//!
//! A buddy allocator manages memory in blocks of `64 * 2^order` bytes. Every request is
//! rounded up to the nearest such size and served from a block of exactly that size;
//! a freed block merges with its equally sized neighbour (its buddy) whenever that
//! neighbour is free too.
//!
//! The free blocks of each order form an intrusive doubly linked list whose links live
//! in the free blocks themselves: the first word of a free block holds the next block,
//! the word after it a tag naming its order, and the one after that the previous
//! block. The header words are not stored in the blocks themselves: they are kept in
//! a map inside the allocator (`memory`), keyed by address, and a word that the
//! allocator never wrote reads as zero. Because that map allocates, the allocator
//! cannot serve as the program's own heap: a program keeps its global allocator and
//! uses this one for the region it is handed. Data written into a block handed out
//! never reaches the map, so it cannot be taken for a header tag.
use vstd::prelude::*;

mod arith;
mod region;

verus! {

use vstd::hash_map::HashMapWithView;
pub use self::arith::block_bytes;
pub use self::region::{
    in_block,
    block_range,
    apart,
    apart_from_all,
    blocks_disjoint,
    covers,
    region,
    total_bytes,
    lemma_apart_from_all_region,
};
use self::arith::{
    lemma_block_bytes,
    lemma_block_bytes_grow,
    lemma_split_aligned,
    lemma_merge_aligned,
    lemma_buddy_offset,
};
use self::region::{lemma_region_size, lemma_region_push, lemma_region_remove};

/// Number of order buckets the allocator keeps free lists for.
pub const NUM_ORDERS: usize = 32;

/// Smallest block the allocator ever hands out.
pub const MIN_BLOCK_SIZE: usize = 64;

/// Marker written into a free block, combined with its order.
pub const FREE_MAGIC: usize = 0xF4EE_B10C;

/// The tag word that marks a free block of the given order.
pub open spec fn tag_of(order: int) -> usize {
    FREE_MAGIC ^ (order as usize)
}

/// The first block of a list, or zero when it is empty.
pub open spec fn head_of(s: Seq<usize>) -> usize {
    if s.len() == 0 {
        0
    } else {
        s[0]
    }
}

/// The block after position `i` of a list, or zero at its end.
pub open spec fn next_in(s: Seq<usize>, i: int) -> usize {
    if i + 1 < s.len() {
        s[i + 1]
    } else {
        0
    }
}

/// The block before position `i` of a list, or zero at its start.
pub open spec fn prev_in(s: Seq<usize>, i: int) -> usize {
    if i > 0 {
        s[i - 1]
    } else {
        0
    }
}

proof fn lemma_tags_distinct()
    ensures
        forall|o: int| 0 <= o < 32 ==> #[trigger] tag_of(o) != 0,
        forall|o1: int, o2: int|
            0 <= o1 < 32 && 0 <= o2 < 32 && o1 != o2 ==> #[trigger] tag_of(o1) != #[trigger] tag_of(
                o2,
            ),
{
    assert forall|o: int| 0 <= o < 32 implies #[trigger] tag_of(o) != 0 by {
        let u = o as usize;
        assert(u < 32 ==> 0xF4EE_B10Cusize ^ u != 0) by (bit_vector);
    }
    assert forall|o1: int, o2: int| 0 <= o1 < 32 && 0 <= o2 < 32 && o1 != o2 implies #[trigger] tag_of(
        o1,
    ) != #[trigger] tag_of(o2) by {
        let u1 = o1 as usize;
        let u2 = o2 as usize;
        assert(u1 < 32 && u2 < 32 && u1 != u2 ==> 0xF4EE_B10Cusize ^ u1 != 0xF4EE_B10Cusize ^ u2)
            by (bit_vector);
    }
}

proof fn lemma_block_bytes_min()
    ensures
        forall|o: nat| #[trigger] block_bytes(o) >= 64 && block_bytes(o) % 64 == 0,
{
    assert forall|o: nat| #[trigger] block_bytes(o) >= 64 && block_bytes(o) % 64 == 0 by {
        lemma_block_bytes(o);
    }
}

/// The number of bytes a request needs: its size, but no less than its alignment and
/// no less than the smallest block.
pub open spec fn needed_bytes(size: nat, align: nat) -> nat {
    let m = if size >= align {
        size
    } else {
        align
    };
    if m >= 64 {
        m
    } else {
        64
    }
}

/// The smallest order from `from` up to `top` whose blocks hold `needed` bytes.
pub open spec fn fitting_order(needed: nat, from: nat, top: nat) -> Option<nat>
    decreases top + 1 - from,
{
    if from > top {
        None
    } else if block_bytes(from) >= needed {
        Some(from)
    } else {
        fitting_order(needed, from + 1, top)
    }
}

/// The smallest order from `from` up to `top` whose free list is not empty.
pub open spec fn first_nonempty(lists: Seq<Seq<usize>>, from: nat, top: nat) -> Option<nat>
    decreases top + 1 - from,
{
    if from > top {
        None
    } else if lists[from as int].len() > 0 {
        Some(from)
    } else {
        first_nonempty(lists, from + 1, top)
    }
}

/// The free lists once `addr` has gone to the head of the list of `order`.
pub open spec fn pushed(lists: Seq<Seq<usize>>, order: int, addr: usize) -> Seq<Seq<usize>> {
    lists.update(order, seq![addr] + lists[order])
}

/// The block at the head of the list of `order`, if there is one.
pub open spec fn list_head(lists: Seq<Seq<usize>>, order: int) -> Option<usize> {
    if lists[order].len() == 0 {
        None
    } else {
        Some(lists[order][0])
    }
}

/// The free lists once the head of the list of `order`, if there is one, has left it.
pub open spec fn popped(lists: Seq<Seq<usize>>, order: int) -> Seq<Seq<usize>> {
    if lists[order].len() == 0 {
        lists
    } else {
        lists.update(order, lists[order].remove(0))
    }
}

/// Taking the head of a list gives back the block put there last and leaves the
/// lists as they were before it was put there; a list without a block gives
/// nothing and stays as it is.
pub proof fn lemma_pop_undoes_push(lists: Seq<Seq<usize>>, order: int, addr: usize)
    requires
        0 <= order < lists.len(),
    ensures
        list_head(pushed(lists, order, addr), order) == Some(addr),
        popped(pushed(lists, order, addr), order) == lists,
        list_head(lists, order) is None <==> lists[order].len() == 0,
        list_head(lists, order) is None ==> popped(lists, order) == lists,
{
    let p = pushed(lists, order, addr);
    assert(p[order].remove(0) =~= lists[order]);
    assert(popped(p, order) =~= lists);
}

/// The address of the buddy of the block of `order` at `addr`, in a heap starting at
/// `start`: the neighbouring block of the same size that it merges with.
pub open spec fn buddy_addr(start: int, addr: int, order: nat) -> int {
    let size = block_bytes(order) as int;
    if ((addr - start) / size) % 2 == 0 {
        addr + size
    } else {
        addr - size
    }
}

/// No listed block below order `top` has its buddy listed at the same order: freed
/// blocks have merged with their free buddies as far as they can.
pub open spec fn coalesced(lists: Seq<Seq<usize>>, start: int, top: nat) -> bool {
    forall|o: int, i: int|
        0 <= o < top && 0 <= i < lists[o].len() ==> !lists[o].contains(
            buddy_addr(start, #[trigger] lists[o][i] as int, o as nat) as usize,
        )
}

/// Every block listed at order `o` is aligned to its size from `start`.
pub open spec fn aligned_list(lists: Seq<Seq<usize>>, start: int, o: int) -> bool {
    forall|i: int|
        0 <= i < lists[o].len() ==> #[trigger] lists[o][i] >= start && (lists[o][i] - start) % (
        block_bytes(o as nat) as int) == 0 && lists[o][i] + block_bytes(o as nat) <= usize::MAX
}

/// The buddy of an aligned block is aligned and one block away, its buddy is the
/// block itself, and the lower of the two is aligned to the block of the next order.
pub proof fn lemma_buddy_pair(start: int, a: int, o: nat)
    requires
        a >= start,
        (a - start) % (block_bytes(o) as int) == 0,
    ensures
        buddy_addr(start, a, o) >= start,
        (buddy_addr(start, a, o) - start) % (block_bytes(o) as int) == 0,
        buddy_addr(start, buddy_addr(start, a, o), o) == a,
        buddy_addr(start, a, o) == a + block_bytes(o) || buddy_addr(start, a, o) == a - block_bytes(o),
        ({
            let b = buddy_addr(start, a, o);
            let low = if b < a {
                b
            } else {
                a
            };
            (low - start) % (block_bytes(o + 1) as int) == 0
        }),
{
    lemma_block_bytes(o);
    let s = block_bytes(o) as int;
    self::arith::lemma_buddy_parity(a - start, s);
    if ((a - start) / s) % 2 == 0 {
        self::arith::lemma_even_index_double_aligned(a - start, s);
    } else {
        self::arith::lemma_even_index_double_aligned(a - start - s, s);
    }
}

/// Taking a block off a list keeps the lists coalesced.
pub proof fn lemma_remove_coalesced(lists: Seq<Seq<usize>>, start: int, top: nat, p: int, k: int)
    requires
        coalesced(lists, start, top),
        top < lists.len(),
        0 <= p < lists.len(),
        0 <= k < lists[p].len(),
    ensures
        coalesced(lists.update(p, lists[p].remove(k)), start, top),
{
    let l2 = lists.update(p, lists[p].remove(k));
    assert forall|o: int, i: int|
        0 <= o < top && 0 <= i < l2[o].len() implies !l2[o].contains(
        buddy_addr(start, #[trigger] l2[o][i] as int, o as nat) as usize,
    ) by {
        let j = if o == p && i >= k { i + 1 } else { i };
        assert(l2[o][i] == lists[o][j]);
        let b = buddy_addr(start, lists[o][j] as int, o as nat) as usize;
        if l2[o].contains(b) {
            let m = choose|m: int| 0 <= m < l2[o].len() && l2[o][m] == b;
            let n = if o == p && m >= k { m + 1 } else { m };
            assert(lists[o][n] == b);
        }
    }
}

/// Prepending a block whose buddy is not listed at its order keeps the lists
/// coalesced.
pub proof fn lemma_push_coalesced(lists: Seq<Seq<usize>>, start: int, top: nat, p: int, y: usize)
    requires
        coalesced(lists, start, top),
        top < lists.len(),
        start >= 0,
        0 <= p < lists.len(),
        aligned_list(lists, start, p),
        y >= start,
        (y - start) % (block_bytes(p as nat) as int) == 0,
        buddy_addr(start, y as int, p as nat) <= usize::MAX,
        p < top ==> !lists[p].contains(buddy_addr(start, y as int, p as nat) as usize),
    ensures
        coalesced(lists.update(p, seq![y] + lists[p]), start, top),
{
    let l2 = lists.update(p, seq![y] + lists[p]);
    lemma_buddy_pair(start, y as int, p as nat);
    lemma_block_bytes(p as nat);
    assert forall|o: int, i: int|
        0 <= o < top && 0 <= i < l2[o].len() implies !l2[o].contains(
        buddy_addr(start, #[trigger] l2[o][i] as int, o as nat) as usize,
    ) by {
        if o == p {
            if i == 0 {
                if l2[o].contains(buddy_addr(start, y as int, p as nat) as usize) {
                    let m = choose|m: int|
                        0 <= m < l2[o].len() && l2[o][m] == buddy_addr(start, y as int, p as nat) as usize;
                    assert(m != 0);
                    assert(lists[p][m - 1] == buddy_addr(start, y as int, p as nat) as usize);
                }
            } else {
                let x = lists[p][i - 1];
                assert(l2[o][i] == x);
                assert(x >= start && (x - start) % (block_bytes(p as nat) as int) == 0);
                lemma_buddy_pair(start, x as int, p as nat);
                let b = buddy_addr(start, x as int, p as nat);
                if l2[o].contains(b as usize) {
                    let m = choose|m: int| 0 <= m < l2[o].len() && l2[o][m] == b as usize;
                    if m == 0 {
                        assert(b == y as int);
                        assert(x as int == buddy_addr(start, y as int, p as nat));
                        assert(lists[p].contains(x));
                    } else {
                        assert(lists[p][m - 1] == b as usize);
                    }
                }
            }
        } else {
            assert(l2[o] == lists[o]);
        }
    }
}

/// The free lists after splitting the head block of the list of order `found` down to
/// order `order`: each upper half goes to the head of the list of its order.
pub open spec fn split_lists(lists: Seq<Seq<usize>>, found: nat, order: nat) -> Seq<Seq<usize>> {
    let block = lists[found as int][0];
    Seq::new(
        lists.len(),
        |p: int|
            if p == found {
                lists[p].remove(0)
            } else if order <= p < found {
                seq![(block + block_bytes(p as nat)) as usize] + lists[p]
            } else {
                lists[p]
            },
    )
}

/// The free lists after freeing the block of `order` at `addr`: while its buddy is free
/// and the order is below `top`, the buddy leaves its list and the two merge into the
/// block of the next order; the final block goes to the head of its list.
pub open spec fn merged_lists(
    lists: Seq<Seq<usize>>,
    start: int,
    top: nat,
    addr: usize,
    order: nat,
) -> Seq<Seq<usize>>
    decreases top - order,
{
    if order < top && lists[order as int].contains(buddy_addr(start, addr as int, order) as usize) {
        let buddy = buddy_addr(start, addr as int, order) as usize;
        let rest = lists.update(
            order as int,
            lists[order as int].remove(lists[order as int].index_of(buddy)),
        );
        let low = if buddy < addr {
            buddy
        } else {
            addr
        };
        merged_lists(rest, start, top, low, order + 1)
    } else {
        lists.update(order as int, seq![addr] + lists[order as int])
    }
}

/// `fitting_order` finds the smallest fitting order.
pub proof fn lemma_fitting_order(needed: nat, from: nat, top: nat)
    ensures
        match fitting_order(needed, from, top) {
            Some(o) => from <= o <= top && block_bytes(o) >= needed && forall|p: nat|
                from <= p < o ==> #[trigger] block_bytes(p) < needed,
            None => forall|p: nat| from <= p <= top ==> #[trigger] block_bytes(p) < needed,
        },
    decreases top + 1 - from,
{
    if from <= top && block_bytes(from) < needed {
        lemma_fitting_order(needed, from + 1, top);
    }
}

/// `first_nonempty` finds the smallest order with a free block.
pub proof fn lemma_first_nonempty(lists: Seq<Seq<usize>>, from: nat, top: nat)
    ensures
        match first_nonempty(lists, from, top) {
            Some(o) => from <= o <= top && lists[o as int].len() > 0 && forall|p: nat|
                from <= p < o ==> #[trigger] lists[p as int].len() == 0,
            None => forall|p: nat| from <= p <= top ==> #[trigger] lists[p as int].len() == 0,
        },
    decreases top + 1 - from,
{
    if from <= top && lists[from as int].len() == 0 {
        lemma_first_nonempty(lists, from + 1, top);
    }
}

/// Size in bytes of a block of the given order.
fn block_size(order: usize) -> (size: usize)
    requires
        block_bytes(order as nat) <= usize::MAX,
    ensures
        size == block_bytes(order as nat),
{
    proof {
        lemma_block_bytes(order as nat);
        vstd::layout::unsigned_int_max_values();
        vstd::arithmetic::power2::lemma2_to64();
        if order >= usize::BITS {
            vstd::arithmetic::power2::lemma_pow2_strictly_increases(usize::BITS as nat, order as nat + 6);
            assert(false);
        }
        vstd::bits::lemma_usize_shl_is_mul(64, order);
    }
    MIN_BLOCK_SIZE << order
}

/// Bytes in a machine word.
pub open spec fn word_size() -> int {
    vstd::layout::size_of::<usize>() as int
}

proof fn lemma_word_size()
    ensures
        word_size() == 4 || word_size() == 8,
{
    broadcast use vstd::layout::layout_of_primitives;

    assert(vstd::layout::size_of::<usize>() * 8 == usize::BITS);
}

fn word_bytes() -> (w: usize)
    ensures
        w == word_size(),
{
    proof {
        lemma_word_size();
    }
    core::mem::size_of::<usize>()
}

/// The allocator's bookkeeping: the heap bounds, the largest order in use, the head
/// of each free list and the header words written into free blocks.
pub struct BuddyState {
    heap_start: usize,
    heap_end: usize,
    max_order: usize,
    free_lists: Vec<usize>,
    memory: HashMapWithView<usize, usize>,
    lists: Ghost<Seq<Seq<usize>>>,
}

impl BuddyState {
    /// The blocks on each free list, head first; the list at index `o` holds the
    /// free blocks of order `o`.
    pub closed spec fn free_blocks(self) -> Seq<Seq<usize>> {
        self.lists@
    }

    pub closed spec fn start(self) -> int {
        self.heap_start as int
    }

    pub closed spec fn end(self) -> int {
        self.heap_end as int
    }

    pub closed spec fn top_order(self) -> nat {
        self.max_order as nat
    }

    /// The word stored at address `a`.
    pub closed spec fn word(self, a: int) -> usize {
        if 0 <= a <= usize::MAX && self.memory@.contains_key(a as usize) {
            self.memory@[a as usize]
        } else {
            0
        }
    }

    /// The tag word of the block at `a`.
    pub closed spec fn tag_at(self, a: int) -> usize {
        self.word(a + word_size())
    }

    /// A block of order `o` at `a` lies in the heap, aligned to its size.
    pub open spec fn block_fits(self, a: int, o: nat) -> bool {
        &&& o <= self.top_order()
        &&& self.start() <= a
        &&& a + block_bytes(o) <= self.end()
        &&& (a - self.start()) % (block_bytes(o) as int) == 0
    }

    closed spec fn block_ok(self, a: int, o: nat) -> bool {
        &&& self.block_fits(a, o)
        &&& a % 64 == 0
        &&& a > 0
    }

    closed spec fn list_linked(self, o: int) -> bool {
        let s = self.lists@[o];
        &&& self.free_lists@[o] == head_of(s)
        &&& forall|i: int|
            0 <= i < s.len() ==> {
                &&& self.word(#[trigger] s[i] as int) == next_in(s, i)
                &&& self.word(s[i] + 2 * word_size()) == prev_in(s, i)
                &&& self.tag_at(s[i] as int) == tag_of(o)
            }
    }

    closed spec fn tags_sound(self) -> bool {
        forall|a: int, o: int|
            #![trigger self.tag_at(a), tag_of(o)]
            0 <= a <= usize::MAX && a % 64 == 0 && 0 <= o < 32 && self.tag_at(a) == tag_of(o)
                ==> self.lists@[o].contains(a as usize)
    }

    /// The allocator's invariant.
    pub closed spec fn wf(self) -> bool {
        &&& self.free_lists@.len() == NUM_ORDERS
        &&& self.lists@.len() == NUM_ORDERS
        &&& self.max_order < NUM_ORDERS
        &&& block_bytes(self.max_order as nat) <= usize::MAX
        &&& self.heap_start % 64 == 0
        &&& self.heap_end % 64 == 0
        &&& self.heap_end <= usize::MAX - 63
        &&& self.heap_start == 0 ==> self.heap_end == 0
        &&& self.heap_start < self.heap_end ==> block_bytes(self.max_order as nat)
            <= self.heap_end - self.heap_start
        &&& forall|o: int, i: int|
            0 <= o < NUM_ORDERS && 0 <= i < self.lists@[o].len() ==> self.block_ok(
                #[trigger] self.lists@[o][i] as int,
                o as nat,
            )
        &&& blocks_disjoint(self.lists@)
        &&& forall|o: int| 0 <= o < NUM_ORDERS ==> #[trigger] self.list_linked(o)
        &&& self.tags_sound()
    }

    /// Free buddies have merged as far as they can.
    pub open spec fn is_coalesced(self) -> bool {
        coalesced(self.free_blocks(), self.start(), self.top_order())
    }

    /// The bytes held by free blocks.
    pub open spec fn free_region(self) -> Set<int> {
        region(self.free_blocks())
    }

    /// The number of bytes held by free blocks.
    pub open spec fn free_total(self) -> nat {
        total_bytes(self.free_blocks(), NUM_ORDERS as nat)
    }

    /// A state with an empty heap and no free block.
    pub fn new() -> (state: Self)
        ensures
            state.wf(),
            state.start() == 0,
            state.end() == 0,
            state.top_order() == 0,
            state.free_blocks() == Seq::new(NUM_ORDERS as nat, |o: int| Seq::<usize>::empty()),
    {
        let mut free_lists: Vec<usize> = Vec::new();
        let mut k: usize = 0;
        while k < NUM_ORDERS
            invariant
                k <= NUM_ORDERS,
                free_lists@.len() == k,
                forall|o: int| 0 <= o < k ==> free_lists@[o] == 0,
            decreases NUM_ORDERS - k,
        {
            free_lists.push(0);
            k += 1;
        }
        proof {
            broadcast use vstd::std_specs::hash::axiom_usize_obeys_hash_table_key_model;
        }
        let memory: HashMapWithView<usize, usize> = HashMapWithView::new();
        let state = BuddyState {
            heap_start: 0,
            heap_end: 0,
            max_order: 0,
            free_lists,
            memory,
            lists: Ghost(Seq::new(NUM_ORDERS as nat, |o: int| Seq::<usize>::empty())),
        };
        proof {
            lemma_block_bytes(0);
            lemma_tags_distinct();
            vstd::arithmetic::power2::lemma2_to64();
            assert forall|o: int| 0 <= o < NUM_ORDERS implies #[trigger] state.list_linked(o) by {}
        }
        state
    }

    /// The word stored at `addr`.
    fn read_word(&self, addr: usize) -> (value: usize)
        ensures
            value == self.word(addr as int),
    {
        match self.memory.get(&addr) {
            Some(v) => *v,
            None => 0,
        }
    }

    fn write_word(&mut self, addr: usize, value: usize)
        ensures
            final(self).memory@ == old(self).memory@.insert(addr, value),
            final(self).heap_start == old(self).heap_start,
            final(self).heap_end == old(self).heap_end,
            final(self).max_order == old(self).max_order,
            final(self).free_lists == old(self).free_lists,
            final(self).lists == old(self).lists,
    {
        self.memory.insert(addr, value);
    }

    /// Two different listed blocks start at least 64 bytes apart.
    proof fn lemma_far(self, o1: int, i1: int, o2: int, i2: int)
        requires
            self.wf(),
            0 <= o1 < NUM_ORDERS,
            0 <= i1 < self.lists@[o1].len(),
            0 <= o2 < NUM_ORDERS,
            0 <= i2 < self.lists@[o2].len(),
            o1 != o2 || i1 != i2,
        ensures
            self.lists@[o1][i1] + 64 <= self.lists@[o2][i2] || self.lists@[o2][i2] + 64
                <= self.lists@[o1][i1],
    {
        lemma_block_bytes(o1 as nat);
        lemma_block_bytes(o2 as nat);
        assert(apart(
            self.lists@[o1][i1] as int,
            o1 as nat,
            self.lists@[o2][i2] as int,
            o2 as nat,
        ));
    }

    /// The word after the block header's first word: where the next free block is kept.
    fn read_next(&self, addr: usize) -> (next: usize)
        ensures
            next == self.word(addr as int),
    {
        self.read_word(addr)
    }

    fn write_next(&mut self, addr: usize, next: usize)
        ensures
            final(self).memory@ == old(self).memory@.insert(addr, next),
            final(self).heap_start == old(self).heap_start,
            final(self).heap_end == old(self).heap_end,
            final(self).max_order == old(self).max_order,
            final(self).free_lists == old(self).free_lists,
            final(self).lists == old(self).lists,
    {
        self.write_word(addr, next)
    }

    fn read_prev(&self, addr: usize) -> (prev: usize)
        requires
            addr + 16 <= usize::MAX,
        ensures
            prev == self.word(addr + 2 * word_size()),
    {
        let w = word_bytes();
        self.read_word(addr + w * 2)
    }

    fn write_prev(&mut self, addr: usize, prev: usize)
        requires
            addr + 16 <= usize::MAX,
        ensures
            final(self).memory@ == old(self).memory@.insert((addr + 2 * word_size()) as usize, prev),
            final(self).heap_start == old(self).heap_start,
            final(self).heap_end == old(self).heap_end,
            final(self).max_order == old(self).max_order,
            final(self).free_lists == old(self).free_lists,
            final(self).lists == old(self).lists,
    {
        let w = word_bytes();
        self.write_word(addr + w * 2, prev)
    }

    fn read_magic(&self, addr: usize) -> (magic: usize)
        requires
            addr + 16 <= usize::MAX,
        ensures
            magic == self.tag_at(addr as int),
    {
        let w = word_bytes();
        self.read_word(addr + w)
    }

    fn write_tag(&mut self, addr: usize, order: usize)
        requires
            addr + 16 <= usize::MAX,
        ensures
            final(self).memory@ == old(self).memory@.insert(
                (addr + word_size()) as usize,
                tag_of(order as int),
            ),
            final(self).heap_start == old(self).heap_start,
            final(self).heap_end == old(self).heap_end,
            final(self).max_order == old(self).max_order,
            final(self).free_lists == old(self).free_lists,
            final(self).lists == old(self).lists,
    {
        let w = word_bytes();
        self.write_word(addr + w, FREE_MAGIC ^ order)
    }

    /// Whether the block at `addr` carries the tag of a free block of `order`.
    fn tag_matches(&self, addr: usize, order: usize) -> (matches: bool)
        requires
            addr + 16 <= usize::MAX,
        ensures
            matches == (self.tag_at(addr as int) == tag_of(order as int)),
    {
        self.read_magic(addr) == (FREE_MAGIC ^ order)
    }

    fn clear_tag(&mut self, addr: usize)
        requires
            addr + 16 <= usize::MAX,
        ensures
            final(self).memory@ == old(self).memory@.insert((addr + word_size()) as usize, 0),
            final(self).heap_start == old(self).heap_start,
            final(self).heap_end == old(self).heap_end,
            final(self).max_order == old(self).max_order,
            final(self).free_lists == old(self).free_lists,
            final(self).lists == old(self).lists,
    {
        let w = word_bytes();
        self.write_word(addr + w, 0)
    }

    /// Puts the block at `addr` at the head of the free list of `order`: its header
    /// links to the old head, and the old head links back to it.
    pub fn push_free(&mut self, order: usize, addr: usize)
        requires
            old(self).wf(),
            old(self).block_fits(addr as int, order as nat),
            addr % 64 == 0,
            addr > 0,
            apart_from_all(old(self).free_blocks(), addr as int, order as nat),
        ensures
            final(self).wf(),
            final(self).free_blocks() == pushed(old(self).free_blocks(), order as int, addr),
            final(self).start() == old(self).start(),
            final(self).end() == old(self).end(),
            final(self).top_order() == old(self).top_order(),
    {
        let ghost pre = *self;
        proof {
            lemma_word_size();
            lemma_block_bytes(order as nat);
            assert(pre.list_linked(order as int));
        }
        let head = self.free_lists[order];
        self.write_next(addr, head);
        self.write_prev(addr, 0);
        self.write_tag(addr, order);
        if head != 0 {
            proof {
                let s = pre.lists@[order as int];
                assert(s.len() > 0);
                assert(pre.block_ok(s[0] as int, order as nat));
            }
            self.write_prev(head, addr);
        }
        self.free_lists.set(order, addr);
        proof {
            let ord = order as int;
            self.lists@ = pre.lists@.update(ord, seq![addr] + pre.lists@[ord]);
            Self::lemma_push_words(pre, *self, ord, addr, head);
            Self::lemma_push_wf(pre, *self, ord, addr, head);
        }
    }

    proof fn lemma_push_words(pre: Self, post: Self, ord: int, addr: usize, head: usize)
        requires
            pre.wf(),
            0 <= ord < NUM_ORDERS,
            pre.block_ok(addr as int, ord as nat),
            apart_from_all(pre.lists@, addr as int, ord as nat),
            head == head_of(pre.lists@[ord]),
            ({
                let w = word_size();
                let m3 = pre.memory@.insert(addr, head).insert((addr + 2 * w) as usize, 0).insert(
                    (addr + w) as usize,
                    tag_of(ord),
                );
                post.memory@ == if head != 0 {
                    m3.insert((head + 2 * w) as usize, addr)
                } else {
                    m3
                }
            }),
        ensures
            forall|x: int| #![trigger post.word(x)]
                post.word(x) == (if x == addr {
                    head
                } else if x == addr + word_size() {
                    tag_of(ord)
                } else if x == addr + 2 * word_size() {
                    0
                } else if head != 0 && x == head + 2 * word_size() {
                    addr
                } else {
                    pre.word(x)
                }),
    {
        lemma_word_size();
        lemma_block_bytes_min();
        if head != 0 {
            let s = pre.lists@[ord];
            assert(apart(addr as int, ord as nat, s[0] as int, ord as nat));
            assert(pre.block_ok(s[0] as int, ord as nat));
        }
    }

    proof fn lemma_push_wf(pre: Self, post: Self, ord: int, addr: usize, head: usize)
        requires
            pre.wf(),
            0 <= ord < NUM_ORDERS,
            pre.block_ok(addr as int, ord as nat),
            apart_from_all(pre.lists@, addr as int, ord as nat),
            head == head_of(pre.lists@[ord]),
            post.lists@ == pre.lists@.update(ord, seq![addr] + pre.lists@[ord]),
            post.free_lists@ == pre.free_lists@.update(ord, addr),
            post.heap_start == pre.heap_start,
            post.heap_end == pre.heap_end,
            post.max_order == pre.max_order,
            forall|x: int| #![trigger post.word(x)]
                post.word(x) == (if x == addr {
                    head
                } else if x == addr + word_size() {
                    tag_of(ord)
                } else if x == addr + 2 * word_size() {
                    0
                } else if head != 0 && x == head + 2 * word_size() {
                    addr
                } else {
                    pre.word(x)
                }),
        ensures
            post.wf(),
    {
        let old_lists = pre.lists@;
        let new_lists = post.lists@;
        lemma_region_push(old_lists, ord, addr);
        lemma_word_size();
        assert forall|o: int, i: int|
            0 <= o < NUM_ORDERS && 0 <= i < new_lists[o].len() implies post.block_ok(
            #[trigger] new_lists[o][i] as int,
            o as nat,
        ) by {
            if !(o == ord && i == 0) {
                let j = if o == ord { i - 1 } else { i };
                assert(new_lists[o][i] == old_lists[o][j]);
                assert(pre.block_ok(old_lists[o][j] as int, o as nat));
            }
        }
        assert forall|o: int| 0 <= o < NUM_ORDERS implies #[trigger] post.list_linked(o) by {
            Self::lemma_push_linked(pre, post, ord, addr, head, o);
        }
        Self::lemma_push_tags(pre, post, ord, addr, head);
    }

    proof fn lemma_push_linked(pre: Self, post: Self, ord: int, addr: usize, head: usize, o: int)
        requires
            pre.wf(),
            0 <= ord < NUM_ORDERS,
            0 <= o < NUM_ORDERS,
            pre.block_ok(addr as int, ord as nat),
            apart_from_all(pre.lists@, addr as int, ord as nat),
            head == head_of(pre.lists@[ord]),
            post.lists@ == pre.lists@.update(ord, seq![addr] + pre.lists@[ord]),
            post.free_lists@ == pre.free_lists@.update(ord, addr),
            forall|x: int| #![trigger post.word(x)]
                post.word(x) == (if x == addr {
                    head
                } else if x == addr + word_size() {
                    tag_of(ord)
                } else if x == addr + 2 * word_size() {
                    0
                } else if head != 0 && x == head + 2 * word_size() {
                    addr
                } else {
                    pre.word(x)
                }),
        ensures
            post.list_linked(o),
    {
        lemma_word_size();
        lemma_block_bytes_min();
        let old_lists = pre.lists@;
        let new_lists = post.lists@;
        let s2 = new_lists[o];
        assert(pre.list_linked(o));
        let s = old_lists[o];
        assert forall|i: int| 0 <= i < s2.len() implies {
            &&& post.word(#[trigger] s2[i] as int) == next_in(s2, i)
            &&& post.word(s2[i] + 2 * word_size()) == prev_in(s2, i)
            &&& post.tag_at(s2[i] as int) == tag_of(o)
        } by {
            if o == ord && i == 0 {
            } else {
                let j = if o == ord { i - 1 } else { i };
                let c = s[j];
                assert(s2[i] == c);
                assert(old_lists[o][j] == c);
                assert(pre.block_ok(c as int, o as nat));
                assert(apart(addr as int, ord as nat, old_lists[o][j] as int, o as nat));
                assert(c + 64 <= addr || addr + 64 <= c);
                if head != 0 && !(o == ord && j == 0) {
                    pre.lemma_far(o, j, ord, 0);
                }
                if o == ord {
                    assert(next_in(s2, i) == next_in(s, j));
                    if j > 0 {
                        assert(prev_in(s2, i) == prev_in(s, j));
                    }
                }
            }
        }
    }

    proof fn lemma_push_tags(pre: Self, post: Self, ord: int, addr: usize, head: usize)
        requires
            pre.wf(),
            0 <= ord < NUM_ORDERS,
            pre.block_ok(addr as int, ord as nat),
            head == head_of(pre.lists@[ord]),
            post.lists@ == pre.lists@.update(ord, seq![addr] + pre.lists@[ord]),
            forall|x: int| #![trigger post.word(x)]
                post.word(x) == (if x == addr {
                    head
                } else if x == addr + word_size() {
                    tag_of(ord)
                } else if x == addr + 2 * word_size() {
                    0
                } else if head != 0 && x == head + 2 * word_size() {
                    addr
                } else {
                    pre.word(x)
                }),
        ensures
            post.tags_sound(),
    {
        lemma_word_size();
        lemma_tags_distinct();
        let old_lists = pre.lists@;
        let new_lists = post.lists@;
        if head != 0 {
            assert(pre.block_ok(old_lists[ord][0] as int, ord as nat));
        }
        assert forall|a: int, o: int|
            #![trigger post.tag_at(a), tag_of(o)]
            0 <= a <= usize::MAX && a % 64 == 0 && 0 <= o < 32 && post.tag_at(a) == tag_of(o)
                implies post.lists@[o].contains(a as usize) by {
            if a == addr {
                assert(new_lists[ord][0] == addr);
            } else {
                assert(post.tag_at(a) == pre.tag_at(a));
                assert(old_lists[o].contains(a as usize));
                let j = choose|j: int| 0 <= j < old_lists[o].len() && old_lists[o][j] == a;
                let k = if o == ord { j + 1 } else { j };
                assert(new_lists[o][k] == a);
            }
        }
    }

    /// Takes the block at the head of the free list of `order`, if there is one.
    pub fn pop_free(&mut self, order: usize) -> (block: Option<usize>)
        requires
            old(self).wf(),
            order < NUM_ORDERS,
        ensures
            final(self).wf(),
            block == list_head(old(self).free_blocks(), order as int),
            block is None ==> *final(self) == *old(self),
            final(self).free_blocks() == popped(old(self).free_blocks(), order as int),
            final(self).start() == old(self).start(),
            final(self).end() == old(self).end(),
            final(self).top_order() == old(self).top_order(),
    {
        let ghost pre = *self;
        proof {
            lemma_word_size();
            assert(pre.list_linked(order as int));
        }
        let head = self.free_lists[order];
        if head == 0 {
            proof {
                if pre.lists@[order as int].len() > 0 {
                    assert(pre.block_ok(pre.lists@[order as int][0] as int, order as nat));
                }
            }
            return None;
        }
        proof {
            assert(pre.block_ok(head as int, order as nat));
        }
        let next = self.read_next(head);
        self.free_lists.set(order, next);
        if next != 0 {
            proof {
                let s = pre.lists@[order as int];
                if s.len() <= 1 {
                    assert(false);
                }
                assert(pre.block_ok(s[1] as int, order as nat));
            }
            self.write_prev(next, 0);
        }
        self.clear_tag(head);
        proof {
            let ord = order as int;
            self.lists@ = pre.lists@.update(ord, pre.lists@[ord].remove(0));
            Self::lemma_unlink_words(pre, *self, ord, 0);
            Self::lemma_unlink_wf(pre, *self, ord, 0);
        }
        Some(head)
    }

    /// Unlinks `target` from the free list of `order` if it is the tagged header of a
    /// free block of that order; returns whether it was.
    fn remove_free(&mut self, order: usize, target: usize) -> (removed: bool)
        requires
            old(self).wf(),
            order < NUM_ORDERS,
            target % 64 == 0,
            target <= usize::MAX - 63,
        ensures
            final(self).wf(),
            removed == old(self).lists@[order as int].contains(target),
            !removed ==> *final(self) == *old(self),
            removed ==> final(self).lists@ == old(self).lists@.update(
                order as int,
                old(self).lists@[order as int].remove(
                    old(self).lists@[order as int].index_of(target),
                ),
            ),
            final(self).heap_start == old(self).heap_start,
            final(self).heap_end == old(self).heap_end,
            final(self).max_order == old(self).max_order,
    {
        let ghost pre = *self;
        proof {
            lemma_word_size();
            lemma_tags_distinct();
            assert(pre.list_linked(order as int));
        }
        if target == 0 || !self.tag_matches(target, order) {
            proof {
                let s = pre.lists@[order as int];
                if s.contains(target) {
                    let j = choose|j: int| 0 <= j < s.len() && s[j] == target;
                    assert(pre.block_ok(s[j] as int, order as nat));
                    assert(pre.tag_at(s[j] as int) == tag_of(order as int));
                }
            }
            return false;
        }
        let ghost s = pre.lists@[order as int];
        let ghost k = s.index_of(target);
        proof {
            assert(pre.tag_at(target as int) == tag_of(order as int));
            assert(s.contains(target));
            assert(0 <= k < s.len() && s[k] == target);
            if k > 0 {
                assert(pre.block_ok(s[k - 1] as int, order as nat));
            }
            if k + 1 < s.len() {
                assert(pre.block_ok(s[k + 1] as int, order as nat));
            }
            assert(pre.block_ok(s[k] as int, order as nat));
        }
        let prev = self.read_prev(target);
        let next = self.read_next(target);
        if prev != 0 {
            self.write_next(prev, next);
        } else {
            self.free_lists.set(order, next);
        }
        if next != 0 {
            self.write_prev(next, prev);
        }
        self.clear_tag(target);
        proof {
            let ord = order as int;
            if k == 0 {
                assert(prev == 0);
            } else {
                assert(prev == s[k - 1]);
                assert(pre.block_ok(s[k - 1] as int, order as nat));
                assert(prev != 0);
            }
            self.lists@ = pre.lists@.update(ord, s.remove(k));
            Self::lemma_unlink_words(pre, *self, ord, k);
            Self::lemma_unlink_wf(pre, *self, ord, k);
        }
        true
    }

    proof fn lemma_unlink_words(pre: Self, post: Self, ord: int, k: int)
        requires
            pre.wf(),
            0 <= ord < NUM_ORDERS,
            0 <= k < pre.lists@[ord].len(),
            ({
                let s = pre.lists@[ord];
                let w = word_size();
                let prev = prev_in(s, k);
                let next = next_in(s, k);
                let m1 = if prev != 0 {
                    pre.memory@.insert(prev, next)
                } else {
                    pre.memory@
                };
                let m2 = if next != 0 {
                    m1.insert((next + 2 * w) as usize, prev)
                } else {
                    m1
                };
                post.memory@ == m2.insert((s[k] + w) as usize, 0)
            }),
        ensures
            ({
                let s = pre.lists@[ord];
                let prev = prev_in(s, k);
                let next = next_in(s, k);
                forall|x: int| #![trigger post.word(x)]
                    post.word(x) == (if prev != 0 && x == prev {
                        next
                    } else if next != 0 && x == next + 2 * word_size() {
                        prev
                    } else if x == s[k] + word_size() {
                        0
                    } else {
                        pre.word(x)
                    })
            }),
    {
        lemma_word_size();
        let s = pre.lists@[ord];
        assert(pre.block_ok(s[k] as int, ord as nat));
        if k > 0 {
            assert(pre.block_ok(s[k - 1] as int, ord as nat));
        }
        if k + 1 < s.len() {
            assert(pre.block_ok(s[k + 1] as int, ord as nat));
        }
    }

    proof fn lemma_unlink_wf(pre: Self, post: Self, ord: int, k: int)
        requires
            pre.wf(),
            0 <= ord < NUM_ORDERS,
            0 <= k < pre.lists@[ord].len(),
            post.lists@ == pre.lists@.update(ord, pre.lists@[ord].remove(k)),
            post.free_lists@ == if k == 0 {
                pre.free_lists@.update(ord, next_in(pre.lists@[ord], k))
            } else {
                pre.free_lists@
            },
            post.heap_start == pre.heap_start,
            post.heap_end == pre.heap_end,
            post.max_order == pre.max_order,
            ({
                let s = pre.lists@[ord];
                let prev = prev_in(s, k);
                let next = next_in(s, k);
                forall|x: int| #![trigger post.word(x)]
                    post.word(x) == (if prev != 0 && x == prev {
                        next
                    } else if next != 0 && x == next + 2 * word_size() {
                        prev
                    } else if x == s[k] + word_size() {
                        0
                    } else {
                        pre.word(x)
                    })
            }),
        ensures
            post.wf(),
    {
        let old_lists = pre.lists@;
        let new_lists = post.lists@;
        lemma_region_remove(old_lists, ord, k);
        lemma_word_size();
        assert forall|o: int, i: int|
            0 <= o < NUM_ORDERS && 0 <= i < new_lists[o].len() implies post.block_ok(
            #[trigger] new_lists[o][i] as int,
            o as nat,
        ) by {
            let j = if o == ord && i >= k { i + 1 } else { i };
            assert(new_lists[o][i] == old_lists[o][j]);
            assert(pre.block_ok(old_lists[o][j] as int, o as nat));
        }
        assert forall|o: int| 0 <= o < NUM_ORDERS implies #[trigger] post.list_linked(o) by {
            Self::lemma_unlink_linked(pre, post, ord, k, o);
        }
        Self::lemma_unlink_tags(pre, post, ord, k);
    }

    proof fn lemma_unlink_linked(pre: Self, post: Self, ord: int, k: int, o: int)
        requires
            pre.wf(),
            0 <= ord < NUM_ORDERS,
            0 <= o < NUM_ORDERS,
            0 <= k < pre.lists@[ord].len(),
            post.lists@ == pre.lists@.update(ord, pre.lists@[ord].remove(k)),
            post.free_lists@ == if k == 0 {
                pre.free_lists@.update(ord, next_in(pre.lists@[ord], k))
            } else {
                pre.free_lists@
            },
            ({
                let s = pre.lists@[ord];
                let prev = prev_in(s, k);
                let next = next_in(s, k);
                forall|x: int| #![trigger post.word(x)]
                    post.word(x) == (if prev != 0 && x == prev {
                        next
                    } else if next != 0 && x == next + 2 * word_size() {
                        prev
                    } else if x == s[k] + word_size() {
                        0
                    } else {
                        pre.word(x)
                    })
            }),
        ensures
            post.list_linked(o),
    {
        let s = pre.lists@[ord];
        let s2 = post.lists@[o];
        assert(pre.list_linked(o));
        assert forall|i: int| 0 <= i < s2.len() implies {
            &&& post.word(#[trigger] s2[i] as int) == next_in(s2, i)
            &&& post.word(s2[i] + 2 * word_size()) == prev_in(s2, i)
            &&& post.tag_at(s2[i] as int) == tag_of(o)
        } by {
            Self::lemma_unlink_slot(pre, post, ord, k, o, i);
        }
        if o == ord && k == 0 {
            assert(pre.block_ok(s[0] as int, ord as nat));
            if s2.len() > 0 {
                assert(s2[0] == s[1]);
            }
        }
    }

    #[verifier::spinoff_prover]
    #[verifier::rlimit(40)]
    proof fn lemma_unlink_slot(pre: Self, post: Self, ord: int, k: int, o: int, i: int)
        requires
            pre.wf(),
            0 <= ord < NUM_ORDERS,
            0 <= o < NUM_ORDERS,
            0 <= k < pre.lists@[ord].len(),
            post.lists@ == pre.lists@.update(ord, pre.lists@[ord].remove(k)),
            0 <= i < post.lists@[o].len(),
            ({
                let s = pre.lists@[ord];
                let prev = prev_in(s, k);
                let next = next_in(s, k);
                forall|x: int| #![trigger post.word(x)]
                    post.word(x) == (if prev != 0 && x == prev {
                        next
                    } else if next != 0 && x == next + 2 * word_size() {
                        prev
                    } else if x == s[k] + word_size() {
                        0
                    } else {
                        pre.word(x)
                    })
            }),
        ensures
            ({
                let s2 = post.lists@[o];
                &&& post.word(s2[i] as int) == next_in(s2, i)
                &&& post.word(s2[i] + 2 * word_size()) == prev_in(s2, i)
                &&& post.tag_at(s2[i] as int) == tag_of(o)
            }),
    {
        let old_lists = pre.lists@;
        let new_lists = post.lists@;
        let s = old_lists[ord];
        let so = old_lists[o];
        let s2 = new_lists[o];
        let j = if o == ord && i >= k { i + 1 } else { i };
        let c = so[j];
        assert(s2[i] == c);
        assert(pre.list_linked(o));
        assert(pre.word(c as int) == next_in(so, j));
        assert(pre.word(c + 2 * word_size()) == prev_in(so, j));
        assert(pre.tag_at(c as int) == tag_of(o));
        Self::lemma_unlink_frame(pre, post, ord, k, o, j);
        if o == ord {
            if i < k - 1 {
                assert(next_in(s2, i) == next_in(s, j));
            } else if i == k - 1 {
                assert(next_in(s2, i) == next_in(s, k));
            } else {
                assert(next_in(s2, i) == next_in(s, j));
            }
            if i < k {
                assert(prev_in(s2, i) == prev_in(s, j));
            } else if i == k {
                assert(prev_in(s2, i) == prev_in(s, k));
            } else {
                assert(prev_in(s2, i) == prev_in(s, j));
            }
        }
    }

    /// How the words of a block that stays listed change when the `k`-th block of
    /// the list of order `ord` is unlinked.
    proof fn lemma_unlink_frame(pre: Self, post: Self, ord: int, k: int, o: int, j: int)
        requires
            pre.wf(),
            0 <= ord < NUM_ORDERS,
            0 <= o < NUM_ORDERS,
            0 <= k < pre.lists@[ord].len(),
            0 <= j < pre.lists@[o].len(),
            o != ord || j != k,
            ({
                let s = pre.lists@[ord];
                let prev = prev_in(s, k);
                let next = next_in(s, k);
                forall|x: int| #![trigger post.word(x)]
                    post.word(x) == (if prev != 0 && x == prev {
                        next
                    } else if next != 0 && x == next + 2 * word_size() {
                        prev
                    } else if x == s[k] + word_size() {
                        0
                    } else {
                        pre.word(x)
                    })
            }),
        ensures
            ({
                let s = pre.lists@[ord];
                let c = pre.lists@[o][j];
                &&& post.word(c as int) == if o == ord && j == k - 1 {
                    next_in(s, k)
                } else {
                    pre.word(c as int)
                }
                &&& post.word(c + 2 * word_size()) == if o == ord && j == k + 1 {
                    prev_in(s, k)
                } else {
                    pre.word(c + 2 * word_size())
                }
                &&& post.tag_at(c as int) == pre.tag_at(c as int)
            }),
    {
        lemma_word_size();
        let s = pre.lists@[ord];
        let c = pre.lists@[o][j];
        assert(pre.block_ok(c as int, o as nat));
        assert(pre.block_ok(s[k] as int, ord as nat));
        pre.lemma_far(o, j, ord, k);
        if k > 0 {
            assert(pre.block_ok(s[k - 1] as int, ord as nat));
            if !(o == ord && j == k - 1) {
                pre.lemma_far(o, j, ord, k - 1);
            }
        }
        if k + 1 < s.len() {
            assert(pre.block_ok(s[k + 1] as int, ord as nat));
            if !(o == ord && j == k + 1) {
                pre.lemma_far(o, j, ord, k + 1);
            }
        }
    }

    proof fn lemma_unlink_tags(pre: Self, post: Self, ord: int, k: int)
        requires
            pre.wf(),
            0 <= ord < NUM_ORDERS,
            0 <= k < pre.lists@[ord].len(),
            post.lists@ == pre.lists@.update(ord, pre.lists@[ord].remove(k)),
            ({
                let s = pre.lists@[ord];
                let prev = prev_in(s, k);
                let next = next_in(s, k);
                forall|x: int| #![trigger post.word(x)]
                    post.word(x) == (if prev != 0 && x == prev {
                        next
                    } else if next != 0 && x == next + 2 * word_size() {
                        prev
                    } else if x == s[k] + word_size() {
                        0
                    } else {
                        pre.word(x)
                    })
            }),
        ensures
            post.tags_sound(),
    {
        lemma_word_size();
        lemma_tags_distinct();
        let old_lists = pre.lists@;
        let new_lists = post.lists@;
        let s = old_lists[ord];
        assert(pre.block_ok(s[k] as int, ord as nat));
        if k > 0 {
            assert(pre.block_ok(s[k - 1] as int, ord as nat));
        }
        if k + 1 < s.len() {
            assert(pre.block_ok(s[k + 1] as int, ord as nat));
        }
        assert forall|a: int, o: int|
            #![trigger post.tag_at(a), tag_of(o)]
            0 <= a <= usize::MAX && a % 64 == 0 && 0 <= o < 32 && post.tag_at(a) == tag_of(o)
                implies post.lists@[o].contains(a as usize) by {
            assert(post.tag_at(a) == pre.tag_at(a));
            assert(old_lists[o].contains(a as usize));
            let j = choose|j: int| 0 <= j < old_lists[o].len() && old_lists[o][j] == a;
            if o == ord {
                assert(j != k);
                let m = if j > k { j - 1 } else { j };
                assert(new_lists[o][m] == a);
            } else {
                assert(new_lists[o][j] == a);
            }
        }
    }

    /// A block that fits the heap is a proper block.
    proof fn lemma_fits_ok(self, a: int, o: nat)
        requires
            self.wf(),
            self.block_fits(a, o),
        ensures
            self.block_ok(a, o),
    {
        lemma_block_bytes(o);
        vstd::arithmetic::power2::lemma_pow2_pos(o);
        self::arith::lemma_mod_of_multiple(
            a - self.heap_start,
            64,
            vstd::arithmetic::power2::pow2(o) as int,
        );
    }

    /// The free region lies in the heap and holds `free_total` bytes.
    proof fn lemma_total_bound(self)
        requires
            self.wf(),
        ensures
            self.free_region().finite(),
            self.free_region().len() == self.free_total(),
            self.free_total() <= if self.heap_start <= self.heap_end {
                self.heap_end - self.heap_start
            } else {
                0
            },
            forall|n: nat| n <= NUM_ORDERS ==> #[trigger] total_bytes(self.lists@, n) <= self.free_total(),
            forall|n: nat| self.max_order < n <= NUM_ORDERS ==> #[trigger] total_bytes(self.lists@, n) == self.free_total(),
    {
        lemma_region_size(self.lists@);
        let hs = self.heap_start as int;
        let he = if self.heap_start <= self.heap_end { self.heap_end as int } else { hs };
        vstd::set_lib::lemma_int_range(hs, he);
        assert(self.free_region().subset_of(vstd::set_lib::set_int_range(hs, he))) by {
            assert forall|x: int| self.free_region().contains(x) implies vstd::set_lib::set_int_range(hs, he).contains(x) by {
                let (o, i) = choose|o: int, i: int| #[trigger] covers(self.lists@, o, i, x);
                assert(self.block_ok(self.lists@[o][i] as int, o as nat));
                lemma_block_bytes(o as nat);
            }
        }
        vstd::set_lib::lemma_len_subset(self.free_region(), vstd::set_lib::set_int_range(hs, he));
        assert forall|o: int| self.max_order < o < NUM_ORDERS implies #[trigger] self.lists@[o].len() == 0 by {
            if self.lists@[o].len() > 0 {
                assert(self.block_ok(self.lists@[o][0] as int, o as nat));
            }
        }
        Self::lemma_total_mono(self.lists@, self.max_order as nat);
    }

    proof fn lemma_total_mono(lists: Seq<Seq<usize>>, top: nat)
        requires
            lists.len() == NUM_ORDERS,
            top < NUM_ORDERS,
            forall|o: int| top < o < NUM_ORDERS ==> #[trigger] lists[o].len() == 0,
        ensures
            forall|n: nat| n <= NUM_ORDERS ==> #[trigger] total_bytes(lists, n) <= total_bytes(lists, NUM_ORDERS as nat),
            forall|n: nat| top < n <= NUM_ORDERS ==> #[trigger] total_bytes(lists, n) == total_bytes(lists, NUM_ORDERS as nat),
    {
        assert forall|n: nat| n <= NUM_ORDERS implies #[trigger] total_bytes(lists, n) <= total_bytes(lists, NUM_ORDERS as nat) by {
            Self::lemma_total_step(lists, n, NUM_ORDERS as nat, top);
        }
        assert forall|n: nat| top < n <= NUM_ORDERS implies #[trigger] total_bytes(lists, n) == total_bytes(lists, NUM_ORDERS as nat) by {
            Self::lemma_total_step(lists, n, NUM_ORDERS as nat, top);
        }
    }

    proof fn lemma_total_step(lists: Seq<Seq<usize>>, n: nat, m: nat, top: nat)
        requires
            n <= m <= lists.len(),
            forall|o: int| top < o < lists.len() ==> #[trigger] lists[o].len() == 0,
        ensures
            total_bytes(lists, n) <= total_bytes(lists, m),
            top < n ==> total_bytes(lists, n) == total_bytes(lists, m),
        decreases m - n,
    {
        if n < m {
            Self::lemma_total_step(lists, n, (m - 1) as nat, top);
            assert(lists[m - 1].len() * block_bytes((m - 1) as nat) >= 0) by (nonlinear_arith);
            if top < n {
                assert(lists[m - 1].len() == 0);
            }
        }
    }

    /// When every listed block is as large as carving allows, no two listed blocks of
    /// the same order are buddies.
    proof fn lemma_carved_coalesced(self)
        requires
            self.wf(),
            forall|o: int, i: int|
                0 <= o < NUM_ORDERS && 0 <= i < self.lists@[o].len() ==> carved_maximal(
                    self.heap_start as int,
                    self.heap_end as int,
                    self.max_order as nat,
                    #[trigger] self.lists@[o][i] as int,
                    o as nat,
                ),
        ensures
            self.is_coalesced(),
    {
        let start = self.heap_start as int;
        let l = self.lists@;
        assert forall|o: int, i: int|
            0 <= o < self.max_order && 0 <= i < l[o].len() implies !l[o].contains(
            buddy_addr(start, #[trigger] l[o][i] as int, o as nat) as usize,
        ) by {
            let a = l[o][i];
            assert(self.block_ok(a as int, o as nat));
            lemma_block_bytes(o as nat);
            lemma_buddy_pair(start, a as int, o as nat);
            let b = buddy_addr(start, a as int, o as nat);
            let s = block_bytes(o as nat) as int;
            if l[o].contains(b as usize) {
                let j = choose|j: int| 0 <= j < l[o].len() && l[o][j] == b as usize;
                assert(self.block_ok(l[o][j] as int, o as nat));
                lemma_merge_aligned(a - start, s);
                if ((a - start) / s) % 2 == 0 {
                    assert(carved_maximal(start, self.heap_end as int, self.max_order as nat, a as int, o as nat));
                } else {
                    assert(carved_maximal(
                        start,
                        self.heap_end as int,
                        self.max_order as nat,
                        l[o][j] as int,
                        o as nat,
                    ));
                }
            }
        }
    }

    /// Every listed block is aligned and fits the address space.
    proof fn lemma_wf_aligned_list(self, p: int)
        requires
            self.wf(),
            0 <= p < NUM_ORDERS,
        ensures
            aligned_list(self.lists@, self.heap_start as int, p),
    {
        assert forall|i: int| 0 <= i < self.lists@[p].len() implies #[trigger] self.lists@[p][i]
            >= self.heap_start as int && (self.lists@[p][i] - self.heap_start) % (block_bytes(
            p as nat,
        ) as int) == 0 && self.lists@[p][i] + block_bytes(p as nat) <= usize::MAX by {
            assert(self.block_ok(self.lists@[p][i] as int, p as nat));
        }
    }

    /// Listing the upper half of a block being split keeps the lists coalesced: the
    /// half's buddy is the lower half, which is not listed.
    proof fn lemma_split_push_coalesced(self, block: usize, c: nat)
        requires
            self.wf(),
            coalesced(self.lists@, self.heap_start as int, self.max_order as nat),
            c < self.max_order,
            self.block_fits(block as int, c + 1),
            apart_from_all(self.lists@, block as int, c + 1),
        ensures
            coalesced(
                self.lists@.update(
                    c as int,
                    seq![(block + block_bytes(c)) as usize] + self.lists@[c as int],
                ),
                self.heap_start as int,
                self.max_order as nat,
            ),
    {
        let start = self.heap_start as int;
        let s = block_bytes(c) as int;
        lemma_block_bytes(c);
        lemma_block_bytes_grow(c + 1, self.max_order as nat);
        self::arith::lemma_double_aligned_even(block - start, s);
        let y = (block + s) as usize;
        lemma_split_aligned(block - start, c);
        assert(buddy_addr(start, block as int, c) == y);
        lemma_buddy_pair(start, block as int, c);
        self.lemma_wf_aligned_list(c as int);
        if self.lists@[c as int].contains(block) {
            let j = choose|j: int| 0 <= j < self.lists@[c as int].len() && self.lists@[c as int][j] == block;
            assert(apart(block as int, c + 1, self.lists@[c as int][j] as int, c));
        }
        lemma_push_coalesced(self.lists@, start, self.max_order as nat, c as int, y);
    }

    /// The buddy of the block of `order` at `addr`: the block of the same size at the
    /// offset from the heap start with the size bit flipped. The buddy's buddy is the
    /// block itself, the two lie one block apart, and the lower of the two is aligned
    /// to the block of the next order.
    pub fn buddy_of(&self, addr: usize, order: usize) -> (buddy: usize)
        requires
            addr >= self.start(),
            (addr - self.start()) % (block_bytes(order as nat) as int) == 0,
            block_bytes(order as nat) <= usize::MAX,
            buddy_addr(self.start(), addr as int, order as nat) <= usize::MAX,
        ensures
            buddy == buddy_addr(self.start(), addr as int, order as nat),
            buddy >= self.start(),
            (buddy - self.start()) % (block_bytes(order as nat) as int) == 0,
            buddy_addr(self.start(), buddy as int, order as nat) == addr,
            buddy == addr + block_bytes(order as nat) || buddy == addr - block_bytes(order as nat),
            (if buddy < addr {
                buddy - self.start()
            } else {
                addr - self.start()
            }) % (block_bytes(order as nat + 1) as int) == 0,
    {
        proof {
            lemma_block_bytes(order as nat);
            lemma_buddy_pair(self.start(), addr as int, order as nat);
        }
        let offset = addr - self.heap_start;
        let size = block_size(order);
        proof {
            lemma_buddy_offset(offset, order as nat, size);
        }
        self.heap_start + (offset ^ size)
    }

    /// The order that serves a request of `size` bytes aligned to `align`: the
    /// smallest order whose blocks hold the larger of the two and the smallest block,
    /// if that order is not above the largest order in use.
    pub open spec fn request_order(self, size: nat, align: nat) -> Option<nat> {
        fitting_order(needed_bytes(size, align), 0, self.top_order())
    }

    fn order_for(&self, size: usize, align: usize) -> (order: Option<usize>)
        requires
            self.wf(),
        ensures
            match order {
                Some(o) => self.request_order(size as nat, align as nat) == Some(o as nat),
                None => self.request_order(size as nat, align as nat) is None,
            },
    {
        let mut needed = size;
        if align > needed {
            needed = align;
        }
        if MIN_BLOCK_SIZE > needed {
            needed = MIN_BLOCK_SIZE;
        }
        let mut o: usize = 0;
        while o <= self.max_order
            invariant
                self.wf(),
                o <= self.max_order + 1,
                needed == needed_bytes(size as nat, align as nat),
                fitting_order(needed as nat, 0, self.max_order as nat) == fitting_order(
                    needed as nat,
                    o as nat,
                    self.max_order as nat,
                ),
            decreases self.max_order + 1 - o,
        {
            proof {
                lemma_block_bytes_grow(o as nat, self.max_order as nat);
            }
            if block_size(o) >= needed {
                return Some(o);
            }
            o += 1;
        }
        None
    }

    /// What serving a request of `size` bytes aligned to `align` does: when the
    /// request needs an order no larger than the largest one and a list at or above
    /// that order holds a block, the head block of the smallest such list is split
    /// down to the needed order and handed out; its bytes leave the free region.
    /// Otherwise nothing changes and the result is zero.
    pub open spec fn allocation(pre: Self, post: Self, size: nat, align: nat, block: usize) -> bool {
        &&& post.wf()
        &&& post.start() == pre.start()
        &&& post.end() == pre.end()
        &&& post.top_order() == pre.top_order()
        &&& match pre.request_order(size, align) {
            None => block == 0 && post == pre,
            Some(o) => match first_nonempty(pre.free_blocks(), o, pre.top_order()) {
                None => block == 0 && post == pre,
                Some(found) => {
                    &&& block == pre.free_blocks()[found as int][0]
                    &&& block_range(block as int, o).subset_of(pre.free_region())
                    &&& post.free_blocks() == split_lists(pre.free_blocks(), found, o)
                    &&& post.block_fits(block as int, o)
                    &&& apart_from_all(post.free_blocks(), block as int, o)
                    &&& post.free_region() == pre.free_region() - block_range(block as int, o)
                    &&& post.free_total() + block_bytes(o) == pre.free_total()
                    &&& pre.is_coalesced() ==> post.is_coalesced()
                },
            },
        }
    }

    /// The block at `addr` may be given back for a request of `size` bytes aligned to
    /// `align`: when the request has an order, the block of that order at `addr` fits
    /// the heap and shares no byte with a free block.
    pub open spec fn may_free(self, addr: nat, size: nat, align: nat) -> bool {
        self.request_order(size, align) matches Some(o) ==> {
            &&& self.block_fits(addr as int, o)
            &&& apart_from_all(self.free_blocks(), addr as int, o)
        }
    }

    /// What giving back the block at `addr` does: when the request has an order, the
    /// block merges with its free buddies as far as it can and the result is listed;
    /// the block's bytes join the free region. Otherwise nothing changes.
    pub open spec fn deallocation(pre: Self, post: Self, addr: usize, size: nat, align: nat) -> bool {
        &&& post.wf()
        &&& post.start() == pre.start()
        &&& post.end() == pre.end()
        &&& post.top_order() == pre.top_order()
        &&& match pre.request_order(size, align) {
            None => post == pre,
            Some(o) => {
                &&& post.free_blocks() == merged_lists(
                    pre.free_blocks(),
                    pre.start(),
                    pre.top_order(),
                    addr,
                    o,
                )
                &&& post.free_region() == pre.free_region() + block_range(addr as int, o)
                &&& post.free_total() == pre.free_total() + block_bytes(o)
                &&& pre.is_coalesced() ==> post.is_coalesced()
            },
        }
    }

    /// The free lists part way through splitting the head block of the list of
    /// order `found`, once the upper halves of orders `cur` up to `found` are listed.
    spec fn split_progress(lists: Seq<Seq<usize>>, found: nat, cur: nat) -> Seq<Seq<usize>> {
        let block = lists[found as int][0];
        Seq::new(
            lists.len(),
            |p: int|
                if p == found {
                    lists[p].remove(0)
                } else if cur <= p < found {
                    seq![(block + block_bytes(p as nat)) as usize] + lists[p]
                } else {
                    lists[p]
                },
        )
    }

    /// Serves a request of `size` bytes aligned to `align` with a block of the order
    /// the request needs, taken from the smallest non-empty list at or above that
    /// order and split down; returns its address, or zero when the request cannot be
    /// served.
    fn allocate(&mut self, size: usize, align: usize) -> (block: usize)
        requires
            old(self).wf(),
        ensures
            Self::allocation(*old(self), *final(self), size as nat, align as nat, block),
    {
        let ghost pre = *self;
        let order = match self.order_for(size, align) {
            Some(o) => o,
            None => return 0,
        };
        proof {
            lemma_fitting_order(needed_bytes(size as nat, align as nat), 0, self.max_order as nat);
        }
        let mut o = order;
        while o <= self.max_order && self.free_lists[o] == 0
            invariant
                *self == pre,
                self.wf(),
                order <= o <= self.max_order + 1,
                first_nonempty(self.lists@, order as nat, self.max_order as nat) == first_nonempty(
                    self.lists@,
                    o as nat,
                    self.max_order as nat,
                ),
            decreases self.max_order + 1 - o,
        {
            proof {
                assert(self.list_linked(o as int));
                if self.lists@[o as int].len() > 0 {
                    assert(self.block_ok(self.lists@[o as int][0] as int, o as nat));
                }
            }
            o += 1;
        }
        if o > self.max_order {
            return 0;
        }
        let found = o;
        proof {
            assert(self.list_linked(found as int));
            assert(self.lists@[found as int].len() > 0);
            assert(first_nonempty(self.lists@, found as nat, self.max_order as nat) == Some(found as nat));
        }
        let ghost lists0 = pre.lists@;
        let ghost b0 = lists0[found as int][0];
        proof {
            assert(pre.block_ok(b0 as int, found as nat));
            lemma_region_remove(lists0, found as int, 0);
        }
        let mut current_order = found;
        let block = self.pop_free(current_order).unwrap();
        proof {
            assert(self.lists@ =~= Self::split_progress(lists0, found as nat, found as nat));
            if pre.is_coalesced() {
                lemma_remove_coalesced(lists0, pre.heap_start as int, pre.max_order as nat, found as int, 0);
            }
        }
        while current_order > order
            invariant
                self.wf(),
                self.heap_start == pre.heap_start,
                self.heap_end == pre.heap_end,
                self.max_order == pre.max_order,
                pre.wf(),
                lists0 == pre.lists@,
                order <= current_order <= found <= pre.max_order,
                lists0[found as int].len() > 0,
                block == b0,
                b0 == lists0[found as int][0],
                pre.block_ok(b0 as int, found as nat),
                self.block_fits(block as int, current_order as nat),
                apart_from_all(self.lists@, block as int, current_order as nat),
                self.lists@ == Self::split_progress(lists0, found as nat, current_order as nat),
                region(self.lists@) == region(lists0) - block_range(block as int, current_order as nat),
                pre.is_coalesced() ==> coalesced(self.lists@, pre.heap_start as int, pre.max_order as nat),
            decreases current_order,
        {
            current_order -= 1;
            proof {
                lemma_block_bytes(current_order as nat);
                lemma_block_bytes_grow(current_order as nat, self.max_order as nat);
                lemma_split_aligned(block - self.heap_start, current_order as nat);
            }
            let buddy = block + block_size(current_order);
            proof {
                let c = current_order as nat;
                let lists1 = self.lists@;
                assert(self.block_fits(buddy as int, c));
                self.lemma_fits_ok(buddy as int, c);
                assert forall|p: int, i: int|
                    0 <= p < lists1.len() && 0 <= i < lists1[p].len() implies apart(
                    buddy as int,
                    c,
                    #[trigger] lists1[p][i] as int,
                    p as nat,
                ) by {
                    assert(apart(block as int, c + 1, lists1[p][i] as int, p as nat));
                }
            }
            let ghost lists1 = self.lists@;
            proof {
                if pre.is_coalesced() {
                    self.lemma_split_push_coalesced(block, current_order as nat);
                }
            }
            self.push_free(current_order, buddy);
            proof {
                let c = current_order as nat;
                lemma_region_push(lists1, c as int, buddy);
                assert(self.lists@ =~= Self::split_progress(lists0, found as nat, c));
                assert forall|p: int, i: int|
                    0 <= p < self.lists@.len() && 0 <= i < self.lists@[p].len() implies apart(
                    block as int,
                    c,
                    #[trigger] self.lists@[p][i] as int,
                    p as nat,
                ) by {
                    if !(p == c && i == 0) {
                        let j = if p == c { i - 1 } else { i };
                        assert(self.lists@[p][i] == lists1[p][j]);
                        assert(apart(block as int, c + 1, lists1[p][j] as int, p as nat));
                    }
                }
                lemma_block_bytes_grow(c, found as nat);
                assert(region(self.lists@) =~= region(lists0) - block_range(block as int, c)) by {
                    lemma_block_bytes_grow(c + 1, found as nat);
                    lemma_block_bytes(c);
                    assert forall|x: int| block_range(buddy as int, c).contains(x) implies region(lists0).contains(x) by {
                        assert(in_block(lists0[found as int][0] as int, found as nat, x));
                        assert(covers(lists0, found as int, 0, x));
                    }
                }
            }
        }
        proof {
            let o = order as nat;
            assert(self.lists@ =~= split_lists(lists0, found as nat, o));
            lemma_region_size(self.lists@);
            lemma_region_size(lists0);
            lemma_block_bytes_grow(o, found as nat);
            let r = block_range(block as int, o);
            vstd::set_lib::lemma_int_range(block as int, block + block_bytes(o));
            assert(region(self.lists@).disjoint(r)) by {
                assert forall|x: int| region(self.lists@).contains(x) implies !r.contains(x) by {
                    let (p, i) = choose|p: int, i: int| #[trigger] covers(self.lists@, p, i, x);
                    assert(apart(block as int, o, self.lists@[p][i] as int, p as nat));
                }
            }
            assert(region(self.lists@) + r =~= region(lists0)) by {
                assert forall|x: int| r.contains(x) implies region(lists0).contains(x) by {
                    assert(block as int <= x < block + block_bytes(o));
                    assert(block_bytes(o) <= block_bytes(found as nat));
                    assert(in_block(lists0[found as int][0] as int, found as nat, x));
                    assert(covers(lists0, found as int, 0, x));
                }
            }
            vstd::set_lib::lemma_set_disjoint_lens(region(self.lists@), r);
        }
        block
    }

    /// Gives back the block at `addr` that served a request of `size` bytes aligned
    /// to `align`, merging it with its buddy for as long as the buddy is free.
    fn dealloc(&mut self, addr: usize, size: usize, align: usize)
        requires
            old(self).wf(),
            old(self).may_free(addr as nat, size as nat, align as nat),
        ensures
            Self::deallocation(*old(self), *final(self), addr, size as nat, align as nat),
    {
        let ghost pre = *self;
        let ghost addr0 = addr;
        let mut addr = addr;
        let mut order = match self.order_for(size, align) {
            Some(o) => o,
            None => return ,
        };
        let ghost order0 = order;
        let ghost start = self.heap_start as int;
        let ghost top = self.max_order as nat;
        let mut merging = true;
        while merging && order < self.max_order
            invariant
                self.wf(),
                pre.wf(),
                self.heap_start == pre.heap_start,
                self.heap_end == pre.heap_end,
                self.max_order == pre.max_order,
                start == pre.heap_start,
                top == pre.max_order,
                order <= self.max_order,
                self.block_fits(addr as int, order as nat),
                apart_from_all(self.lists@, addr as int, order as nat),
                merged_lists(pre.lists@, start, top, addr0, order0 as nat) == merged_lists(
                    self.lists@,
                    start,
                    top,
                    addr,
                    order as nat,
                ),
                region(self.lists@) + block_range(addr as int, order as nat) == region(pre.lists@)
                    + block_range(addr0 as int, order0 as nat),
                !merging ==> !self.lists@[order as int].contains(
                    buddy_addr(start, addr as int, order as nat) as usize,
                ),
                pre.is_coalesced() ==> coalesced(self.lists@, start, top),
            decreases 2 * (self.max_order - order) + if merging { 1int } else { 0int },
        {
            let o = order;
            let ghost a_before = addr;
            proof {
                lemma_block_bytes(o as nat);
                lemma_block_bytes_grow(o as nat, self.max_order as nat);
                lemma_merge_aligned(addr - start, block_bytes(o as nat) as int);
                self.lemma_fits_ok(addr as int, o as nat);
                vstd::arithmetic::power2::lemma_pow2_pos(o as nat);
                self::arith::lemma_mod_of_multiple(
                    addr - start,
                    64,
                    vstd::arithmetic::power2::pow2(o as nat) as int,
                );
            }
            proof {
                lemma_buddy_pair(start, addr as int, o as nat);
                lemma_block_bytes_grow(o as nat, self.max_order as nat);
            }
            let buddy = self.buddy_of(addr, o);
            let ghost lists1 = self.lists@;
            if self.remove_free(o, buddy) {
                proof {
                    let k = lists1[o as int].index_of(buddy);
                    assert(0 <= k < lists1[o as int].len() && lists1[o as int][k] == buddy);
                    assert(self.block_ok(lists1[o as int][k] as int, o as nat)) by {
                        assert(self.lists@.len() == NUM_ORDERS);
                    }
                    lemma_region_remove(lists1, o as int, k);
                    if pre.is_coalesced() {
                        lemma_remove_coalesced(lists1, start, top, o as int, k);
                    }
                }
                if buddy < addr {
                    addr = buddy;
                }
                order += 1;
                proof {
                    let s = block_bytes(o as nat) as int;
                    let k = lists1[o as int].index_of(buddy);
                    let old_addr = a_before;
                    lemma_block_bytes_min();
                    assert(order as nat == o as nat + 1);
                    assert(block_bytes(order as nat) == 2 * s);
                    assert(buddy < a_before ==> addr == buddy && buddy + s == a_before);
                    assert(buddy >= a_before ==> addr == a_before && a_before + s == buddy);
                    assert(self.block_fits(addr as int, order as nat));
                    assert forall|p: int, i: int|
                        0 <= p < self.lists@.len() && 0 <= i < self.lists@[p].len() implies apart(
                        addr as int,
                        order as nat,
                        #[trigger] self.lists@[p][i] as int,
                        p as nat,
                    ) by {
                        let j = if p == o && i >= k { i + 1 } else { i };
                        assert(self.lists@[p][i] == lists1[p][j]);
                        assert(apart(buddy as int, o as nat, self.lists@[p][i] as int, p as nat));
                        assert(apart(a_before as int, o as nat, lists1[p][j] as int, p as nat));
                    }
                    assert(region(self.lists@) + block_range(addr as int, order as nat) =~= region(
                        lists1,
                    ) + block_range(old_addr as int, o as nat)) by {
                        assert forall|x: int| block_range(buddy as int, o as nat).contains(x) implies region(lists1).contains(x) by {
                            assert(covers(lists1, o as int, k, x));
                        }
                    }
                }
            } else {
                merging = false;
            }
        }
        proof {
            self.lemma_fits_ok(addr as int, order as nat);
            if pre.is_coalesced() {
                self.lemma_wf_aligned_list(order as int);
                lemma_block_bytes(order as nat);
                lemma_buddy_pair(start, addr as int, order as nat);
                lemma_push_coalesced(self.lists@, start, top, order as int, addr);
            }
        }
        let ghost lists2 = self.lists@;
        self.push_free(order, addr);
        proof {
            let o0 = order0 as nat;
            lemma_region_push(lists2, order as int, addr);
            lemma_region_size(self.lists@);
            lemma_region_size(pre.lists@);
            let r = block_range(addr0 as int, o0);
            lemma_block_bytes(o0);
            vstd::set_lib::lemma_int_range(addr0 as int, addr0 + block_bytes(o0));
            assert(region(pre.lists@).disjoint(r)) by {
                assert forall|x: int| region(pre.lists@).contains(x) implies !r.contains(x) by {
                    let (p, i) = choose|p: int, i: int| #[trigger] covers(pre.lists@, p, i, x);
                    assert(apart(addr0 as int, o0, pre.lists@[p][i] as int, p as nat));
                }
            }
            vstd::set_lib::lemma_set_disjoint_lens(region(pre.lists@), r);
        }
    }
}

/// `x` rounded down to a multiple of 64.
pub open spec fn round_down_64(x: int) -> int {
    x - x % 64
}

/// `x` rounded up to a multiple of 64.
pub open spec fn round_up_64(x: int) -> int {
    round_down_64(x + 63)
}

/// Rounding to 64 gives the multiple of 64 nearest to `x` on the chosen side.
pub proof fn lemma_round_64(x: int)
    ensures
        round_down_64(x) % 64 == 0,
        x - 64 < round_down_64(x) <= x,
        round_up_64(x) % 64 == 0,
        x <= round_up_64(x) < x + 64,
{
}

/// A block of order `o` at `a` is as large as the carving of the heap
/// `[start, end)` into blocks allows: the next order would not fit in what is left
/// of the heap, or would not be aligned.
pub open spec fn carved_maximal(start: int, end: int, top: nat, a: int, o: nat) -> bool {
    o == top || !(block_bytes(o + 1) <= end - a && (a - start) % (block_bytes(o + 1) as int) == 0)
}

/// A buddy allocator over a heap that starts out empty.
pub struct BuddyAllocator {
    inner: BuddyState,
}

impl BuddyAllocator {
    /// The allocator's bookkeeping.
    pub closed spec fn state(self) -> BuddyState {
        self.inner
    }

    /// The allocator's invariant.
    pub open spec fn wf(self) -> bool {
        self.state().wf()
    }

    proof fn lemma_tags_kept(pre: BuddyState, post: BuddyState)
        requires
            pre.wf(),
            post.memory@ == pre.memory@,
            post.lists@ == pre.lists@,
        ensures
            post.tags_sound(),
    {
        assert forall|a: int, o: int|
            #![trigger post.tag_at(a), tag_of(o)]
            0 <= a <= usize::MAX && a % 64 == 0 && 0 <= o < 32 && post.tag_at(a) == tag_of(o)
                implies post.lists@[o].contains(a as usize) by {
            assert(post.tag_at(a) == pre.tag_at(a));
        }
    }

    /// A fresh allocator: no heap, no free block.
    pub fn new() -> (allocator: Self)
        ensures
            allocator.wf(),
            allocator.state().start() == 0,
            allocator.state().end() == 0,
            allocator.state().top_order() == 0,
            allocator.state().free_blocks() == Seq::new(
                NUM_ORDERS as nat,
                |o: int| Seq::<usize>::empty(),
            ),
            allocator.state().is_coalesced(),
    {
        BuddyAllocator { inner: BuddyState::new() }
    }

    /// Hands the heap `[heap_start, heap_end)` to the allocator: the bounds are
    /// rounded inward to multiples of 64, the largest order becomes the largest one
    /// (below 32) whose block fits the heap, and the heap is carved from its start
    /// into the largest aligned blocks that fit, each going to the head of its list.
    #[verifier::spinoff_prover]
    #[verifier::rlimit(40)]
    pub fn init_buddy_alloc(&mut self, heap_start: usize, heap_end: usize)
        requires
            old(self).wf(),
            forall|o: int| 0 <= o < NUM_ORDERS ==> #[trigger] old(self).state().free_blocks()[o].len() == 0,
            heap_start != 0,
            heap_start <= heap_end,
            heap_start <= usize::MAX - 63,
        ensures
            final(self).wf(),
            final(self).state().start() == round_up_64(heap_start as int),
            final(self).state().end() == round_down_64(heap_end as int),
            ({
                let st = final(self).state();
                &&& st.is_coalesced()
                &&& if st.end() <= st.start() {
                    &&& st.top_order() == 0
                    &&& st.free_blocks() == old(self).state().free_blocks()
                } else {
                    &&& st.top_order() < NUM_ORDERS
                    &&& block_bytes(st.top_order()) <= st.end() - st.start()
                    &&& forall|m: nat|
                        st.top_order() < m < NUM_ORDERS ==> #[trigger] block_bytes(m) > st.end()
                            - st.start()
                    &&& st.free_region() == vstd::set_lib::set_int_range(st.start(), st.end())
                    &&& st.free_total() == st.end() - st.start()
                    &&& forall|o: int, i: int|
                        0 <= o < NUM_ORDERS && 0 <= i < st.free_blocks()[o].len()
                            ==> carved_maximal(
                            st.start(),
                            st.end(),
                            st.top_order(),
                            #[trigger] st.free_blocks()[o][i] as int,
                            o as nat,
                        )
                    &&& forall|o: int, i: int, j: int|
                        0 <= o < NUM_ORDERS && 0 <= i < j < st.free_blocks()[o].len()
                            ==> #[trigger] st.free_blocks()[o][i] > #[trigger] st.free_blocks()[o][j]
                }
            }),
    {
        let aligned_start = (heap_start + (MIN_BLOCK_SIZE - 1)) & !(MIN_BLOCK_SIZE - 1);
        let aligned_end = heap_end & !(MIN_BLOCK_SIZE - 1);
        proof {
            let x = (heap_start + 63) as usize;
            assert(x & !63usize == x - x % 64) by (bit_vector);
            assert(heap_end & !63usize == heap_end - heap_end % 64) by (bit_vector);
            broadcast use vstd::layout::layout_of_primitives;
            vstd::layout::unsigned_int_max_values();
            vstd::arithmetic::power2::lemma2_to64();
            vstd::arithmetic::power2::lemma2_to64_rest();
            assert(usize::MAX == 0xffff_ffff || usize::MAX == 0xffff_ffff_ffff_ffff);
            lemma_word_size();
            lemma_block_bytes(0);
        }
        let ghost pre = self.inner;
        proof {
            assert forall|o: int| 0 <= o < NUM_ORDERS implies #[trigger] pre.lists@[o].len() == 0 by {
                assert(old(self).state().free_blocks()[o].len() == 0);
            }
        }
        self.inner.heap_start = aligned_start;
        self.inner.heap_end = aligned_end;
        if aligned_end <= aligned_start {
            self.inner.max_order = 0;
            proof {
                assert(self.inner.lists@ == pre.lists@);
                Self::lemma_tags_kept(pre, self.inner);
                assert forall|o: int| 0 <= o < NUM_ORDERS implies #[trigger] self.inner.list_linked(o) by {
                    assert(pre.list_linked(o));
                }
            }
            return ;
        }
        let total = aligned_end - aligned_start;
        let mut max_order: usize = 0;
        while max_order + 1 < NUM_ORDERS && block_size(max_order) <= total / 2
            invariant
                max_order < NUM_ORDERS,
                block_bytes(max_order as nat) <= total,
                total <= usize::MAX,
            decreases NUM_ORDERS - max_order,
        {
            proof {
                lemma_block_bytes(max_order as nat);
            }
            max_order += 1;
        }
        proof {
            lemma_block_bytes(max_order as nat);
            assert forall|m: nat| max_order < m < NUM_ORDERS implies #[trigger] block_bytes(m) > total by {
                lemma_block_bytes_grow(max_order as nat + 1, m);
            }
        }
        self.inner.max_order = max_order;
        proof {
            assert forall|o: int| 0 <= o < NUM_ORDERS implies #[trigger] self.inner.list_linked(o) by {
                assert(pre.list_linked(o));
            }
            Self::lemma_tags_kept(pre, self.inner);
            assert(self.inner.wf());
            assert(region(self.inner.lists@) =~= vstd::set_lib::set_int_range(
                aligned_start as int,
                aligned_start as int,
            ));
        }
        let mut offset: usize = 0;
        while offset < total
            invariant
                self.inner.wf(),
                self.inner.heap_start == aligned_start,
                self.inner.heap_end == aligned_end,
                self.inner.max_order == max_order,
                aligned_start < aligned_end,
                total == aligned_end - aligned_start,
                aligned_start % 64 == 0,
                total % 64 == 0,
                offset % 64 == 0,
                offset <= total,
                forall|m: nat| max_order < m < NUM_ORDERS ==> #[trigger] block_bytes(m) > total,
                region(self.inner.lists@) == vstd::set_lib::set_int_range(
                    aligned_start as int,
                    aligned_start + offset,
                ),
                forall|o: int, i: int|
                    0 <= o < NUM_ORDERS && 0 <= i < self.inner.lists@[o].len() ==> #[trigger] self.inner.lists@[o][i]
                        + block_bytes(o as nat) <= aligned_start + offset,
                forall|o: int, i: int|
                    0 <= o < NUM_ORDERS && 0 <= i < self.inner.lists@[o].len() ==> carved_maximal(
                        aligned_start as int,
                        aligned_end as int,
                        max_order as nat,
                        #[trigger] self.inner.lists@[o][i] as int,
                        o as nat,
                    ),
                forall|o: int, i: int, j: int|
                    0 <= o < NUM_ORDERS && 0 <= i < j < self.inner.lists@[o].len()
                        ==> #[trigger] self.inner.lists@[o][i] > #[trigger] self.inner.lists@[o][j],
            decreases total - offset,
        {
            let remaining = total - offset;
            let mut order = max_order;
            proof {
                lemma_block_bytes_grow(order as nat, max_order as nat);
                lemma_block_bytes_min();
                vstd::arithmetic::power2::lemma2_to64();
                assert(block_bytes(0) == 64);
            }
            while order > 0 && !(block_size(order) <= remaining && offset % block_size(order) == 0)
                invariant
                    order <= max_order,
                    max_order < NUM_ORDERS,
                    block_bytes(max_order as nat) <= usize::MAX,
                    block_bytes(order as nat) <= block_bytes(max_order as nat),
                    block_bytes(order as nat) >= 64,
                    forall|m: nat|
                        order < m <= max_order ==> !(block_bytes(m) <= remaining && offset as int
                            % (#[trigger] block_bytes(m) as int) == 0),
                decreases order,
            {
                proof {
                    lemma_block_bytes_grow(order as nat, max_order as nat);
                }
                order -= 1;
                proof {
                    lemma_block_bytes_grow(order as nat, max_order as nat);
                    lemma_block_bytes_min();
                }
            }
            proof {
                lemma_block_bytes_grow(order as nat, max_order as nat);
                lemma_block_bytes(order as nat);
            }
            let size = block_size(order);
            let addr = aligned_start + offset;
            let ghost lists1 = self.inner.lists@;
            proof {
                assert(size <= remaining && offset % size == 0);
                assert(self.inner.block_fits(addr as int, order as nat));
                self.inner.lemma_fits_ok(addr as int, order as nat);
                lemma_block_bytes_min();
                assert forall|o: int, i: int|
                    0 <= o < lists1.len() && 0 <= i < lists1[o].len() implies apart(
                    addr as int,
                    order as nat,
                    #[trigger] lists1[o][i] as int,
                    o as nat,
                ) by {
                    assert(lists1[o][i] + block_bytes(o as nat) <= aligned_start + offset);
                }
            }
            self.inner.push_free(order, addr);
            proof {
                let l2 = self.inner.lists@;
                lemma_region_push(lists1, order as int, addr);
                assert(region(l2) =~= vstd::set_lib::set_int_range(
                    aligned_start as int,
                    aligned_start + offset + size,
                ));
                lemma_block_bytes_min();
                assert forall|o: int, i: int|
                    0 <= o < NUM_ORDERS && 0 <= i < l2[o].len() implies #[trigger] l2[o][i]
                    + block_bytes(o as nat) <= aligned_start + offset + size
                    && carved_maximal(
                    aligned_start as int,
                    aligned_end as int,
                    max_order as nat,
                    l2[o][i] as int,
                    o as nat,
                ) by {
                    if !(o == order && i == 0) {
                        let j = if o == order { i - 1 } else { i };
                        assert(l2[o][i] == lists1[o][j]);
                    } else {
                        if order < max_order {
                            assert(!(block_bytes(order as nat + 1) <= remaining && offset as int % (
                            block_bytes(order as nat + 1) as int) == 0));
                        }
                    }
                }
                assert forall|o: int, i: int, j: int|
                    0 <= o < NUM_ORDERS && 0 <= i < j < l2[o].len() implies #[trigger] l2[o][i]
                    > #[trigger] l2[o][j] by {
                    if o == order {
                        assert(l2[o][j] == lists1[o][j - 1]);
                        if i == 0 {
                            assert(lists1[o][j - 1] + block_bytes(o as nat) <= aligned_start + offset);
                        } else {
                            assert(l2[o][i] == lists1[o][i - 1]);
                        }
                    } else {
                        assert(l2[o][i] == lists1[o][i] && l2[o][j] == lists1[o][j]);
                    }
                }
            }
            offset += size;
        }
        proof {
            let st = self.inner;
            lemma_region_size(st.lists@);
            vstd::set_lib::lemma_int_range(aligned_start as int, aligned_end as int);
            st.lemma_carved_coalesced();
        }
    }

    /// Whether a heap has been handed to the allocator: its start is not zero and its
    /// end is not below its start.
    pub fn is_initialized(&self) -> (initialized: bool)
        ensures
            initialized == (self.state().start() != 0 && self.state().end() >= self.state().start()),
    {
        let state = &self.inner;
        state.heap_start != 0 && state.heap_end >= state.heap_start
    }

    /// The number of free bytes, counted by walking every free list up to the
    /// largest order.
    pub fn free_bytes(&self) -> (total: usize)
        requires
            self.wf(),
        ensures
            total == self.state().free_total(),
            total == self.state().free_region().len(),
    {
        let state = &self.inner;
        proof {
            state.lemma_total_bound();
        }
        let mut total: usize = 0;
        let mut order: usize = 0;
        while order <= state.max_order
            invariant
                state.wf(),
                order <= state.max_order + 1,
                total == total_bytes(state.lists@, order as nat),
                forall|n: nat| n <= NUM_ORDERS ==> #[trigger] total_bytes(state.lists@, n) <= state.free_total(),
                state.free_total() <= usize::MAX,
            decreases state.max_order + 1 - order,
        {
            proof {
                lemma_block_bytes_grow(order as nat, state.max_order as nat);
                assert(state.list_linked(order as int));
            }
            let ghost s = state.lists@[order as int];
            let mut cur = state.free_lists[order];
            let size = block_size(order);
            let ghost mut k: int = 0;
            while cur != 0
                invariant
                    state.wf(),
                    order <= state.max_order,
                    s == state.lists@[order as int],
                    size == block_bytes(order as nat),
                    0 <= k <= s.len(),
                    cur == if k < s.len() { s[k] } else { 0 },
                    total == total_bytes(state.lists@, order as nat) + k * size,
                    forall|n: nat| n <= NUM_ORDERS ==> #[trigger] total_bytes(state.lists@, n) <= state.free_total(),
                    state.free_total() <= usize::MAX,
                decreases s.len() - k,
            {
                proof {
                    if k >= s.len() {
                        assert(cur == 0);
                    }
                    assert(state.list_linked(order as int));
                    assert(state.block_ok(s[k] as int, order as nat));
                    if k + 1 < s.len() {
                        assert(state.block_ok(s[k + 1] as int, order as nat));
                    }
                    assert(total_bytes(state.lists@, order as nat + 1) == total_bytes(state.lists@, order as nat) + s.len() * size);
                    assert((k + 1) * size <= s.len() * size) by (nonlinear_arith)
                        requires
                            k + 1 <= s.len(),
                    ;
                    assert(total_bytes(state.lists@, order as nat + 1) <= state.free_total());
                    assert(k * size + size == (k + 1) * size) by (nonlinear_arith);
                    assert(total + size <= state.free_total());
                }
                total = total + size;
                cur = state.read_next(cur);
                proof {
                    assert(k * size + size == (k + 1) * size) by (nonlinear_arith);
                    k = k + 1;
                }
            }
            proof {
                if k < s.len() {
                    assert(state.block_ok(s[k] as int, order as nat));
                }
                assert(total_bytes(state.lists@, order as nat + 1) == total_bytes(state.lists@, order as nat) + s.len() * size);
            }
            order += 1;
        }
        total
    }

    /// Serves a request of `size` bytes aligned to `align`; returns the block's
    /// address, or zero when the request cannot be served.
    pub fn allocate(&mut self, size: usize, align: usize) -> (block: usize)
        requires
            old(self).wf(),
        ensures
            BuddyState::allocation(old(self).state(), final(self).state(), size as nat, align as nat, block),
    {
        self.inner.allocate(size, align)
    }

    /// Gives back the block at `addr` that served a request of `size` bytes aligned to
    /// `align`; a zero address is ignored.
    pub fn dealloc(&mut self, addr: usize, size: usize, align: usize)
        requires
            old(self).wf(),
            addr != 0 ==> old(self).state().may_free(addr as nat, size as nat, align as nat),
        ensures
            addr == 0 ==> final(self).state() == old(self).state(),
            addr != 0 ==> BuddyState::deallocation(old(self).state(), final(self).state(), addr, size as nat, align as nat),
    {
        if addr == 0 {
            return ;
        }
        self.inner.dealloc(addr, size, align);
    }
}

} // verus!

verus! {

/// A block handed out for a request may be given back for the same request, and
/// giving it back right away restores the free region and the free byte count.
pub proof fn lemma_free_undoes_allocate(
    s0: BuddyState,
    s1: BuddyState,
    s2: BuddyState,
    size: nat,
    align: nat,
    block: usize,
)
    requires
        BuddyState::allocation(s0, s1, size, align, block),
        block != 0,
    ensures
        s1.may_free(block as nat, size, align),
        BuddyState::deallocation(s1, s2, block, size, align) ==> s2.free_region() == s0.free_region()
            && s2.free_total() == s0.free_total(),
{
    assert(s1.request_order(size, align) == s0.request_order(size, align));
    if BuddyState::deallocation(s1, s2, block, size, align) {
        assert(s2.free_region() =~= s0.free_region());
    }
}

/// Two blocks handed out one after the other share no byte.
pub proof fn lemma_allocations_disjoint(
    s0: BuddyState,
    s1: BuddyState,
    s2: BuddyState,
    size1: nat,
    align1: nat,
    size2: nat,
    align2: nat,
    b1: usize,
    b2: usize,
)
    requires
        BuddyState::allocation(s0, s1, size1, align1, b1),
        BuddyState::allocation(s1, s2, size2, align2, b2),
        b1 != 0,
        b2 != 0,
    ensures
        apart(
            b1 as int,
            s0.request_order(size1, align1)->Some_0,
            b2 as int,
            s1.request_order(size2, align2)->Some_0,
        ),
{
    let o1 = s0.request_order(size1, align1)->Some_0;
    let o2 = s1.request_order(size2, align2)->Some_0;
    self::arith::lemma_block_bytes(o1);
    self::arith::lemma_block_bytes(o2);
    if !apart(b1 as int, o1, b2 as int, o2) {
        let x = if b1 < b2 { b2 as int } else { b1 as int };
        assert(block_range(b2 as int, o2).contains(x));
        assert(block_range(b1 as int, o1).contains(x));
        assert(s1.free_region().contains(x));
    }
}

/// The free bytes never outnumber the bytes of the heap.
pub proof fn lemma_free_within_heap(s: BuddyState)
    requires
        s.wf(),
    ensures
        s.free_region().finite(),
        s.free_region().len() == s.free_total(),
        s.free_region().subset_of(vstd::set_lib::set_int_range(s.start(), s.end())),
        s.free_total() <= if s.start() <= s.end() {
            s.end() - s.start()
        } else {
            0
        },
{
    s.lemma_total_bound();
    assert forall|x: int| s.free_region().contains(x) implies vstd::set_lib::set_int_range(
        s.start(),
        s.end(),
    ).contains(x) by {
        let (o, i) = choose|o: int, i: int| #[trigger] covers(s.free_blocks(), o, i, x);
        assert(s.block_ok(s.free_blocks()[o][i] as int, o as nat));
        self::arith::lemma_block_bytes(o as nat);
    }
}

/// What the allocator's invariant says of its free blocks: one list per order, the
/// largest order below their number, and every free block inside the heap, aligned
/// to its size from the heap start, and sharing no byte with another.
pub proof fn lemma_wf_facts(s: BuddyState)
    requires
        s.wf(),
    ensures
        s.free_blocks().len() == NUM_ORDERS,
        s.top_order() < NUM_ORDERS,
        block_bytes(s.top_order()) <= usize::MAX,
        s.start() % 64 == 0,
        s.end() % 64 == 0,
        s.end() <= usize::MAX - 63,
        s.start() == 0 ==> s.end() == 0,
        s.start() < s.end() ==> block_bytes(s.top_order()) <= s.end() - s.start(),
        forall|o: int, i: int|
            0 <= o < NUM_ORDERS && 0 <= i < s.free_blocks()[o].len() ==> #[trigger] s.free_blocks()[o][i]
                > 0 && s.block_fits(s.free_blocks()[o][i] as int, o as nat),
        blocks_disjoint(s.free_blocks()),
{
    assert forall|o: int, i: int|
        0 <= o < NUM_ORDERS && 0 <= i < s.free_blocks()[o].len() implies #[trigger] s.free_blocks()[o][i]
        > 0 && s.block_fits(s.free_blocks()[o][i] as int, o as nat) by {
        assert(s.block_ok(s.lists@[o][i] as int, o as nat));
    }
}

/// A block that may be given back still may be once another request has been
/// served.
pub proof fn lemma_may_free_after_allocate(
    s0: BuddyState,
    s1: BuddyState,
    addr: nat,
    size: nat,
    align: nat,
    size2: nat,
    align2: nat,
    block: usize,
)
    requires
        s0.may_free(addr, size, align),
        BuddyState::allocation(s0, s1, size2, align2, block),
    ensures
        s1.may_free(addr, size, align),
{
    if let Some(o) = s0.request_order(size, align) {
        lemma_apart_from_all_region(s0.free_blocks(), addr as int, o);
        lemma_apart_from_all_region(s1.free_blocks(), addr as int, o);
        assert(s1.free_region().subset_of(s0.free_region()));
    }
}

/// A block that may be given back still may be once another block, sharing no
/// byte with it, has been given back.
pub proof fn lemma_may_free_after_free(
    s0: BuddyState,
    s1: BuddyState,
    addr: nat,
    size: nat,
    align: nat,
    addr2: usize,
    size2: nat,
    align2: nat,
)
    requires
        s0.may_free(addr, size, align),
        BuddyState::deallocation(s0, s1, addr2, size2, align2),
        (match (s0.request_order(size, align), s0.request_order(size2, align2)) {
            (Some(o), Some(o2)) => apart(addr as int, o, addr2 as int, o2),
            _ => true,
        }),
    ensures
        s1.may_free(addr, size, align),
{
    if let Some(o) = s0.request_order(size, align) {
        lemma_apart_from_all_region(s0.free_blocks(), addr as int, o);
        lemma_apart_from_all_region(s1.free_blocks(), addr as int, o);
        if let Some(o2) = s0.request_order(size2, align2) {
            assert(block_range(addr as int, o).disjoint(block_range(addr2 as int, o2)));
        }
    }
}

/// What a request of `size` bytes aligned to `align` is served with. A block handed
/// out has the smallest order whose block holds the size, the alignment and the
/// smallest block of 64 bytes; it is the head of the smallest non-empty free list at
/// or above that order, split down; it lies in the heap, aligned to its size from the
/// heap start (so to a power-of-two `align` too), and exactly its bytes leave the free
/// region. No block is handed out only when no free list of an order whose block
/// holds both the size and the alignment has a block.
pub proof fn lemma_allocation_serves_request(
    s0: BuddyState,
    s1: BuddyState,
    size: nat,
    align: nat,
    block: usize,
)
    requires
        s0.wf(),
        BuddyState::allocation(s0, s1, size, align, block),
    ensures
        block == 0 ==> s1 == s0 && forall|p: nat|
            p <= s0.top_order() && #[trigger] block_bytes(p) >= size && block_bytes(p) >= align
                ==> s0.free_blocks()[p as int].len() == 0,
        block != 0 ==> exists|o: nat, found: nat|
            {
                &&& block_bytes(o) >= size
                &&& block_bytes(o) >= align
                &&& block_bytes(o) >= 64
                &&& forall|p: nat| p < o ==> #[trigger] block_bytes(p) < size || block_bytes(p) < align
                &&& o <= found <= s0.top_order()
                &&& s0.free_blocks()[found as int].len() > 0
                &&& block == s0.free_blocks()[found as int][0]
                &&& forall|p: nat| o <= p < found ==> #[trigger] s0.free_blocks()[p as int].len() == 0
                &&& s0.start() <= block
                &&& block + block_bytes(o) <= s0.end()
                &&& (block - s0.start()) % (block_bytes(o) as int) == 0
                &&& forall|k: nat|
                    align == #[trigger] vstd::arithmetic::power2::pow2(k) ==> (block - s0.start()) % (
                    align as int) == 0
                &&& s1.free_region() == s0.free_region() - block_range(block as int, o)
                &&& s1.free_total() + block_bytes(o) == s0.free_total()
            },
{
    lemma_block_bytes_min();
    lemma_wf_facts(s0);
    let needed = needed_bytes(size, align);
    lemma_fitting_order(needed, 0, s0.top_order());
    match s0.request_order(size, align) {
        None => {
            assert(block == 0);
        },
        Some(o) => {
            lemma_first_nonempty(s0.free_blocks(), o, s0.top_order());
            match first_nonempty(s0.free_blocks(), o, s0.top_order()) {
                None => {
                    assert forall|p: nat|
                        p <= s0.top_order() && #[trigger] block_bytes(p) >= size && block_bytes(p)
                            >= align implies s0.free_blocks()[p as int].len() == 0 by {
                        if p < o {
                            assert(block_bytes(p) < needed);
                        }
                    }
                },
                Some(found) => {
                    assert(s0.free_blocks()[found as int][0] > 0);
                    assert(block != 0);
                    assert(s1.block_fits(block as int, o));
                    assert forall|k: nat|
                        align == #[trigger] vstd::arithmetic::power2::pow2(k) implies (block
                        - s0.start()) % (align as int) == 0 by {
                        lemma_block_bytes(o);
                        if k > o + 6 {
                            vstd::arithmetic::power2::lemma_pow2_strictly_increases(o + 6, k);
                        }
                        let d = (o + 6 - k) as nat;
                        vstd::arithmetic::power2::lemma_pow2_adds(k, d);
                        vstd::arithmetic::power2::lemma_pow2_pos(k);
                        vstd::arithmetic::power2::lemma_pow2_pos(d);
                        assert(k + d == o + 6);
                        self::arith::lemma_mod_of_multiple(
                            block - s0.start(),
                            align as int,
                            vstd::arithmetic::power2::pow2(d) as int,
                        );
                    }
                    assert forall|p: nat| p < o implies #[trigger] block_bytes(p) < size
                        || block_bytes(p) < align by {
                        assert(block_bytes(p) < needed);
                    }
                    assert({
                        &&& block_bytes(o) >= size
                        &&& block_bytes(o) >= align
                        &&& block_bytes(o) >= 64
                        &&& forall|p: nat| p < o ==> #[trigger] block_bytes(p) < size || block_bytes(p) < align
                        &&& o <= found <= s0.top_order()
                        &&& s0.free_blocks()[found as int].len() > 0
                        &&& block == s0.free_blocks()[found as int][0]
                        &&& forall|p: nat| o <= p < found ==> #[trigger] s0.free_blocks()[p as int].len() == 0
                        &&& s0.start() <= block
                        &&& block + block_bytes(o) <= s0.end()
                        &&& (block - s0.start()) % (block_bytes(o) as int) == 0
                        &&& forall|k: nat|
                            align == #[trigger] vstd::arithmetic::power2::pow2(k) ==> (block - s0.start())
                                % (align as int) == 0
                        &&& s1.free_region() == s0.free_region() - block_range(block as int, o)
                        &&& s1.free_total() + block_bytes(o) == s0.free_total()
                    });
                },
            }
        },
    }
}

/// What giving back a block does. When no order up to the largest one holds both
/// the request's size and its alignment, nothing changes. Otherwise the block is
/// taken to have the smallest order whose block holds the size, the alignment and
/// the smallest block of 64 bytes; exactly its bytes join the free region, the free
/// byte count grows by its size, the heap and its largest order stay, and merging
/// keeps free buddies from both being listed at one order.
pub proof fn lemma_deallocation_returns_block(
    s0: BuddyState,
    s1: BuddyState,
    addr: usize,
    size: nat,
    align: nat,
)
    requires
        BuddyState::deallocation(s0, s1, addr, size, align),
    ensures
        s1.start() == s0.start(),
        s1.end() == s0.end(),
        s1.top_order() == s0.top_order(),
        (forall|p: nat| p <= s0.top_order() ==> #[trigger] block_bytes(p) < size || block_bytes(p) < align)
            ==> s1 == s0,
        !(forall|p: nat| p <= s0.top_order() ==> #[trigger] block_bytes(p) < size || block_bytes(p) < align)
            ==> exists|o: nat|
            {
                &&& o <= s0.top_order()
                &&& block_bytes(o) >= size
                &&& block_bytes(o) >= align
                &&& block_bytes(o) >= 64
                &&& forall|p: nat| p < o ==> #[trigger] block_bytes(p) < size || block_bytes(p) < align
                &&& s1.free_region() == s0.free_region() + block_range(addr as int, o)
                &&& s1.free_total() == s0.free_total() + block_bytes(o)
                &&& s0.is_coalesced() ==> s1.is_coalesced()
            },
{
    lemma_block_bytes_min();
    let needed = needed_bytes(size, align);
    lemma_fitting_order(needed, 0, s0.top_order());
    match s0.request_order(size, align) {
        None => {
            assert forall|p: nat| p <= s0.top_order() implies #[trigger] block_bytes(p) < size
                || block_bytes(p) < align by {
                assert(block_bytes(p) < needed);
            }
        },
        Some(o) => {
            assert(!(block_bytes(o) < size || block_bytes(o) < align));
            assert forall|p: nat| p < o implies #[trigger] block_bytes(p) < size || block_bytes(p)
                < align by {
                assert(block_bytes(p) < needed);
            }
            assert({
                &&& o <= s0.top_order()
                &&& block_bytes(o) >= size
                &&& block_bytes(o) >= align
                &&& block_bytes(o) >= 64
                &&& forall|p: nat| p < o ==> #[trigger] block_bytes(p) < size || block_bytes(p) < align
                &&& s1.free_region() == s0.free_region() + block_range(addr as int, o)
                &&& s1.free_total() == s0.free_total() + block_bytes(o)
                &&& s0.is_coalesced() ==> s1.is_coalesced()
            });
        },
    }
}

} // verus!
