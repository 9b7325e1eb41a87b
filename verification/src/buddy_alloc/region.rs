use vstd::prelude::*;

verus! {

use vstd::set_lib::{set_int_range, lemma_int_range, lemma_set_disjoint_lens};
use super::arith::{block_bytes, lemma_block_bytes};

/// Whether byte `x` lies in the block of the given order starting at `addr`.
pub open spec fn in_block(addr: int, order: nat, x: int) -> bool {
    addr <= x < addr + block_bytes(order)
}

/// The bytes of the block of the given order starting at `addr`.
pub open spec fn block_range(addr: int, order: nat) -> Set<int> {
    set_int_range(addr, addr + block_bytes(order))
}

/// Two blocks do not share a byte.
pub open spec fn apart(a: int, oa: nat, b: int, ob: nat) -> bool {
    a + block_bytes(oa) <= b || b + block_bytes(ob) <= a
}

/// Byte `x` lies in the `i`-th block of the free list of order `o`.
pub open spec fn covers(lists: Seq<Seq<usize>>, o: int, i: int, x: int) -> bool {
    &&& 0 <= o < lists.len()
    &&& 0 <= i < lists[o].len()
    &&& in_block(lists[o][i] as int, o as nat, x)
}

/// The bytes covered by the blocks on the free lists, the list at index `o`
/// holding blocks of order `o`.
pub open spec fn region(lists: Seq<Seq<usize>>) -> Set<int> {
    Set::new(|x: int| exists|o: int, i: int| #[trigger] covers(lists, o, i, x))
}

/// No two listed blocks share a byte.
pub open spec fn blocks_disjoint(lists: Seq<Seq<usize>>) -> bool {
    forall|o1: int, i1: int, o2: int, i2: int|
        #![trigger lists[o1][i1], lists[o2][i2]]
        0 <= o1 < lists.len() && 0 <= i1 < lists[o1].len() && 0 <= o2 < lists.len() && 0 <= i2
            < lists[o2].len() && (o1 != o2 || i1 != i2) ==> apart(
            lists[o1][i1] as int,
            o1 as nat,
            lists[o2][i2] as int,
            o2 as nat,
        )
}

/// A block shares no byte with any listed block.
pub open spec fn apart_from_all(lists: Seq<Seq<usize>>, a: int, oa: nat) -> bool {
    forall|o: int, i: int|
        0 <= o < lists.len() && 0 <= i < lists[o].len() ==> apart(
            a,
            oa,
            #[trigger] lists[o][i] as int,
            o as nat,
        )
}

/// Bytes held by the free lists of orders below `n`.
pub open spec fn total_bytes(lists: Seq<Seq<usize>>, n: nat) -> nat
    decreases n,
{
    if n == 0 {
        0
    } else {
        total_bytes(lists, (n - 1) as nat) + lists[n - 1].len() * block_bytes((n - 1) as nat)
    }
}

spec fn list_region(s: Seq<usize>, o: nat) -> Set<int>
    decreases s.len(),
{
    if s.len() == 0 {
        Set::empty()
    } else {
        list_region(s.drop_last(), o) + block_range(s.last() as int, o)
    }
}

spec fn prefix_region(lists: Seq<Seq<usize>>, n: nat) -> Set<int>
    decreases n,
{
    if n == 0 {
        Set::empty()
    } else {
        prefix_region(lists, (n - 1) as nat) + list_region(lists[n - 1], (n - 1) as nat)
    }
}

proof fn lemma_block_range(a: int, o: nat)
    ensures
        block_range(a, o).finite(),
        block_range(a, o).len() == block_bytes(o),
        forall|x: int| #[trigger] block_range(a, o).contains(x) <==> in_block(a, o, x),
{
    lemma_block_bytes(o);
    lemma_int_range(a, a + block_bytes(o));
}

proof fn lemma_list_region(s: Seq<usize>, o: nat)
    requires
        forall|i: int, j: int|
            0 <= i < s.len() && 0 <= j < s.len() && i != j ==> apart(
                #[trigger] s[i] as int,
                o,
                #[trigger] s[j] as int,
                o,
            ),
    ensures
        list_region(s, o).finite(),
        list_region(s, o).len() == s.len() * block_bytes(o),
        forall|x: int|
            #[trigger] list_region(s, o).contains(x) <==> exists|i: int|
                0 <= i < s.len() && in_block(#[trigger] s[i] as int, o, x),
    decreases s.len(),
{
    if s.len() > 0 {
        let t = s.drop_last();
        let n = s.len() - 1;
        assert forall|i: int, j: int|
            0 <= i < t.len() && 0 <= j < t.len() && i != j implies apart(
            #[trigger] t[i] as int,
            o,
            #[trigger] t[j] as int,
            o,
        ) by {
            assert(t[i] == s[i] && t[j] == s[j]);
        }
        lemma_list_region(t, o);
        let r = block_range(s.last() as int, o);
        lemma_block_range(s.last() as int, o);
        assert(list_region(t, o).disjoint(r)) by {
            assert forall|x: int| list_region(t, o).contains(x) implies !r.contains(x) by {
                let i = choose|i: int| 0 <= i < t.len() && in_block(#[trigger] t[i] as int, o, x);
                assert(t[i] == s[i]);
                assert(apart(s[i] as int, o, s[n] as int, o));
            }
        }
        lemma_set_disjoint_lens(list_region(t, o), r);
        assert(t.len() * block_bytes(o) + block_bytes(o) == s.len() * block_bytes(o))
            by (nonlinear_arith)
            requires
                t.len() + 1 == s.len(),
        ;
        assert forall|x: int| #[trigger] list_region(s, o).contains(x) <==> exists|i: int|
            0 <= i < s.len() && in_block(#[trigger] s[i] as int, o, x) by {
            if list_region(t, o).contains(x) {
                let i = choose|i: int| 0 <= i < t.len() && in_block(#[trigger] t[i] as int, o, x);
                assert(t[i] == s[i]);
            }
            if r.contains(x) {
                assert(in_block(s[n] as int, o, x));
            }
            if exists|i: int| 0 <= i < s.len() && in_block(#[trigger] s[i] as int, o, x) {
                let i = choose|i: int| 0 <= i < s.len() && in_block(#[trigger] s[i] as int, o, x);
                if i < n {
                    assert(t[i] == s[i]);
                    assert(list_region(t, o).contains(x));
                } else {
                    assert(r.contains(x));
                }
            }
        }
    }
}

proof fn lemma_prefix_region(lists: Seq<Seq<usize>>, n: nat)
    requires
        n <= lists.len(),
        blocks_disjoint(lists),
    ensures
        prefix_region(lists, n).finite(),
        prefix_region(lists, n).len() == total_bytes(lists, n),
        forall|x: int|
            #[trigger] prefix_region(lists, n).contains(x) <==> exists|o: int, i: int|
                0 <= o < n && #[trigger] covers(lists, o, i, x),
    decreases n,
{
    if n > 0 {
        let m = (n - 1) as nat;
        lemma_prefix_region(lists, m);
        let s = lists[m as int];
        assert forall|i: int, j: int|
            0 <= i < s.len() && 0 <= j < s.len() && i != j implies apart(
            #[trigger] s[i] as int,
            m,
            #[trigger] s[j] as int,
            m,
        ) by {
            assert(lists[m as int][i] == s[i] && lists[m as int][j] == s[j]);
        }
        lemma_list_region(s, m);
        let p = prefix_region(lists, m);
        let l = list_region(s, m);
        assert(p.disjoint(l)) by {
            assert forall|x: int| p.contains(x) implies !l.contains(x) by {
                let (o, i) = choose|o: int, i: int| 0 <= o < m && #[trigger] covers(lists, o, i, x);
                if l.contains(x) {
                    let j = choose|j: int| 0 <= j < s.len() && in_block(#[trigger] s[j] as int, m, x);
                    assert(lists[m as int][j] == s[j]);
                    assert(apart(lists[o][i] as int, o as nat, lists[m as int][j] as int, m));
                }
            }
        }
        lemma_set_disjoint_lens(p, l);
        assert forall|x: int| #[trigger] prefix_region(lists, n).contains(x) <==> exists|o: int, i: int|
            0 <= o < n && #[trigger] covers(lists, o, i, x) by {
            if l.contains(x) {
                let j = choose|j: int| 0 <= j < s.len() && in_block(#[trigger] s[j] as int, m, x);
                assert(covers(lists, m as int, j, x));
            }
            if exists|o: int, i: int| 0 <= o < n && #[trigger] covers(lists, o, i, x) {
                let (o, i) = choose|o: int, i: int| 0 <= o < n && #[trigger] covers(lists, o, i, x);
                if o == m {
                    assert(in_block(s[i] as int, m, x));
                    assert(l.contains(x));
                } else {
                    assert(p.contains(x));
                }
            }
        }
    }
}

/// The free region is finite and holds exactly as many bytes as the free lists count.
pub proof fn lemma_region_size(lists: Seq<Seq<usize>>)
    requires
        blocks_disjoint(lists),
    ensures
        region(lists).finite(),
        region(lists).len() == total_bytes(lists, lists.len()),
{
    lemma_prefix_region(lists, lists.len());
    assert(region(lists) =~= prefix_region(lists, lists.len()));
}

} // verus!

verus! {

/// Prepending a block that is apart from every listed block keeps the blocks
/// disjoint and adds exactly its bytes to the region.
pub proof fn lemma_region_push(lists: Seq<Seq<usize>>, o: int, a: usize)
    requires
        0 <= o < lists.len(),
        blocks_disjoint(lists),
        apart_from_all(lists, a as int, o as nat),
    ensures
        blocks_disjoint(lists.update(o, seq![a] + lists[o])),
        region(lists.update(o, seq![a] + lists[o])) =~= region(lists) + block_range(a as int, o as nat),
{
    let l2 = lists.update(o, seq![a] + lists[o]);
    lemma_block_range(a as int, o as nat);
    assert forall|o1: int, i1: int, o2: int, i2: int|
        0 <= o1 < l2.len() && 0 <= i1 < l2[o1].len() && 0 <= o2 < l2.len() && 0 <= i2
            < l2[o2].len() && (o1 != o2 || i1 != i2) implies apart(
        #[trigger] l2[o1][i1] as int,
        o1 as nat,
        #[trigger] l2[o2][i2] as int,
        o2 as nat,
    ) by {
        let j1 = if o1 == o { i1 - 1 } else { i1 };
        let j2 = if o2 == o { i2 - 1 } else { i2 };
        if o1 == o && i1 == 0 {
            assert(l2[o1][i1] == a);
            if !(o2 == o && i2 == 0) {
                assert(l2[o2][i2] == lists[o2][j2]);
                assert(apart(a as int, o as nat, lists[o2][j2] as int, o2 as nat));
            }
        } else if o2 == o && i2 == 0 {
            assert(l2[o1][i1] == lists[o1][j1]);
            assert(apart(a as int, o as nat, lists[o1][j1] as int, o1 as nat));
        } else {
            assert(l2[o1][i1] == lists[o1][j1]);
            assert(l2[o2][i2] == lists[o2][j2]);
            assert(lists[o1][j1] == lists[o1][j1] && lists[o2][j2] == lists[o2][j2]);
        }
    }
    assert forall|x: int|
        region(l2).contains(x) <==> (region(lists) + block_range(a as int, o as nat)).contains(x) by {
        if region(l2).contains(x) {
            let (p, i) = choose|p: int, i: int| #[trigger] covers(l2, p, i, x);
            if p == o && i == 0 {
            } else {
                let j = if p == o { i - 1 } else { i };
                assert(covers(lists, p, j, x));
            }
        }
        if region(lists).contains(x) {
            let (p, i) = choose|p: int, i: int| #[trigger] covers(lists, p, i, x);
            let j = if p == o { i + 1 } else { i };
            assert(covers(l2, p, j, x));
        }
        if block_range(a as int, o as nat).contains(x) {
            assert(covers(l2, o, 0, x));
        }
    }
}

/// Taking a block off a list keeps the blocks disjoint, leaves the block apart from
/// every remaining one, and removes exactly its bytes from the region.
pub proof fn lemma_region_remove(lists: Seq<Seq<usize>>, o: int, k: int)
    requires
        0 <= o < lists.len(),
        0 <= k < lists[o].len(),
        blocks_disjoint(lists),
    ensures
        blocks_disjoint(lists.update(o, lists[o].remove(k))),
        apart_from_all(lists.update(o, lists[o].remove(k)), lists[o][k] as int, o as nat),
        region(lists.update(o, lists[o].remove(k))) =~= region(lists) - block_range(
            lists[o][k] as int,
            o as nat,
        ),
{
    let l2 = lists.update(o, lists[o].remove(k));
    let b = lists[o][k];
    lemma_block_range(b as int, o as nat);
    assert forall|o1: int, i1: int, o2: int, i2: int|
        0 <= o1 < l2.len() && 0 <= i1 < l2[o1].len() && 0 <= o2 < l2.len() && 0 <= i2
            < l2[o2].len() && (o1 != o2 || i1 != i2) implies apart(
        #[trigger] l2[o1][i1] as int,
        o1 as nat,
        #[trigger] l2[o2][i2] as int,
        o2 as nat,
    ) by {
        let j1 = if o1 == o && i1 >= k { i1 + 1 } else { i1 };
        let j2 = if o2 == o && i2 >= k { i2 + 1 } else { i2 };
        assert(l2[o1][i1] == lists[o1][j1]);
        assert(l2[o2][i2] == lists[o2][j2]);
    }
    assert forall|p: int, i: int|
        0 <= p < l2.len() && 0 <= i < l2[p].len() implies apart(
        b as int,
        o as nat,
        #[trigger] l2[p][i] as int,
        p as nat,
    ) by {
        let j = if p == o && i >= k { i + 1 } else { i };
        assert(l2[p][i] == lists[p][j]);
        assert(lists[o][k] == b);
    }
    assert forall|x: int|
        region(l2).contains(x) <==> (region(lists) - block_range(b as int, o as nat)).contains(x) by {
        if region(l2).contains(x) {
            let (p, i) = choose|p: int, i: int| #[trigger] covers(l2, p, i, x);
            let j = if p == o && i >= k { i + 1 } else { i };
            assert(l2[p][i] == lists[p][j]);
            assert(covers(lists, p, j, x));
            assert(apart(b as int, o as nat, lists[p][j] as int, p as nat));
        }
        if region(lists).contains(x) && !block_range(b as int, o as nat).contains(x) {
            let (p, i) = choose|p: int, i: int| #[trigger] covers(lists, p, i, x);
            assert(p != o || i != k);
            let j = if p == o && i > k { i - 1 } else { i };
            assert(l2[p][j] == lists[p][i]);
            assert(covers(l2, p, j, x));
        }
    }
}

/// A block shares no byte with any listed block exactly when it shares no byte
/// with the region the lists cover.
pub proof fn lemma_apart_from_all_region(lists: Seq<Seq<usize>>, a: int, oa: nat)
    ensures
        apart_from_all(lists, a, oa) <==> block_range(a, oa).disjoint(region(lists)),
{
    lemma_block_range(a, oa);
    lemma_block_bytes(oa);
    if apart_from_all(lists, a, oa) {
        assert forall|x: int| block_range(a, oa).contains(x) implies !region(lists).contains(x) by {
            if region(lists).contains(x) {
                let (o, i) = choose|o: int, i: int| #[trigger] covers(lists, o, i, x);
                assert(apart(a, oa, lists[o][i] as int, o as nat));
            }
        }
    }
    if block_range(a, oa).disjoint(region(lists)) {
        assert forall|o: int, i: int|
            0 <= o < lists.len() && 0 <= i < lists[o].len() implies apart(
            a,
            oa,
            #[trigger] lists[o][i] as int,
            o as nat,
        ) by {
            let b = lists[o][i] as int;
            lemma_block_bytes(o as nat);
            if !apart(a, oa, b, o as nat) {
                let x = if a < b { b } else { a };
                assert(covers(lists, o, i, x));
                assert(region(lists).contains(x));
                assert(block_range(a, oa).contains(x));
            }
        }
    }
}

} // verus!
