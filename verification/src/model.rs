//! Mathematical model of the buddy allocator's free lists.
//!
//! A zone's free lists are modelled as a sequence of `FREE_LIST_LEN`
//! sequences of block-start frame identifiers, one inner sequence per order,
//! ordered from the head of the list to its tail. The functions here define
//! the shape invariants of that model and the exact transitions performed by
//! allocation (splitting a block down to the requested order) and by freeing
//! (coalescing a block with its free buddies). The allocator's executable
//! operations are specified against these functions, and the laws at the end
//! of this module are proved purely about them.

use vstd::prelude::*;
use vstd::arithmetic::power2::pow2;
use crate::buddy::{FREE_LIST_LEN, MAX_ORDER};

verus! {

/// `2^o`, as a mathematical integer.
pub open spec fn p2(o: int) -> int {
    pow2(o as nat) as int
}

/// The identifier of the buddy of the block starting at `id` of order `o`:
/// the sibling block it merges with to form a block of order `o + 1`.
/// Meaningful for `id` aligned to `2^o`.
pub open spec fn buddy_of(id: int, o: int) -> int {
    if id % p2(o + 1) == 0 {
        id + p2(o)
    } else {
        id - p2(o)
    }
}

/// The block of order `o` starting at frame `id` is aligned to its size and
/// lies entirely within a zone of `count` pages.
pub open spec fn block_wf(count: int, id: int, o: int) -> bool {
    &&& 0 <= o <= MAX_ORDER
    &&& 0 <= id
    &&& id % p2(o) == 0
    &&& id + p2(o) <= count
}

/// The page ranges of two blocks do not overlap.
pub open spec fn blocks_disjoint(id1: int, o1: int, id2: int, o2: int) -> bool {
    id1 + p2(o1) <= id2 || id2 + p2(o2) <= id1
}

/// Every entry of every list is a well-formed block of its list's order.
pub open spec fn lists_geometry(count: int, lists: Seq<Seq<int>>) -> bool {
    forall|o: int, p: int|
        0 <= o < lists.len() && 0 <= p < lists[o].len() ==> block_wf(
            count,
            #[trigger] lists[o][p],
            o,
        )
}

/// No block appears twice in one list.
pub open spec fn lists_no_dup(lists: Seq<Seq<int>>) -> bool {
    forall|o: int, p: int, q: int|
        0 <= o < lists.len() && 0 <= p < q < lists[o].len() ==> #[trigger] lists[o][p]
            != #[trigger] lists[o][q]
}

/// The page ranges of any two distinct free blocks do not overlap.
pub open spec fn lists_disjoint(lists: Seq<Seq<int>>) -> bool {
    forall|o1: int, p1: int, o2: int, p2: int|
        0 <= o1 < lists.len() && 0 <= p1 < lists[o1].len() && 0 <= o2 < lists.len() && 0 <= p2
            < lists[o2].len() && (o1 != o2 || p1 != p2) ==> blocks_disjoint(
            #[trigger] lists[o1][p1],
            o1,
            #[trigger] lists[o2][p2],
            o2,
        )
}

/// No two free blocks of the same order below `MAX_ORDER` are buddies:
/// freeing always merges such pairs, so they never persist.
pub open spec fn lists_coalesced(lists: Seq<Seq<int>>) -> bool {
    forall|o: int, p1: int, p2: int|
        0 <= o < MAX_ORDER && o < lists.len() && 0 <= p1 < lists[o].len() && 0 <= p2
            < lists[o].len() ==> #[trigger] lists[o][p2] != buddy_of(#[trigger] lists[o][p1], o)
}

/// The abstract well-formedness of a zone's free lists over a zone of
/// `count` pages.
pub open spec fn lists_wf(count: int, lists: Seq<Seq<int>>) -> bool {
    &&& lists.len() == FREE_LIST_LEN
    &&& lists_geometry(count, lists)
    &&& lists_no_dup(lists)
    &&& lists_disjoint(lists)
    &&& lists_coalesced(lists)
}

/// The smallest order `f >= o` whose free list is non-empty, or
/// `FREE_LIST_LEN` if every list from `o` upward is empty.
pub open spec fn first_free_order(lists: Seq<Seq<int>>, o: int) -> int
    decreases FREE_LIST_LEN - o,
{
    if o < 0 || o >= FREE_LIST_LEN {
        FREE_LIST_LEN as int
    } else if lists[o].len() > 0 {
        o
    } else {
        first_free_order(lists, o + 1)
    }
}

/// Removes the head of list `f`.
pub open spec fn take_head(lists: Seq<Seq<int>>, f: int) -> Seq<Seq<int>> {
    lists.update(f, lists[f].drop_first())
}

/// Pushes, for every order `lo <= o < hi`, the upper half `id + 2^o` of the
/// block of order `o + 1` starting at `id` onto the front of list `o`: the
/// lists left behind when a block of order `hi` at `id` is split down to a
/// block of order `lo` at `id`.
pub open spec fn split_links(lists: Seq<Seq<int>>, id: int, lo: int, hi: int) -> Seq<Seq<int>> {
    Seq::new(
        lists.len(),
        |o: int|
            if lo <= o < hi {
                seq![id + p2(o)] + lists[o]
            } else {
                lists[o]
            },
    )
}

/// The lists after freeing the block of order `o` starting at `id`: while
/// the buddy of the current block is free at the same order and the order is
/// below `MAX_ORDER`, the buddy is unlinked and the two halves merge into
/// the block of the next order starting at the lower of the two ids; the
/// final block is pushed onto the front of the list of its order.
pub open spec fn coalesce_lists(lists: Seq<Seq<int>>, id: int, o: int) -> Seq<Seq<int>>
    decreases MAX_ORDER - o,
{
    let b = buddy_of(id, o);
    if 0 <= o < MAX_ORDER && lists[o].contains(b) {
        let merged = if b < id {
            b
        } else {
            id
        };
        coalesce_lists(lists.update(o, lists[o].remove_value(b)), merged, o + 1)
    } else {
        lists.update(o, seq![id] + lists[o])
    }
}

/// The free lists left by the boot-time fill of a zone of `count` pages,
/// continued from cursor `frame` at current order `ord`: descending from
/// the highest order, the largest aligned power-of-two block that fits
/// the remaining region is pushed onto the front of its order's list and
/// the cursor advances past it, until the zone is covered.
pub open spec fn greedy_fill(count: int, frame: int, ord: int, lists: Seq<Seq<int>>) -> Seq<
    Seq<int>,
>
    decreases count - frame, ord,
        via greedy_fill_decreases
{
    if frame >= count || ord < 0 {
        lists
    } else if count - frame < p2(ord) {
        if ord == 0 {
            lists
        } else {
            greedy_fill(count, frame, ord - 1, lists)
        }
    } else {
        greedy_fill(count, frame + p2(ord), ord, lists.update(ord, seq![frame] + lists[ord]))
    }
}

#[via_fn]
proof fn greedy_fill_decreases(count: int, frame: int, ord: int, lists: Seq<Seq<int>>) {
    lemma_p2_pos(ord);
}

/// The number of free pages recorded in lists `0..n`.
pub open spec fn free_total_below(lists: Seq<Seq<int>>, n: int) -> int
    decreases n,
{
    if n <= 0 {
        0
    } else {
        free_total_below(lists, n - 1) + lists[n - 1].len() * p2(n - 1)
    }
}

/// The total number of free pages recorded in the lists.
pub open spec fn free_total(lists: Seq<Seq<int>>) -> int {
    free_total_below(lists, FREE_LIST_LEN as int)
}

/// The number of blocks recorded in lists `0..n`.
pub open spec fn members_below(lists: Seq<Seq<int>>, n: int) -> int
    decreases n,
{
    if n <= 0 {
        0
    } else {
        members_below(lists, n - 1) + lists[n - 1].len()
    }
}

/// The block count after replacing one list.
proof fn lemma_members_below_update(lists: Seq<Seq<int>>, o: int, s: Seq<int>, n: int)
    requires
        0 <= o < lists.len(),
        n <= lists.len(),
    ensures
        members_below(lists.update(o, s), n) == members_below(lists, n) + if 0 <= o < n {
            s.len() - lists[o].len()
        } else {
            0
        },
    decreases n,
{
    if n > 0 {
        lemma_members_below_update(lists, o, s, n - 1);
    }
}

/// The block count is never negative.
proof fn lemma_members_below_nonneg(lists: Seq<Seq<int>>, n: int)
    ensures
        members_below(lists, n) >= 0,
    decreases n,
{
    if n > 0 {
        lemma_members_below_nonneg(lists, n - 1);
    }
}

/// Without blocks, every list is empty.
proof fn lemma_members_below_empty(lists: Seq<Seq<int>>, n: int)
    requires
        members_below(lists, n) == 0,
    ensures
        forall|o: int| 0 <= o < n ==> #[trigger] lists[o].len() == 0,
    decreases n,
{
    if n > 0 {
        lemma_members_below_nonneg(lists, n - 1);
        lemma_members_below_empty(lists, n - 1);
    }
}

/// Returns the position of a maximal element of a non-empty sequence.
proof fn lemma_find_max_in(l: Seq<int>) -> (r: int)
    requires
        l.len() > 0,
    ensures
        0 <= r < l.len(),
        forall|p: int| 0 <= p < l.len() ==> l[p] <= l[r],
    decreases l.len(),
{
    if l.len() == 1 {
        0
    } else {
        let r0 = lemma_find_max_in(l.drop_last());
        assert forall|p: int| 0 <= p < l.len() - 1 implies l[p] <= l[r0 as int] by {
            assert(l.drop_last()[p] == l[p]);
            assert(l.drop_last()[r0 as int] == l[r0 as int]);
        }
        if l[l.len() - 1] >= l[r0] {
            l.len() - 1
        } else {
            r0
        }
    }
}

/// Returns the position of a block with the greatest start among lists
/// `0..n`.
proof fn lemma_find_max(lists: Seq<Seq<int>>, n: int) -> (r: (int, int))
    requires
        0 < n <= lists.len(),
        members_below(lists, n) > 0,
    ensures
        0 <= r.0 < n,
        0 <= r.1 < lists[r.0].len(),
        forall|o: int, p: int|
            0 <= o < n && 0 <= p < lists[o].len() ==> #[trigger] lists[o][p]
                <= lists[r.0][r.1],
    decreases n,
{
    lemma_members_below_nonneg(lists, n - 1);
    if members_below(lists, n - 1) == 0 {
        lemma_members_below_empty(lists, n - 1);
        let p = lemma_find_max_in(lists[n - 1]);
        (n - 1, p)
    } else {
        let r0 = lemma_find_max(lists, n - 1);
        if lists[n - 1].len() > 0 {
            let p = lemma_find_max_in(lists[n - 1]);
            if lists[n - 1][p] >= lists[r0.0][r0.1] {
                (n - 1, p)
            } else {
                r0
            }
        } else {
            r0
        }
    }
}

/// Pairwise disjoint blocks within a zone of `count` pages hold at most
/// `count` pages in total: the block with the greatest start lies past
/// every other block, and the rest fit below its start.
proof fn lemma_disjoint_blocks_bound(lists: Seq<Seq<int>>, count: int)
    requires
        lists.len() == FREE_LIST_LEN,
        lists_geometry(count, lists),
        lists_disjoint(lists),
        count >= 0,
    ensures
        free_total_below(lists, FREE_LIST_LEN as int) <= count,
    decreases members_below(lists, FREE_LIST_LEN as int),
{
    let n = FREE_LIST_LEN as int;
    lemma_members_below_nonneg(lists, n);
    if members_below(lists, n) <= 0 {
        lemma_members_below_empty(lists, n);
        lemma_free_total_below_empty(lists, n);
    } else {
        let (om, pm) = lemma_find_max(lists, n);
        let m = lists[om][pm];
        lemma_p2_pos(om);
        let rest = lists.update(om, lists[om].remove(pm));
        lists[om].remove_ensures(pm);
        lemma_members_below_update(lists, om, lists[om].remove(pm), n);
        lemma_free_total_below_update(lists, om, lists[om].remove(pm), n);
        assert((lists[om].remove(pm).len() - lists[om].len()) * p2(om) == -p2(om))
            by (nonlinear_arith)
            requires
                lists[om].remove(pm).len() == lists[om].len() - 1,
        ;
        // Every remaining block lies entirely below the removed block's
        // start.
        assert forall|o2: int, p2x: int|
            0 <= o2 < rest.len() && 0 <= p2x < rest[o2].len() implies #[trigger] rest[o2][p2x]
            == lists[o2][(if o2 == om && p2x >= pm {
            p2x + 1
        } else {
            p2x
        })] by {}
        assert forall|o2: int, p2x: int|
            0 <= o2 < rest.len() && 0 <= p2x < rest[o2].len() implies block_wf(
            m,
            #[trigger] rest[o2][p2x],
            o2,
        ) by {
            let pp: int = if o2 == om && p2x >= pm {
                p2x + 1
            } else {
                p2x
            };
            let x = lists[o2][pp];
            assert(block_wf(count, x, o2));
            lemma_p2_pos(o2);
            assert(x <= m);
            assert(blocks_disjoint(x, o2, m, om));
        }
        assert forall|o1: int, p1: int, o2: int, p2x: int|
            0 <= o1 < rest.len() && 0 <= p1 < rest[o1].len() && 0 <= o2 < rest.len() && 0 <= p2x
                < rest[o2].len() && (o1 != o2 || p1 != p2x) implies blocks_disjoint(
            #[trigger] rest[o1][p1],
            o1,
            #[trigger] rest[o2][p2x],
            o2,
        ) by {
            let pp1: int = if o1 == om && p1 >= pm {
                p1 + 1
            } else {
                p1
            };
            let pp2: int = if o2 == om && p2x >= pm {
                p2x + 1
            } else {
                p2x
            };
            assert(rest[o1][p1] == lists[o1][pp1] && rest[o2][p2x] == lists[o2][pp2]);
            assert(blocks_disjoint(lists[o1][pp1], o1, lists[o2][pp2], o2));
        }
        lemma_disjoint_blocks_bound(rest, m);
        assert(block_wf(count, m, om));
    }
}

/// A block that is disjoint from every block of the lists joins them
/// without breaking disjointness, so all together they still fit the
/// zone: the free page total leaves room for the block.
pub proof fn lemma_disjoint_block_fits(lists: Seq<Seq<int>>, count: int, id: int, o: int)
    requires
        lists.len() == FREE_LIST_LEN,
        lists_geometry(count, lists),
        lists_disjoint(lists),
        block_wf(count, id, o),
        forall|o2: int, p2x: int|
            0 <= o2 < lists.len() && 0 <= p2x < lists[o2].len() ==> blocks_disjoint(
                id,
                o,
                #[trigger] lists[o2][p2x],
                o2,
            ),
    ensures
        free_total(lists) + p2(o) <= count,
{
    let joined = lists.update(o, seq![id] + lists[o]);
    lemma_free_total_below_update(lists, o, seq![id] + lists[o], FREE_LIST_LEN as int);
    assert(((seq![id] + lists[o]).len() - lists[o].len()) * p2(o) == p2(o)) by (nonlinear_arith)
        requires
            (seq![id] + lists[o]).len() == lists[o].len() + 1,
    ;
    assert forall|o2: int, p2x: int|
        0 <= o2 < joined.len() && 0 <= p2x < joined[o2].len() implies block_wf(
        count,
        #[trigger] joined[o2][p2x],
        o2,
    ) by {
        if o2 == o && p2x == 0 {
        } else {
            let pp: int = if o2 == o {
                p2x - 1
            } else {
                p2x
            };
            assert(joined[o2][p2x] == lists[o2][pp]);
            assert(block_wf(count, lists[o2][pp], o2));
        }
    }
    assert forall|o1: int, p1: int, o2: int, p2x: int|
        0 <= o1 < joined.len() && 0 <= p1 < joined[o1].len() && 0 <= o2 < joined.len() && 0 <= p2x
            < joined[o2].len() && (o1 != o2 || p1 != p2x) implies blocks_disjoint(
        #[trigger] joined[o1][p1],
        o1,
        #[trigger] joined[o2][p2x],
        o2,
    ) by {
        let m1: int = if o1 == o && p1 == 0 {
            id
        } else {
            lists[o1][(if o1 == o {
                p1 - 1
            } else {
                p1
            })]
        };
        let m2: int = if o2 == o && p2x == 0 {
            id
        } else {
            lists[o2][(if o2 == o {
                p2x - 1
            } else {
                p2x
            })]
        };
        assert(joined[o1][p1] == m1 && joined[o2][p2x] == m2);
        if m1 == id && !(o2 == o && p2x == 0) {
            assert(blocks_disjoint(id, o, lists[o2][(if o2 == o {
                p2x - 1
            } else {
                p2x
            })], o2));
        }
        if m2 == id && !(o1 == o && p1 == 0) {
            assert(blocks_disjoint(id, o, lists[o1][(if o1 == o {
                p1 - 1
            } else {
                p1
            })], o1));
        }
    }
    lemma_p2_pos(o);
    lemma_disjoint_blocks_bound(joined, count);
}

/// The member at position `p` of list `o` of `cur` already appears in
/// list `o` of `orig`.
pub open spec fn member_descends(orig: Seq<Seq<int>>, cur: Seq<Seq<int>>, o: int, p: int) -> bool {
    exists|q: int| 0 <= q < orig[o].len() && orig[o][q] == cur[o][p]
}

/// Membership in a sequence with one element pushed on the front.
pub proof fn lemma_cons_contains(l: Seq<int>, x: int, y: int)
    ensures
        (seq![x] + l).contains(y) <==> (y == x || l.contains(y)),
{
    let c = seq![x] + l;
    if c.contains(y) {
        let p = choose|p: int| 0 <= p < c.len() && c[p] == y;
        if p > 0 {
            assert(l[p - 1] == y);
        }
    }
    if y == x {
        assert(c[0] == y);
    }
    if l.contains(y) {
        let p = choose|p: int| 0 <= p < l.len() && l[p] == y;
        assert(c[p + 1] == y);
    }
}

/// Pushing an element on the front and removing its first occurrence
/// restores the sequence.
pub proof fn lemma_cons_remove_value(l: Seq<int>, x: int)
    ensures
        (seq![x] + l).remove_value(x) == l,
{
    let c = seq![x] + l;
    assert(c[0] == x);
    c.index_of_first_ensures(x);
    let i = c.index_of_first(x).unwrap();
    assert(i == 0);
    assert(c.remove(0) =~= l);
}

/// Removing one block from one list preserves the collection invariants of
/// the free lists.
#[verifier::rlimit(100)]
pub proof fn lemma_remove_preserves(gl0: Seq<Seq<int>>, oi: int, pos: int, count: int)
    requires
        gl0.len() == FREE_LIST_LEN,
        0 <= oi < FREE_LIST_LEN,
        0 <= pos < gl0[oi].len(),
        lists_geometry(count, gl0),
        lists_no_dup(gl0),
        lists_disjoint(gl0),
        lists_coalesced(gl0),
    ensures
        lists_geometry(count, gl0.update(oi, gl0[oi].remove(pos))),
        lists_no_dup(gl0.update(oi, gl0[oi].remove(pos))),
        lists_disjoint(gl0.update(oi, gl0[oi].remove(pos))),
        lists_coalesced(gl0.update(oi, gl0[oi].remove(pos))),
{
    let gl1 = gl0.update(oi, gl0[oi].remove(pos));
    gl0[oi].remove_ensures(pos);
    assert forall|o2: int, p: int|
        0 <= o2 < gl1.len() && 0 <= p < gl1[o2].len() implies #[trigger] gl1[o2][p] == gl0[o2][
        if o2 == oi && p >= pos {
            p + 1
        } else {
            p
        }] by {}
    assert forall|o2: int, p: int|
        0 <= o2 < gl1.len() && 0 <= p < gl1[o2].len() implies block_wf(
        count,
        #[trigger] gl1[o2][p],
        o2,
    ) by {
        let pp: int = if o2 == oi && p >= pos {
            p + 1
        } else {
            p
        };
        assert(block_wf(count, gl0[o2][pp], o2));
    }
    assert forall|o2: int, p: int, q: int|
        0 <= o2 < gl1.len() && 0 <= p < q < gl1[o2].len() implies gl1[o2][p] != gl1[o2][q] by {
        let pp: int = if o2 == oi && p >= pos {
            p + 1
        } else {
            p
        };
        let qq: int = if o2 == oi && q >= pos {
            q + 1
        } else {
            q
        };
        assert(gl1[o2][p] == gl0[o2][pp] && gl1[o2][q] == gl0[o2][qq]);
    }
    assert forall|o1: int, p1: int, o2: int, p2: int|
        0 <= o1 < gl1.len() && 0 <= p1 < gl1[o1].len() && 0 <= o2 < gl1.len() && 0 <= p2
            < gl1[o2].len() && (o1 != o2 || p1 != p2) implies blocks_disjoint(
        #[trigger] gl1[o1][p1],
        o1,
        #[trigger] gl1[o2][p2],
        o2,
    ) by {
        let pp1: int = if o1 == oi && p1 >= pos {
            p1 + 1
        } else {
            p1
        };
        let pp2: int = if o2 == oi && p2 >= pos {
            p2 + 1
        } else {
            p2
        };
        assert(gl1[o1][p1] == gl0[o1][pp1] && gl1[o2][p2] == gl0[o2][pp2]);
        assert(blocks_disjoint(gl0[o1][pp1], o1, gl0[o2][pp2], o2));
    }
    assert forall|o2: int, p1: int, p2: int|
        0 <= o2 < MAX_ORDER as int && o2 < gl1.len() && 0 <= p1 < gl1[o2].len() && 0 <= p2
            < gl1[o2].len() implies #[trigger] gl1[o2][p2] != buddy_of(
        #[trigger] gl1[o2][p1],
        o2,
    ) by {
        let pp1: int = if o2 == oi && p1 >= pos {
            p1 + 1
        } else {
            p1
        };
        let pp2: int = if o2 == oi && p2 >= pos {
            p2 + 1
        } else {
            p2
        };
        assert(gl1[o2][p1] == gl0[o2][pp1] && gl1[o2][p2] == gl0[o2][pp2]);
    }
}

/// `2^o` is positive.
pub proof fn lemma_p2_pos(o: int)
    ensures
        p2(o) > 0,
{
    vstd::arithmetic::power2::lemma_pow2_pos(o as nat);
}

/// Doubling steps one order up.
pub proof fn lemma_p2_unfold(o: int)
    requires
        o >= 0,
    ensures
        p2(o + 1) == 2 * p2(o),
{
    vstd::arithmetic::power2::lemma_pow2_adds((o + 1) as nat, 1nat);
    vstd::arithmetic::power2::lemma_pow2_adds(o as nat, 1nat);
    assert(pow2(1nat) == 2) by {
        vstd::arithmetic::power2::lemma2_to64();
    }
}

/// Alignment to a higher order implies alignment to any lower order.
pub proof fn lemma_p2_divides(a: int, o: int, f: int)
    requires
        0 <= o <= f,
        a % p2(f) == 0,
    ensures
        a % p2(o) == 0,
{
    lemma_p2_pos(o);
    lemma_p2_pos(f);
    lemma_p2_pos(f - o);
    vstd::arithmetic::power2::lemma_pow2_adds((f - o) as nat, o as nat);
    vstd::arithmetic::div_mod::lemma_fundamental_div_mod(a, p2(f));
    let k = a / p2(f);
    assert(a == (k * p2(f - o)) * p2(o)) by (nonlinear_arith)
        requires
            a == p2(f) * k,
            p2(f) == p2(f - o) * p2(o),
    ;
    vstd::arithmetic::div_mod::lemma_mod_multiples_basic(k * p2(f - o), p2(o));
}

/// A block start aligned to its order is congruent to `0` or to `2^o`
/// modulo `2^(o + 1)`.
pub proof fn lemma_aligned_residue(id: int, o: int)
    requires
        o >= 0,
        id % p2(o) == 0,
    ensures
        id % p2(o + 1) == 0 || id % p2(o + 1) == p2(o),
{
    lemma_p2_pos(o);
    lemma_p2_unfold(o);
    vstd::arithmetic::div_mod::lemma_fundamental_div_mod(id, p2(o));
    let k = id / p2(o);
    if k % 2 == 0 {
        assert(id == (k / 2) * p2(o + 1) + 0) by (nonlinear_arith)
            requires
                id == p2(o) * k,
                k % 2 == 0,
                p2(o + 1) == 2 * p2(o),
        ;
        vstd::arithmetic::div_mod::lemma_fundamental_div_mod_converse(
            id,
            p2(o + 1),
            k / 2,
            0,
        );
    } else {
        assert(id == (k / 2) * p2(o + 1) + p2(o)) by (nonlinear_arith)
            requires
                id == p2(o) * k,
                k % 2 == 1,
                p2(o + 1) == 2 * p2(o),
        ;
        vstd::arithmetic::div_mod::lemma_fundamental_div_mod_converse(
            id,
            p2(o + 1),
            k / 2,
            p2(o),
        );
    }
}

/// The buddy relation is an involution on blocks aligned to their order,
/// and buddies are distinct, adjacent and aligned.
pub proof fn lemma_buddy_props(id: int, o: int)
    requires
        o >= 0,
        id >= 0,
        id % p2(o) == 0,
    ensures
        buddy_of(id, o) % p2(o) == 0,
        buddy_of(buddy_of(id, o), o) == id,
        buddy_of(id, o) != id,
        buddy_of(id, o) == id + p2(o) || buddy_of(id, o) == id - p2(o),
        buddy_of(id, o) == id + p2(o) ==> id % p2(o + 1) == 0,
        buddy_of(id, o) == id - p2(o) ==> id % p2(o + 1) == p2(o) && buddy_of(id, o) % p2(o + 1)
            == 0,
        if buddy_of(id, o) < id {
            buddy_of(id, o) % p2(o + 1) == 0
        } else {
            id % p2(o + 1) == 0
        },
{
    lemma_p2_pos(o);
    lemma_p2_unfold(o);
    lemma_aligned_residue(id, o);
    let b = buddy_of(id, o);
    if id % p2(o + 1) == 0 {
        assert(b == id + p2(o));
        assert(b % p2(o + 1) == p2(o)) by {
            vstd::arithmetic::div_mod::lemma_fundamental_div_mod(id, p2(o + 1));
            let q = id / p2(o + 1);
            assert(b == q * p2(o + 1) + p2(o)) by (nonlinear_arith)
                requires
                    id == p2(o + 1) * q,
                    b == id + p2(o),
            ;
            vstd::arithmetic::div_mod::lemma_fundamental_div_mod_converse(
                b,
                p2(o + 1),
                q,
                p2(o),
            );
        }
        assert(b % p2(o) == 0) by {
            vstd::arithmetic::div_mod::lemma_fundamental_div_mod(id, p2(o));
            let q = id / p2(o);
            assert(b == (q + 1) * p2(o) + 0) by (nonlinear_arith)
                requires
                    id == p2(o) * q,
                    b == id + p2(o),
            ;
            vstd::arithmetic::div_mod::lemma_fundamental_div_mod_converse(b, p2(o), q + 1, 0);
        }
    } else {
        assert(id % p2(o + 1) == p2(o));
        assert(b == id - p2(o));
        assert(b % p2(o + 1) == 0 && b >= 0) by {
            vstd::arithmetic::div_mod::lemma_fundamental_div_mod(id, p2(o + 1));
            let q = id / p2(o + 1);
            vstd::arithmetic::div_mod::lemma_div_pos_is_pos(id, p2(o + 1));
            assert(b == q * p2(o + 1) + 0) by (nonlinear_arith)
                requires
                    id == p2(o + 1) * q + p2(o),
                    b == id - p2(o),
            ;
            vstd::arithmetic::div_mod::lemma_fundamental_div_mod_converse(b, p2(o + 1), q, 0);
            assert(b >= 0) by (nonlinear_arith)
                requires
                    b == q * p2(o + 1),
                    q >= 0,
                    p2(o + 1) > 0,
            ;
        }
        lemma_p2_divides(b, o, o + 1);
    }
}

/// Properties of `first_free_order`: it stays within `[o, FREE_LIST_LEN]`,
/// points at a non-empty list when below `FREE_LIST_LEN`, and every list
/// between `o` and it is empty.
pub proof fn lemma_ffo_props(lists: Seq<Seq<int>>, o: int)
    requires
        0 <= o <= FREE_LIST_LEN,
    ensures
        o <= first_free_order(lists, o) <= FREE_LIST_LEN,
        first_free_order(lists, o) < FREE_LIST_LEN ==> lists[first_free_order(lists, o)].len()
            > 0,
        forall|j: int|
            o <= j < first_free_order(lists, o) && j < FREE_LIST_LEN ==> #[trigger] lists[j].len()
                == 0,
    decreases FREE_LIST_LEN - o,
{
    if o < FREE_LIST_LEN && lists[o].len() == 0 {
        lemma_ffo_props(lists, o + 1);
    }
}

/// The contribution of lists `0..n` after replacing list `o`.
pub proof fn lemma_free_total_below_update(lists: Seq<Seq<int>>, o: int, s: Seq<int>, n: int)
    requires
        0 <= o < lists.len(),
        n <= lists.len(),
    ensures
        free_total_below(lists.update(o, s), n) == free_total_below(lists, n) + if 0 <= o < n {
            (s.len() - lists[o].len()) * p2(o)
        } else {
            0
        },
    decreases n,
{
    if n > 0 {
        lemma_free_total_below_update(lists, o, s, n - 1);
        if o == n - 1 {
            assert((s.len() - lists[o].len()) * p2(o) == s.len() * p2(o) - lists[o].len() * p2(
                o,
            )) by (nonlinear_arith);
        }
    }
}

/// Every list contributes a non-negative page total.
pub proof fn lemma_free_total_below_nonneg(lists: Seq<Seq<int>>, n: int)
    ensures
        free_total_below(lists, n) >= 0,
    decreases n,
{
    if n > 0 {
        lemma_free_total_below_nonneg(lists, n - 1);
        lemma_p2_pos(n - 1);
        vstd::arithmetic::mul::lemma_mul_nonnegative(lists[n - 1].len() as int, p2(n - 1));
    }
}

/// Splitting over an empty order range leaves the lists unchanged.
pub proof fn lemma_split_links_empty(lists: Seq<Seq<int>>, id: int, f: int)
    ensures
        split_links(lists, id, f, f) == lists,
{
    assert(split_links(lists, id, f, f) =~= lists);
}

/// Taking the head of a non-empty list removes one block of its order from
/// the free page total.
pub proof fn lemma_free_total_take_head(lists: Seq<Seq<int>>, f: int)
    requires
        lists.len() == FREE_LIST_LEN,
        0 <= f < FREE_LIST_LEN,
        lists[f].len() > 0,
    ensures
        free_total(take_head(lists, f)) == free_total(lists) - p2(f),
{
    lemma_free_total_below_update(lists, f, lists[f].drop_first(), FREE_LIST_LEN as int);
    assert((lists[f].drop_first().len() - lists[f].len()) * p2(f) == -p2(f))
        by (nonlinear_arith)
        requires
            lists[f].drop_first().len() == lists[f].len() - 1,
    ;
}

/// Splitting a block of order `hi` down to order `lo` adds the pages of
/// the split-off halves to the free page total.
pub proof fn lemma_free_total_split_links(lists: Seq<Seq<int>>, id: int, lo: int, hi: int)
    requires
        lists.len() == FREE_LIST_LEN,
        0 <= lo <= hi <= FREE_LIST_LEN,
    ensures
        free_total(split_links(lists, id, lo, hi)) == free_total(lists) + p2(hi) - p2(lo),
    decreases hi - lo,
{
    if lo == hi {
        lemma_split_links_empty(lists, id, lo);
    } else {
        let inner = split_links(lists, id, lo + 1, hi);
        lemma_free_total_split_links(lists, id, lo + 1, hi);
        assert(split_links(lists, id, lo, hi) =~= inner.update(
            lo,
            seq![id + p2(lo)] + lists[lo],
        ));
        lemma_free_total_below_update(
            inner,
            lo,
            seq![id + p2(lo)] + lists[lo],
            FREE_LIST_LEN as int,
        );
        assert(inner[lo] == lists[lo]);
        assert(((seq![id + p2(lo)] + lists[lo]).len() - inner[lo].len()) * p2(lo) == p2(lo))
            by (nonlinear_arith)
            requires
                (seq![id + p2(lo)] + lists[lo]).len() == inner[lo].len() + 1,
        ;
        lemma_p2_unfold(lo);
    }
}

/// Freeing a block of order `o` adds exactly its pages to the free page
/// total, however far the coalescing proceeds.
pub proof fn lemma_free_total_coalesce(lists: Seq<Seq<int>>, id: int, o: int)
    requires
        lists.len() == FREE_LIST_LEN,
        0 <= o < FREE_LIST_LEN,
    ensures
        free_total(coalesce_lists(lists, id, o)) == free_total(lists) + p2(o),
    decreases MAX_ORDER as int - o,
{
    let b = buddy_of(id, o);
    if 0 <= o < MAX_ORDER as int && lists[o].contains(b) {
        let merged = if b < id {
            b
        } else {
            id
        };
        let l2 = lists.update(o, lists[o].remove_value(b));
        lists[o].index_of_first_ensures(b);
        assert(lists[o].remove_value(b).len() == lists[o].len() - 1);
        lemma_free_total_below_update(lists, o, lists[o].remove_value(b), FREE_LIST_LEN as int);
        assert((lists[o].remove_value(b).len() - lists[o].len()) * p2(o) == -p2(o))
            by (nonlinear_arith)
            requires
                lists[o].remove_value(b).len() == lists[o].len() - 1,
        ;
        lemma_free_total_coalesce(l2, merged, o + 1);
        lemma_p2_unfold(o);
    } else {
        lemma_free_total_below_update(lists, o, seq![id] + lists[o], FREE_LIST_LEN as int);
        assert(((seq![id] + lists[o]).len() - lists[o].len()) * p2(o) == p2(o))
            by (nonlinear_arith)
            requires
                (seq![id] + lists[o]).len() == lists[o].len() + 1,
        ;
    }
}

/// Empty lists hold no free pages.
pub proof fn lemma_free_total_below_empty(lists: Seq<Seq<int>>, n: int)
    requires
        forall|o: int| 0 <= o < n ==> #[trigger] lists[o].len() == 0,
    ensures
        free_total_below(lists, n) == 0,
    decreases n,
{
    if n > 0 {
        lemma_free_total_below_empty(lists, n - 1);
    }
}

/// Helper for the allocation round trip: freeing the block `(h, i)` that
/// was just split out of the free block `(h, f)` merges it back with every
/// split-off half and relinks `(h, f)` at the head of its list, restoring
/// the lists exactly.
proof fn lemma_round_trip_from(lists: Seq<Seq<int>>, h: int, i: int, f: int)
    requires
        lists.len() == FREE_LIST_LEN,
        0 <= i <= f <= MAX_ORDER as int,
        lists[f].len() > 0,
        h == lists[f][0],
        h >= 0,
        h % p2(f) == 0,
        lists_coalesced(lists),
    ensures
        coalesce_lists(split_links(take_head(lists, f), h, i, f), h, i) == lists,
    decreases f - i,
{
    let th = take_head(lists, f);
    let mid = split_links(th, h, i, f);
    lemma_p2_pos(i);
    if i == f {
        lemma_split_links_empty(th, h, f);
        let b = buddy_of(h, f);
        if f < MAX_ORDER as int {
            assert(!th[f].contains(b)) by {
                if th[f].contains(b) {
                    let q = choose|q: int| 0 <= q < th[f].len() && th[f][q] == b;
                    assert(lists[f][q + 1] == b);
                    assert(lists[f][q + 1] != buddy_of(lists[f][0], f));
                    assert(false);
                }
            }
        }
        assert(coalesce_lists(mid, h, f) == th.update(f, seq![h] + th[f]));
        assert(seq![h] + th[f] =~= lists[f]);
        assert(th.update(f, seq![h] + th[f]) =~= lists);
    } else {
        lemma_p2_divides(h, i + 1, f);
        lemma_p2_divides(h, i, f);
        lemma_buddy_props(h, i);
        let b = buddy_of(h, i);
        assert(b == h + p2(i));
        assert(mid[i] == seq![b] + th[i]);
        assert(mid[i][0] == b);
        assert(mid[i].contains(b));
        lemma_cons_remove_value(th[i], b);
        let stepped = mid.update(i, th[i]);
        assert(stepped =~= split_links(th, h, i + 1, f));
        lemma_round_trip_from(lists, h, i + 1, f);
        assert(coalesce_lists(mid, h, i) == coalesce_lists(stepped, h, i + 1));
    }
}

/// Round trip law: a successful allocation of order `o` takes the head
/// `h` of the first non-empty list of order `f >= o` and splits it down
/// to `o`; freeing the same block immediately afterwards coalesces it
/// with every split-off half and restores the free lists exactly. The
/// allocated page counter is likewise restored, since the allocation adds
/// `2^o` to it and the free subtracts the same amount.
pub proof fn lemma_alloc_free_round_trip(lists: Seq<Seq<int>>, count: int, o: int)
    requires
        lists_wf(count, lists),
        0 <= o <= MAX_ORDER,
        first_free_order(lists, o) < FREE_LIST_LEN,
    ensures
        ({
            let f = first_free_order(lists, o);
            let h = lists[f][0];
            coalesce_lists(split_links(take_head(lists, f), h, o, f), h, o) == lists
        }),
{
    let f = first_free_order(lists, o);
    let h = lists[f][0];
    lemma_ffo_props(lists, o);
    assert(block_wf(count, lists[f][0], f));
    lemma_round_trip_from(lists, h, o, f);
}

/// Coalescing law: freeing two allocated buddy sibling blocks of order
/// `0` (the blocks `b` and `b + 1`, with `b` even) merges them into one
/// block of order `1` at `b`, which a subsequent order-`1` allocation
/// finds at the head of the order-`1` free list, without splitting any
/// block of a higher order. The first requirement says the sibling is
/// still allocated when the first block is freed; the second says the
/// merged block's own buddy is not free, so coalescing stops at order `1`.
pub proof fn lemma_buddy_free_merge(lists: Seq<Seq<int>>, b: int)
    requires
        lists.len() == FREE_LIST_LEN,
        b >= 0,
        b % 2 == 0,
        !lists[0].contains(b + 1),
        !lists[1].contains(buddy_of(b, 1)),
    ensures
        ({
            let l2 = coalesce_lists(coalesce_lists(lists, b, 0), b + 1, 0);
            &&& l2 == lists.update(1, seq![b] + lists[1])
            &&& first_free_order(l2, 1) == 1
            &&& l2[1][0] == b
        }),
{
    assert(p2(0) == 1 && p2(1) == 2) by {
        vstd::arithmetic::power2::lemma2_to64();
    }
    assert(buddy_of(b, 0) == b + 1);
    let l1 = lists.update(0, seq![b] + lists[0]);
    assert(coalesce_lists(lists, b, 0) == l1);
    assert(buddy_of(b + 1, 0) == b) by {
        assert((b + 1) % 2 == 1) by {
            vstd::arithmetic::div_mod::lemma_fundamental_div_mod(b, 2);
            vstd::arithmetic::div_mod::lemma_fundamental_div_mod_converse(b + 1, 2, b / 2, 1);
        }
    }
    assert(l1[0][0] == b);
    assert(l1[0].contains(b));
    lemma_cons_remove_value(lists[0], b);
    let l1b = l1.update(0, lists[0]);
    assert(l1b =~= lists);
    assert(coalesce_lists(l1, b + 1, 0) == coalesce_lists(lists, b, 1));
    let l2 = lists.update(1, seq![b] + lists[1]);
    assert(coalesce_lists(lists, b, 1) == l2);
    assert(l2[1].len() > 0);
    assert(first_free_order(l2, 1) == 1);
}

/// Exhaustion law: an order-`0` allocation finds a free block exactly
/// when free pages remain, so on a fresh zone of `N` pages repeated
/// order-`0` allocations succeed exactly `N` times and then fail. The
/// allocator's accounting invariant makes the free page total equal the
/// zone's page count minus its allocated counter.
pub proof fn lemma_exhaustion(lists: Seq<Seq<int>>)
    requires
        lists.len() == FREE_LIST_LEN,
    ensures
        free_total(lists) >= 0,
        (first_free_order(lists, 0) == FREE_LIST_LEN as int) <==> (free_total(lists) == 0),
{
    lemma_free_total_below_nonneg(lists, FREE_LIST_LEN as int);
    lemma_ffo_props(lists, 0);
    let f = first_free_order(lists, 0);
    if f == FREE_LIST_LEN as int {
        lemma_free_total_below_empty(lists, FREE_LIST_LEN as int);
    } else {
        lemma_free_total_below_lower(lists, f, FREE_LIST_LEN as int);
        lemma_p2_pos(f);
        assert(lists[f].len() * p2(f) >= p2(f)) by (nonlinear_arith)
            requires
                lists[f].len() >= 1,
                p2(f) > 0,
        ;
    }
}

/// The free page total is at least the contribution of any single list.
pub proof fn lemma_free_total_below_lower(lists: Seq<Seq<int>>, j: int, n: int)
    requires
        0 <= j < n,
    ensures
        free_total_below(lists, n) >= lists[j].len() * p2(j),
    decreases n,
{
    lemma_p2_pos(n - 1);
    vstd::arithmetic::mul::lemma_mul_nonnegative(lists[n - 1].len() as int, p2(n - 1));
    if j < n - 1 {
        lemma_free_total_below_lower(lists, j, n - 1);
    } else {
        lemma_free_total_below_nonneg(lists, n - 1);
    }
}

} // verus!
