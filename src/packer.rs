use vstd::prelude::*;
use crate::area::{lemma_pack_area, placed_area};
use crate::item::{Item, PackedItem, PackedItems, Rotation, priority, wide_mul};
use crate::rect::{Rect, area_of, encloses, fits, meets};
use crate::tree::{
    Node, NONE, all_fit, beats, best_node, find_best_node, free_of, fresh_leaf, lemma_best_node,
    lemma_split_sound, sound, split_result, split_tree, wf, worst_score,
};

verus! {

/// `order` with index `i` inserted after every index whose item has a
/// priority at least that of item `i`.
pub open spec fn insert_by_priority<T>(items: Seq<Item<T>>, order: Seq<usize>, i: usize) -> Seq<
    usize,
>
    decreases order.len(),
{
    if order.len() == 0 {
        seq![i]
    } else if priority(items[order[0] as int]) < priority(items[i as int]) {
        seq![i] + order
    } else {
        seq![order[0]] + insert_by_priority(items, order.drop_first(), i)
    }
}

/// The order in which the first `n` items are packed: descending priority,
/// items of equal priority in input order.
pub open spec fn order_prefix<T>(items: Seq<Item<T>>, n: nat) -> Seq<usize>
    decreases n,
{
    if n == 0 {
        seq![]
    } else {
        insert_by_priority(items, order_prefix(items, (n - 1) as nat), (n - 1) as usize)
    }
}

/// The order in which `items` are packed, as indices into `items`.
pub open spec fn packing_order<T>(items: Seq<Item<T>>) -> Seq<usize> {
    order_prefix(items, items.len())
}

/// Where item `it` goes in the arena: the chosen leaf (or `NONE`) and the
/// placed width and height. A rotated fit is taken only if it scores
/// strictly better.
pub open spec fn choose_spot<T>(nodes: Seq<Node>, it: Item<T>) -> (usize, usize, usize) {
    let (i, s) = best_node(nodes, it.w as int, it.h as int, 0);
    if it.rot == Rotation::Allowed && it.w != it.h {
        let (j, t) = best_node(nodes, it.h as int, it.w as int, 0);
        if beats(t, s) {
            (j, it.h, it.w)
        } else {
            (i, it.w, it.h)
        }
    } else {
        (i, it.w, it.h)
    }
}

/// Places the items named by `order`, one by one, into the free space of
/// `nodes`; stops at the first that does not fit. Returns the placements
/// made and whether every item was placed.
pub open spec fn place_all<T>(items: Seq<Item<T>>, order: Seq<usize>, nodes: Seq<Node>) -> (
    Seq<PackedItem<T>>,
    bool,
)
    decreases order.len(),
{
    if order.len() == 0 {
        (seq![], true)
    } else {
        let it = items[order[0] as int];
        let spot = choose_spot(nodes, it);
        if spot.0 == NONE {
            (seq![], false)
        } else {
            let leaf = nodes[spot.0 as int].rect;
            let rect = Rect { x: leaf.x, y: leaf.y, w: spot.1, h: spot.2 };
            let rest = place_all(items, order.drop_first(), split_result(nodes, rect));
            (seq![PackedItem { data: it.data, rect }] + rest.0, rest.1)
        }
    }
}

/// The arena at the start of a pack: one free leaf covering the container.
pub open spec fn root_arena(container: Rect) -> Seq<Node> {
    seq![fresh_leaf(container)]
}

/// What packing `items` into `container` yields: the placements, in packing
/// order, and whether every item was placed.
pub open spec fn pack_model<T>(items: Seq<Item<T>>, container: Rect) -> (Seq<PackedItem<T>>, bool) {
    place_all(items, packing_order(items), root_arena(container))
}

/// The placements a pack returned and whether it succeeded.
pub open spec fn outcome<T>(r: Result<Vec<PackedItem<T>>, Vec<PackedItem<T>>>) -> (
    Seq<PackedItem<T>>,
    bool,
) {
    match r {
        Ok(v) => (v@, true),
        Err(v) => (v@, false),
    }
}

proof fn lemma_insert_at<T>(items: Seq<Item<T>>, order: Seq<usize>, i: usize, j: int)
    requires
        0 <= j <= order.len(),
        forall|m: int| 0 <= m < j ==> priority(items[#[trigger] order[m] as int]) >= priority(items[i as int]),
        j < order.len() ==> priority(items[order[j] as int]) < priority(items[i as int]),
    ensures
        insert_by_priority(items, order, i) == order.insert(j, i),
    decreases j,
{
    if j == 0 {
        assert(insert_by_priority(items, order, i) =~= order.insert(j, i));
    } else {
        let rest = order.drop_first();
        assert forall|m: int| 0 <= m < j - 1 implies priority(items[#[trigger] rest[m] as int]) >= priority(items[i as int]) by {
            assert(rest[m] == order[m + 1]);
        }
        lemma_insert_at(items, rest, i, j - 1);
        assert(insert_by_priority(items, order, i) =~= order.insert(j, i));
    }
}

proof fn lemma_insert_bounds<T>(items: Seq<Item<T>>, order: Seq<usize>, i: usize, n: int)
    requires
        forall|m: int| 0 <= m < order.len() ==> #[trigger] order[m] < n,
        i < n,
    ensures
        insert_by_priority(items, order, i).len() == order.len() + 1,
        forall|m: int| 0 <= m < order.len() + 1 ==> #[trigger] insert_by_priority(items, order, i)[m] < n,
    decreases order.len(),
{
    if order.len() > 0 {
        let rest = order.drop_first();
        lemma_insert_bounds(items, rest, i, n);
        let r = insert_by_priority(items, order, i);
        assert forall|m: int| 0 <= m < order.len() + 1 implies #[trigger] r[m] < n by {
            if !(priority(items[order[0] as int]) < priority(items[i as int])) && m > 0 {
                assert(r[m] == insert_by_priority(items, rest, i)[m - 1]);
            }
        }
    }
}

pub proof fn lemma_order_bounds<T>(items: Seq<Item<T>>, n: nat)
    ensures
        order_prefix(items, n).len() == n,
        forall|m: int| 0 <= m < n ==> #[trigger] order_prefix(items, n)[m] < n,
    decreases n,
{
    if n > 0 {
        lemma_order_bounds(items, (n - 1) as nat);
        lemma_insert_bounds(items, order_prefix(items, (n - 1) as nat), (n - 1) as usize, n as int);
    }
}

/// Item `a` is packed before item `b`: it has the higher priority, or the
/// same priority and comes first in the input.
pub open spec fn packs_before<T>(items: Seq<Item<T>>, a: usize, b: usize) -> bool {
    priority(items[a as int]) > priority(items[b as int]) || (priority(items[a as int]) == priority(
        items[b as int],
    ) && a < b)
}

/// `order` lists item indices from first packed to last.
pub open spec fn priority_sorted<T>(items: Seq<Item<T>>, order: Seq<usize>) -> bool {
    forall|a: int, b: int|
        0 <= a < b < order.len() ==> packs_before(items, #[trigger] order[a], #[trigger] order[b])
}

proof fn lemma_insert_sorted<T>(items: Seq<Item<T>>, order: Seq<usize>, i: usize)
    requires
        priority_sorted(items, order),
        forall|m: int| 0 <= m < order.len() ==> #[trigger] order[m] < i,
    ensures
        priority_sorted(items, insert_by_priority(items, order, i)),
        insert_by_priority(items, order, i).len() == order.len() + 1,
        forall|m: int|
            0 <= m < order.len() + 1 ==> #[trigger] insert_by_priority(items, order, i)[m] == i
                || order.contains(insert_by_priority(items, order, i)[m]),
    decreases order.len(),
{
    let res = insert_by_priority(items, order, i);
    if order.len() == 0 {
    } else if priority(items[order[0] as int]) < priority(items[i as int]) {
        assert forall|a: int, b: int| 0 <= a < b < res.len() implies packs_before(
            items,
            #[trigger] res[a],
            #[trigger] res[b],
        ) by {
            if a == 0 {
                if b > 1 {
                    assert(packs_before(items, order[0], order[b - 1]));
                }
            } else {
                assert(res[a] == order[a - 1] && res[b] == order[b - 1]);
            }
        }
        assert forall|m: int| 0 < m < order.len() + 1 implies order.contains(#[trigger] res[m]) by {
            assert(res[m] == order[m - 1]);
        }
    } else {
        let rest = order.drop_first();
        assert forall|a: int, b: int| 0 <= a < b < rest.len() implies packs_before(
            items,
            #[trigger] rest[a],
            #[trigger] rest[b],
        ) by {
            assert(rest[a] == order[a + 1] && rest[b] == order[b + 1]);
        }
        lemma_insert_sorted(items, rest, i);
        let rec = insert_by_priority(items, rest, i);
        assert(res == seq![order[0]] + rec);
        assert forall|m: int| 0 <= m < order.len() + 1 implies #[trigger] res[m] == i
            || order.contains(res[m]) by {
            if m > 0 {
                assert(res[m] == rec[m - 1]);
                if rec[m - 1] != i {
                    let k = choose|k: int| 0 <= k < rest.len() && rest[k] == rec[m - 1];
                    assert(order[k + 1] == rest[k]);
                }
            }
        }
        assert forall|a: int, b: int| 0 <= a < b < res.len() implies packs_before(
            items,
            #[trigger] res[a],
            #[trigger] res[b],
        ) by {
            if a == 0 {
                assert(res[b] == rec[b - 1]);
                if rec[b - 1] != i {
                    let k = choose|k: int| 0 <= k < rest.len() && rest[k] == rec[b - 1];
                    assert(order[k + 1] == rest[k]);
                }
            } else {
                assert(res[a] == rec[a - 1] && res[b] == rec[b - 1]);
            }
        }
    }
}

/// The packing order is sorted by descending priority, items of equal
/// priority in input order; it lists every item index exactly once.
pub proof fn lemma_packing_order<T>(items: Seq<Item<T>>)
    requires
        items.len() <= usize::MAX,
    ensures
        priority_sorted(items, packing_order(items)),
        packing_order(items).len() == items.len(),
        forall|m: int|
            0 <= m < items.len() ==> #[trigger] packing_order(items)[m] < items.len(),
        packing_order(items).no_duplicates(),
{
    lemma_order_sorted(items, items.len());
    lemma_order_bounds(items, items.len());
    let order = packing_order(items);
    assert forall|a: int, b: int| 0 <= a < order.len() && 0 <= b < order.len() && a != b implies order[a]
        != order[b] by {
        if a < b {
            assert(packs_before(items, order[a], order[b]));
        } else {
            assert(packs_before(items, order[b], order[a]));
        }
    }
}

proof fn lemma_order_sorted<T>(items: Seq<Item<T>>, n: nat)
    requires
        n <= usize::MAX,
    ensures
        priority_sorted(items, order_prefix(items, n)),
    decreases n,
{
    if n > 0 {
        lemma_order_sorted(items, (n - 1) as nat);
        lemma_order_bounds(items, (n - 1) as nat);
        lemma_insert_sorted(items, order_prefix(items, (n - 1) as nat), (n - 1) as usize);
    }
}

/// `r` has the item's size, or, where the item may rotate and is not
/// square, its size turned by 90°.
pub open spec fn placed_as<T>(it: Item<T>, r: Rect) -> bool {
    (r.w == it.w && r.h == it.h) || (it.rot == Rotation::Allowed && it.w != it.h && r.w == it.h
        && r.h == it.w)
}

proof fn lemma_spot<T>(nodes: Seq<Node>, it: Item<T>)
    requires
        wf(nodes),
    ensures
        ({
            let (i, pw, ph) = choose_spot(nodes, it);
            &&& i == NONE || (i < nodes.len() && !nodes[i as int].is_split && pw
                <= nodes[i as int].rect.w && ph <= nodes[i as int].rect.h)
            &&& placed_as(it, Rect { x: 0, y: 0, w: pw, h: ph })
        }),
{
    lemma_best_node(nodes, it.w as int, it.h as int, 0);
    lemma_best_node(nodes, it.h as int, it.w as int, 0);
}

proof fn lemma_place_all<T>(
    items: Seq<Item<T>>,
    order: Seq<usize>,
    nodes: Seq<Node>,
    c: Rect,
    placed: Seq<Rect>,
)
    requires
        sound(nodes, c),
        free_of(nodes, placed),
    ensures
        ({
            let (out, ok) = place_all(items, order, nodes);
            &&& out.len() <= order.len()
            &&& ok <==> out.len() == order.len()
            &&& forall|k: int|
                0 <= k < out.len() ==> #[trigger] out[k].data == items[order[k] as int].data
                    && placed_as(items[order[k] as int], out[k].rect)
            &&& forall|k: int| 0 <= k < out.len() ==> encloses(c, #[trigger] out[k].rect)
            &&& forall|k: int, q: int|
                0 <= k < out.len() && 0 <= q < placed.len() ==> !meets(
                    #[trigger] out[k].rect,
                    #[trigger] placed[q],
                )
            &&& forall|k: int, m: int|
                0 <= k < out.len() && 0 <= m < out.len() && k != m ==> !meets(
                    #[trigger] out[k].rect,
                    #[trigger] out[m].rect,
                )
        }),
    decreases order.len(),
{
    if order.len() > 0 {
        let it = items[order[0] as int];
        let spot = choose_spot(nodes, it);
        lemma_spot(nodes, it);
        if spot.0 != NONE {
            let leaf = nodes[spot.0 as int].rect;
            let rect = Rect { x: leaf.x, y: leaf.y, w: spot.1, h: spot.2 };
            assert(encloses(leaf, rect));
            assert(encloses(c, leaf));
            assert forall|q: int| 0 <= q < placed.len() implies !meets(rect, #[trigger] placed[q]) by {
                assert(!meets(nodes[spot.0 as int].rect, placed[q]));
            }
            let next = split_result(nodes, rect);
            lemma_split_sound(nodes, rect, c, placed);
            let pr = placed.push(rect);
            let tail = order.drop_first();
            lemma_place_all(items, tail, next, c, pr);
            let rest = place_all(items, tail, next);
            let out = place_all(items, order, nodes).0;
            assert(out == seq![PackedItem { data: it.data, rect }] + rest.0);
            assert forall|k: int| 0 < k < out.len() implies #[trigger] out[k] == rest.0[k - 1]
                && order[k] == tail[k - 1] by {}
            assert forall|k: int| 0 <= k < rest.0.len() implies !meets(#[trigger] rest.0[k].rect, rect) by {
                assert(pr[placed.len() as int] == rect);
            }
            assert forall|k: int, q: int|
                0 <= k < rest.0.len() && 0 <= q < placed.len() implies !meets(
                    #[trigger] rest.0[k].rect,
                    #[trigger] placed[q],
                ) by {
                assert(pr[q] == placed[q]);
            }
            assert forall|k: int, m: int|
                0 <= k < out.len() && 0 <= m < out.len() && k != m implies !meets(
                    #[trigger] out[k].rect,
                    #[trigger] out[m].rect,
                ) by {
                if k == 0 {
                    assert(out[m] == rest.0[m - 1]);
                } else if m == 0 {
                    assert(out[k] == rest.0[k - 1]);
                } else {
                    assert(out[k] == rest.0[k - 1]);
                    assert(out[m] == rest.0[m - 1]);
                }
            }
            assert forall|k: int| 0 <= k < out.len() implies #[trigger] out[k].data
                == items[order[k] as int].data && placed_as(items[order[k] as int], out[k].rect) by {
                if k > 0 {
                    assert(out[k] == rest.0[k - 1]);
                }
            }
        }
    }
}

proof fn lemma_root_sound(c: Rect)
    requires
        fits(c),
    ensures
        sound(root_arena(c), c),
        free_of(root_arena(c), seq![]),
{
    let nodes = root_arena(c);
    assert(nodes[0] == fresh_leaf(c));
}

/// Every placement of a pack, successful or not, lies inside the container.
pub proof fn lemma_pack_within<T>(items: Seq<Item<T>>, container: Rect)
    requires
        fits(container),
    ensures
        forall|k: int|
            0 <= k < pack_model(items, container).0.len() ==> encloses(
                container,
                #[trigger] pack_model(items, container).0[k].rect,
            ),
{
    lemma_root_sound(container);
    lemma_place_all(items, packing_order(items), root_arena(container), container, seq![]);
}

/// No two placements of a pack, successful or not, overlap.
pub proof fn lemma_pack_disjoint<T>(items: Seq<Item<T>>, container: Rect)
    requires
        fits(container),
    ensures
        forall|k: int, m: int|
            0 <= k < pack_model(items, container).0.len() && 0 <= m < pack_model(
                items,
                container,
            ).0.len() && k != m ==> !meets(
                #[trigger] pack_model(items, container).0[k].rect,
                #[trigger] pack_model(items, container).0[m].rect,
            ),
{
    lemma_root_sound(container);
    lemma_place_all(items, packing_order(items), root_arena(container), container, seq![]);
}

/// Placement `k` of a pack carries the payload of the `k`-th item in packing
/// order and has that item's size, turned only where the item may rotate
/// and is not square. A pack succeeds exactly when every item was placed.
pub proof fn lemma_pack_items<T>(items: Seq<Item<T>>, container: Rect)
    requires
        fits(container),
    ensures
        ({
            let (out, ok) = pack_model(items, container);
            let order = packing_order(items);
            &&& out.len() <= items.len()
            &&& ok <==> out.len() == items.len()
            &&& forall|k: int|
                0 <= k < out.len() ==> order[k] < items.len() && #[trigger] out[k].data
                    == items[order[k] as int].data && placed_as(items[order[k] as int], out[k].rect)
        }),
{
    lemma_root_sound(container);
    lemma_order_bounds(items, items.len());
    lemma_place_all(items, packing_order(items), root_arena(container), container, seq![]);
}

/// What every pack of `items` into `container` guarantees of its
/// placements `out` and its success flag `ok`: the packing order runs by
/// descending priority, ties in input order; each placement lies inside the
/// container; no two overlap; placement `k` carries the payload of the
/// `k`-th item in packing order, at that item's size or, only where it may
/// rotate and is not square, turned by 90°; success means every item was
/// placed; and the placed area does not exceed the container's.
pub open spec fn packed_well<T>(
    items: Seq<Item<T>>,
    container: Rect,
    out: Seq<PackedItem<T>>,
    ok: bool,
) -> bool {
    let order = packing_order(items);
    &&& priority_sorted(items, order)
    &&& forall|k: int| 0 <= k < out.len() ==> encloses(container, #[trigger] out[k].rect)
    &&& forall|k: int, m: int|
        0 <= k < out.len() && 0 <= m < out.len() && k != m ==> !meets(
            #[trigger] out[k].rect,
            #[trigger] out[m].rect,
        )
    &&& out.len() <= items.len()
    &&& ok <==> out.len() == items.len()
    &&& forall|k: int|
        0 <= k < out.len() ==> order[k] < items.len() && #[trigger] out[k].data == items[order[k] as int].data
            && placed_as(items[order[k] as int], out[k].rect)
    &&& placed_area(out) <= area_of(container)
}

/// Two packs of the same items into the same container give the same
/// placements and the same outcome.
pub proof fn lemma_pack_deterministic<T>(
    items: Seq<Item<T>>,
    container: Rect,
    first: Result<Vec<PackedItem<T>>, Vec<PackedItem<T>>>,
    second: Result<Vec<PackedItem<T>>, Vec<PackedItem<T>>>,
)
    requires
        outcome(first) == pack_model(items, container),
        outcome(second) == pack_model(items, container),
    ensures
        outcome(first) == outcome(second),
{
}

/// A packer that has packed before, given the same items as a fresh one,
/// packs them as the fresh one does: the arena and ordering buffers it keeps
/// between calls do not affect the result.
pub proof fn lemma_pack_reuse<T>(
    used: Packer<T>,
    fresh: Packer<T>,
    container: Rect,
    from_used: Result<Vec<PackedItem<T>>, Vec<PackedItem<T>>>,
    from_fresh: Result<Vec<PackedItem<T>>, Vec<PackedItem<T>>>,
)
    requires
        used@ == fresh@,
        outcome(from_used) == pack_model(used@, container),
        outcome(from_fresh) == pack_model(fresh@, container),
    ensures
        outcome(from_used) == outcome(from_fresh),
{
}

/// The summed area of all items.
pub open spec fn total_area<T>(items: Seq<Item<T>>) -> int
    decreases items.len(),
{
    if items.len() == 0 {
        0
    } else {
        total_area(items.drop_last()) + items.last().w * items.last().h
    }
}

/// The result of trying a `w` x `h` container: present if it is within
/// `max` on both axes, has at least the items' total area, and takes every
/// item.
#[verifier::opaque]
pub open spec fn try_size<T>(items: Seq<Item<T>>, max: usize, w: int, h: int) -> Option<
    (usize, usize, Seq<PackedItem<T>>),
> {
    let c = Rect { x: 0, y: 0, w: w as usize, h: h as usize };
    if w <= max && h <= max && w * h >= total_area(items) && pack_model(items, c).1 {
        Some((w as usize, h as usize, pack_model(items, c).0))
    } else {
        None
    }
}

/// The first success among `size` x `size`, `2size` x `size` and
/// `size` x `2size`, then the same for `2size`, and so on while `size`
/// stays within `max`.
pub open spec fn po2_search<T>(items: Seq<Item<T>>, max: usize, size: int) -> Option<
    (usize, usize, Seq<PackedItem<T>>),
>
    decreases max - size,
{
    if size < 1 || size > max {
        None
    } else {
        let a = try_size(items, max, size, size);
        let b = try_size(items, max, 2 * size, size);
        let c = try_size(items, max, size, 2 * size);
        if a is Some {
            a
        } else if b is Some {
            b
        } else if c is Some {
            c
        } else if 2 * size <= max {
            po2_search(items, max, 2 * size)
        } else {
            None
        }
    }
}

/// What the power-of-two search over `items` yields, starting from side 1,
/// the smallest sides tried
/// first.
pub open spec fn po2_model<T>(items: Seq<Item<T>>, max: usize) -> Option<
    (usize, usize, Seq<PackedItem<T>>),
> {
    po2_search(items, max, 1)
}

/// `n` is a power of two (1, 2, 4, ...).
pub open spec fn is_po2_side(n: int) -> bool
    decreases n,
{
    if n <= 1 {
        n == 1
    } else {
        n % 2 == 0 && is_po2_side(n / 2)
    }
}

/// `x`, or `u128::MAX` if it is larger.
pub open spec fn capped(x: int) -> int {
    if x < u128::MAX {
        x
    } else {
        u128::MAX as int
    }
}

proof fn lemma_skip_small<T>(items: Seq<Item<T>>, max: usize, size: int)
    requires
        1 <= size <= max,
        2 * (size * size) < total_area(items),
    ensures
        po2_search(items, max, size) == po2_search(items, max, 2 * size),
{
    reveal(try_size);
    assert(size * size <= 2 * (size * size)) by (nonlinear_arith)
        requires
            1 <= size,
    ;
    assert(2 * (size * size) == (2 * size) * size && 2 * (size * size) == size * (2 * size))
        by (nonlinear_arith);
}

proof fn lemma_double_po2(n: int)
    requires
        is_po2_side(n),
    ensures
        is_po2_side(2 * n),
{
    assert((2 * n) / 2 == n);
}

/// Every container the power-of-two search returns has sides that are
/// powers of two, each at most `max`, and an area of at least the items'
/// total; every item was placed in it.
pub proof fn lemma_po2_search_sides<T>(items: Seq<Item<T>>, max: usize, size: int)
    requires
        is_po2_side(size),
    ensures
        po2_search(items, max, size) matches Some((w, h, out)) ==> is_po2_side(w as int)
            && is_po2_side(h as int) && w <= max && h <= max && w * h >= total_area(items)
            && pack_model(items, Rect { x: 0, y: 0, w, h }) == (out, true),
    decreases max - size,
{
    reveal(try_size);
    lemma_double_po2(size);
    if 1 <= size && 2 * size <= max as int {
        lemma_po2_search_sides(items, max, 2 * size);
    }
}

/// A packer for items of type `Item<T>`.
pub struct Packer<T> {
    items_to_pack: Vec<Item<T>>,
    nodes: Vec<Node>,
    indices: Vec<usize>,
}

impl<T> View for Packer<T> {
    type V = Seq<Item<T>>;

    /// The items waiting to be packed, in the order they were given.
    closed spec fn view(&self) -> Seq<Item<T>> {
        self.items_to_pack@
    }
}

impl<T> Packer<T> {
    /// Creates a new, empty packer.
    pub fn new() -> (r: Self)
        ensures
            r@ == Seq::<Item<T>>::empty(),
    {
        Packer { items_to_pack: Vec::new(), nodes: Vec::new(), indices: Vec::new() }
    }

    /// Creates an empty packer with room for `capacity` items.
    pub fn with_capacity(capacity: usize) -> (r: Self)
        ensures
            r@ == Seq::<Item<T>>::empty(),
    {
        Packer {
            items_to_pack: Vec::with_capacity(capacity),
            nodes: Vec::new(),
            indices: Vec::new(),
        }
    }

    /// Creates a packer holding `items`.
    pub fn with_items(items: Vec<Item<T>>) -> (r: Self)
        ensures
            r@ == items@,
    {
        Packer { items_to_pack: items, nodes: Vec::new(), indices: Vec::new() }
    }

    /// Removes every pending item.
    pub fn clear(&mut self)
        ensures
            final(self)@ == Seq::<Item<T>>::empty(),
    {
        self.items_to_pack.clear();
    }

    /// Adds one item.
    pub fn push(&mut self, item: Item<T>)
        ensures
            final(self)@ == old(self)@.push(item),
    {
        self.items_to_pack.push(item);
    }

    /// Adds `items`, after those already pending.
    pub fn extend(&mut self, items: Vec<Item<T>>)
        ensures
            final(self)@ == old(self)@ + items@,
    {
        let mut items = items;
        self.items_to_pack.append(&mut items);
    }
}

impl<T> Default for Packer<T> {
    /// An empty packer, as `Packer::new()` makes.
    fn default() -> (r: Self)
        ensures
            r@ == Seq::<Item<T>>::empty(),
    {
        Self::new()
    }
}

impl<T: Copy> Packer<T> {
    /// Fills `self.indices` with the packing order of the pending items.
    fn sort_indices(&mut self)
        ensures
            final(self).items_to_pack == old(self).items_to_pack,
            final(self).nodes == old(self).nodes,
            final(self).indices@ == packing_order(old(self).items_to_pack@),
            old(self).items_to_pack@.len() <= usize::MAX,
    {
        self.indices.clear();
        let n = self.items_to_pack.len();
        let mut i: usize = 0;
        while i < n
            invariant
                n == self.items_to_pack.len(),
                self.items_to_pack == old(self).items_to_pack,
                self.nodes == old(self).nodes,
                i <= n,
                self.indices@ == order_prefix(self.items_to_pack@, i as nat),
            decreases n - i,
        {
            proof {
                lemma_order_bounds(self.items_to_pack@, i as nat);
            }
            let key = self.items_to_pack[i].sort_priority();
            let mut j: usize = 0;
            while j < self.indices.len() && self.items_to_pack[self.indices[j]].sort_priority() >= key
                invariant
                    n == self.items_to_pack.len(),
                    i < n,
                    self.indices@ == order_prefix(self.items_to_pack@, i as nat),
                    self.indices.len() == i,
                    forall|m: int| 0 <= m < i ==> #[trigger] self.indices@[m] < i,
                    key == priority(self.items_to_pack@[i as int]),
                    j <= self.indices.len(),
                    forall|m: int|
                        0 <= m < j ==> priority(self.items_to_pack@[#[trigger] self.indices@[m] as int])
                            >= key,
                decreases self.indices.len() - j,
            {
                j = j + 1;
            }
            proof {
                lemma_insert_at(self.items_to_pack@, self.indices@, i, j as int);
            }
            self.indices.insert(j, i);
            i = i + 1;
        }
    }

    /// Attempts to pack all the items into `into_rect`. On success returns
    /// every placement; on failure, the placements made before the first
    /// item that did not fit. Placements come in packing order.
    ///
    /// The packer may be used again, with the same or other items and
    /// containers: each call starts afresh, and its result depends on the
    /// pending items and `into_rect` alone.
    pub fn pack(&mut self, into_rect: Rect) -> (r: Result<Vec<PackedItem<T>>, Vec<PackedItem<T>>>)
        requires
            fits(into_rect),
        ensures
            final(self)@ == old(self)@,
            outcome(r) == pack_model(old(self)@, into_rect),
            packed_well(old(self)@, into_rect, outcome(r).0, outcome(r).1),
    {
        let r = self.place_items(into_rect);
        proof {
            lemma_pack_well(old(self)@, into_rect);
        }
        r
    }

    /// Runs one pack: resets the arena, orders the items, places them.
    fn place_items(&mut self, into_rect: Rect) -> (r: Result<Vec<PackedItem<T>>, Vec<PackedItem<T>>>)
        requires
            fits(into_rect),
        ensures
            final(self)@ == old(self)@,
            outcome(r) == pack_model(old(self)@, into_rect),
            old(self)@.len() <= usize::MAX,
    {
        self.nodes.clear();
        self.nodes.push(Node { rect: into_rect, is_split: false, split: [0, 0, 0, 0] });
        self.sort_indices();
        let ghost items = self.items_to_pack@;
        let ghost order = self.indices@;
        proof {
            lemma_order_bounds(items, items.len());
            assert(self.nodes@ =~= root_arena(into_rect));
            assert(order.skip(0) =~= order);
            assert(wf(self.nodes@));
        }
        let mut packed: Vec<PackedItem<T>> = Vec::new();
        let mut ind: usize = 0;
        while ind < self.indices.len()
            invariant
                self.items_to_pack@ == items,
                items == old(self)@,
                self.indices@ == order,
                order == packing_order(items),
                order.len() == items.len(),
                forall|m: int| 0 <= m < order.len() ==> #[trigger] order[m] < items.len(),
                wf(self.nodes@),
                all_fit(self.nodes@),
                self.nodes.len() > 0,
                ind <= order.len(),
                pack_model(items, into_rect) == ({
                    let rest = place_all(items, order.skip(ind as int), self.nodes@);
                    (packed@ + rest.0, rest.1)
                }),
            decreases order.len() - ind,
        {
            let item_index = self.indices[ind];
            let w = self.items_to_pack[item_index].w;
            let h = self.items_to_pack[item_index].h;
            let rot = self.items_to_pack[item_index].rot;
            let data = self.items_to_pack[item_index].data;
            let ghost nodes = self.nodes@;
            let ghost rest = order.skip(ind as int);
            proof {
                lemma_best_node(nodes, w as int, h as int, 0);
                lemma_best_node(nodes, h as int, w as int, 0);
                assert(rest[0] == item_index);
            }
            let mut pack_w = w;
            let mut pack_h = h;
            let (mut node_i, score) = find_best_node(&self.nodes, w, h, 0);
            if rot == Rotation::Allowed && w != h {
                let (i, s) = find_best_node(&self.nodes, h, w, 0);
                if s.better_than(&score) {
                    node_i = i;
                    pack_w = h;
                    pack_h = w;
                }
            }
            if node_i == NONE {
                proof {
                    assert(packed@ + seq![] =~= packed@);
                }
                return Err(packed);
            }
            let (node_x, node_y) = self.nodes[node_i].rect.top_left();
            let rect = Rect::new(node_x, node_y, pack_w, pack_h);
            split_tree(&rect, &mut self.nodes);
            let ghost prev = packed@;
            packed.push(PackedItem { data, rect });
            proof {
                assert(rest.drop_first() =~= order.skip(ind + 1));
                let tail = place_all(items, order.skip(ind + 1), self.nodes@);
                assert(packed@ + tail.0 =~= prev + (seq![PackedItem { data, rect }] + tail.0));
            }
            ind = ind + 1;
        }
        proof {
            assert(packed@ + seq![] =~= packed@);
        }
        Ok(packed)
    }

    /// Tries a `w` x `h` container, where it is within `max_size` on both
    /// axes and its area is at least `min_area`.
    fn try_container(&mut self, w: usize, h: usize, max_size: usize, min_area: u128) -> (r: Option<
        PackedItems<T>,
    >)
        requires
            min_area == capped(total_area(old(self)@)),
        ensures
            final(self)@ == old(self)@,
            match r {
                Some(p) => try_size(old(self)@, max_size, w as int, h as int) == Some(
                    (p.w, p.h, p.items@),
                ),
                None => try_size(old(self)@, max_size, w as int, h as int) is None,
            },
    {
        reveal(try_size);
        if w <= max_size && h <= max_size && wide_mul(w, h) >= min_area {
            proof {
                assert(w * h < u128::MAX) by (nonlinear_arith)
                    requires
                        0 <= w <= u64::MAX,
                        0 <= h <= u64::MAX,
                ;
            }
            match self.pack(Rect::of_size(w, h)) {
                Ok(items) => Some(PackedItems { w, h, items }),
                Err(_) => None,
            }
        } else {
            proof {
                if w <= max_size && h <= max_size {
                    assert(w * h <= u64::MAX * u64::MAX) by (nonlinear_arith)
                        requires
                            0 <= w <= u64::MAX,
                            0 <= h <= u64::MAX,
                    ;
                }
            }
            None
        }
    }

    /// Attempts to pack the items into a power-of-two container whose sides
    /// do not exceed `max_size`. Side lengths are tried from 1 upward,
    /// doubling, skipping those too small for the items' total area; for
    /// each, a square, then a wide and then a tall container of twice the
    /// area. The first container that takes every item is returned.
    ///
    /// On success, returns the size of the container and the placements.
    pub fn pack_into_po2(&mut self, max_size: usize) -> (r: Result<PackedItems<T>, ()>)
        ensures
            final(self)@ == old(self)@,
            match r {
                Ok(p) => po2_model(old(self)@, max_size) == Some((p.w, p.h, p.items@)),
                Err(_) => po2_model(old(self)@, max_size) is None,
            },
            r matches Ok(p) ==> is_po2_side(p.w as int) && is_po2_side(p.h as int) && p.w <= max_size
                && p.h <= max_size,
            r matches Ok(p) ==> p.w * p.h >= total_area(old(self)@) && packed_well(
                old(self)@,
                Rect { x: 0, y: 0, w: p.w, h: p.h },
                p.items@,
                true,
            ),
    {
        let ghost items = self@;
        let n = self.items_to_pack.len();
        let mut min_area: u128 = 0;
        let mut i: usize = 0;
        while i < n
            invariant
                self@ == items,
                n == items.len(),
                i <= n,
                min_area == capped(total_area(items.take(i as int))),
            decreases n - i,
        {
            let a = wide_mul(self.items_to_pack[i].w, self.items_to_pack[i].h);
            proof {
                assert(items.take(i + 1).drop_last() =~= items.take(i as int));
                assert(total_area(items.take(i as int)) >= 0) by {
                    lemma_total_area_nonneg(items.take(i as int));
                }
            }
            min_area = if a <= u128::MAX - min_area {
                min_area + a
            } else {
                u128::MAX
            };
            i = i + 1;
        }
        proof {
            assert(items.take(n as int) =~= items);
            assert(is_po2_side(1));
            lemma_po2_search_sides(items, max_size, 1);
        }
        let mut size: usize = 1;
        while size <= max_size / 2 && below_seed(size, min_area)
            invariant
                self@ == items,
                items == old(self)@,
                items.len() <= usize::MAX,
                po2_model(items, max_size) matches Some((w, h, out)) ==> is_po2_side(w as int)
                    && is_po2_side(h as int) && w <= max_size && h <= max_size && w * h
                    >= total_area(items) && pack_model(items, Rect { x: 0, y: 0, w, h }) == (out, true),
                min_area == capped(total_area(items)),
                is_po2_side(size as int),
                1 <= size,
                po2_model(items, max_size) == po2_search(items, max_size, size as int),
            decreases max_size - size,
        {
            proof {
                lemma_skip_small(items, max_size, size as int);
                lemma_double_po2(size as int);
            }
            size = size * 2;
        }
        while size <= max_size
            invariant
                self@ == items,
                items == old(self)@,
                items.len() <= usize::MAX,
                po2_model(items, max_size) matches Some((w, h, out)) ==> is_po2_side(w as int)
                    && is_po2_side(h as int) && w <= max_size && h <= max_size && w * h
                    >= total_area(items) && pack_model(items, Rect { x: 0, y: 0, w, h }) == (out, true),
                min_area == capped(total_area(items)),
                is_po2_side(size as int),
                1 <= size,
                po2_model(items, max_size) == po2_search(items, max_size, size as int),
            decreases max_size - size,
        {
            if let Some(found) = self.try_container(size, size, max_size, min_area) {
                proof {
                    lemma_po2_well(items, found.w, found.h);
                }
                return Ok(found);
            }
            if size > max_size / 2 {
                proof {
                    assert(try_size(items, max_size, 2 * size, size as int) is None) by {
                        reveal(try_size);
                    }
                    assert(try_size(items, max_size, size as int, 2 * size) is None) by {
                        reveal(try_size);
                    }
                }
                return Err(());
            }
            let double = size * 2;
            if let Some(found) = self.try_container(double, size, max_size, min_area) {
                proof {
                    lemma_po2_well(items, found.w, found.h);
                }
                return Ok(found);
            }
            if let Some(found) = self.try_container(size, double, max_size, min_area) {
                proof {
                    lemma_po2_well(items, found.w, found.h);
                }
                return Ok(found);
            }
            proof {
                lemma_double_po2(size as int);
            }
            size = double;
        }
        Err(())
    }
}

proof fn lemma_po2_well<T>(items: Seq<Item<T>>, w: usize, h: usize)
    requires
        items.len() <= usize::MAX,
    ensures
        packed_well(
            items,
            Rect { x: 0, y: 0, w, h },
            pack_model(items, Rect { x: 0, y: 0, w, h }).0,
            pack_model(items, Rect { x: 0, y: 0, w, h }).1,
        ),
{
    let c = Rect { x: 0, y: 0, w, h };
    assert(fits(c));
    lemma_pack_well(items, c);
}

/// A pack's placements and outcome meet `packed_well`.
pub proof fn lemma_pack_well<T>(items: Seq<Item<T>>, c: Rect)
    requires
        fits(c),
        items.len() <= usize::MAX,
    ensures
        packed_well(items, c, pack_model(items, c).0, pack_model(items, c).1),
{
    lemma_pack_within(items, c);
    lemma_pack_disjoint(items, c);
    lemma_pack_items(items, c);
    lemma_pack_area(items, c);
    lemma_order_bounds(items, items.len());
    lemma_packing_order(items);
}

/// Whether `2 * (size * size)` is below `min_area`.
fn below_seed(size: usize, min_area: u128) -> (r: bool)
    requires
        size <= usize::MAX / 2,
    ensures
        r == (2 * (size * size) < min_area),
{
    let sq = wide_mul(size, size);
    proof {
        assert(size * size <= 0x8000_0000_0000_0000 * 0x8000_0000_0000_0000) by (nonlinear_arith)
            requires
                0 <= size <= 0x8000_0000_0000_0000,
        ;
    }
    2 * sq < min_area
}

proof fn lemma_total_area_nonneg<T>(items: Seq<Item<T>>)
    ensures
        total_area(items) >= 0,
    decreases items.len(),
{
    if items.len() > 0 {
        lemma_total_area_nonneg(items.drop_last());
        assert(items.last().w * items.last().h >= 0) by (nonlinear_arith);
    }
}

/// Packs `items` into `into_rect`; a shorthand for a fresh `Packer` holding
/// `items`. Returns every placement on success, or those made before the
/// first item that did not fit.
pub fn pack<T: Copy>(into_rect: Rect, items: Vec<Item<T>>) -> (r: Result<
    Vec<PackedItem<T>>,
    Vec<PackedItem<T>>,
>)
    requires
        fits(into_rect),
    ensures
        outcome(r) == pack_model(items@, into_rect),
        packed_well(items@, into_rect, outcome(r).0, outcome(r).1),
{
    let mut packer = Packer::with_items(items);
    packer.pack(into_rect)
}

/// Packs `items` into the first power-of-two container, in the order that
/// `Packer::pack_into_po2` tries them, that takes every item and whose sides
/// do not exceed `max_size`.
pub fn pack_into_po2<T: Copy>(max_size: usize, items: Vec<Item<T>>) -> (r: Result<PackedItems<T>, ()>)
    ensures
        match r {
            Ok(p) => po2_model(items@, max_size) == Some((p.w, p.h, p.items@)),
            Err(_) => po2_model(items@, max_size) is None,
        },
        r matches Ok(p) ==> is_po2_side(p.w as int) && is_po2_side(p.h as int) && p.w <= max_size
            && p.h <= max_size,
        r matches Ok(p) ==> p.w * p.h >= total_area(items@) && packed_well(
            items@,
            Rect { x: 0, y: 0, w: p.w, h: p.h },
            p.items@,
            true,
        ),
{
    let mut packer = Packer::with_items(items);
    packer.pack_into_po2(max_size)
}

} // verus!
