//! The free-space tree: an arena of nodes, each a free leaf region or a
//! branch whose children (at most four) are regions carved out of it.
//! Child indices point into the same arena; `0` marks an absent child, which
//! is safe because the root sits at index 0 and is nobody's child.
use vstd::prelude::*;
use crate::item::wide_mul;
use crate::rect::{Rect, encloses, fits, meets, residuals};

verus! {

/// The node index that stands for "no node found".
pub const NONE: usize = usize::MAX;

#[derive(Clone, Copy)]
pub struct Node {
    pub rect: Rect,
    pub is_split: bool,
    pub split: [usize; 4],
}

/// How well a requested size fits a free region: wasted area first, then the
/// smaller of the two leftover side lengths. Lower is better.
#[derive(Clone, Copy)]
pub struct Score {
    pub area_fit: u128,
    pub short_fit: u128,
}

pub open spec fn score_of(r: Rect, w: int, h: int) -> Score {
    Score {
        area_fit: (r.w * r.h - w * h) as u128,
        short_fit: (if r.w - w <= r.h - h { r.w - w } else { r.h - h }) as u128,
    }
}

pub open spec fn worst_score() -> Score {
    Score { area_fit: u128::MAX, short_fit: u128::MAX }
}

pub open spec fn beats(a: Score, b: Score) -> bool {
    a.area_fit < b.area_fit || (a.area_fit == b.area_fit && a.short_fit < b.short_fit)
}

impl Score {
    /// Scores placing a `w` x `h` item into `rect`.
    pub fn new(rect: &Rect, w: usize, h: usize) -> (r: Score)
        requires
            w <= rect.w,
            h <= rect.h,
        ensures
            r == score_of(*rect, w as int, h as int),
    {
        let extra_x = rect.w - w;
        let extra_y = rect.h - h;
        let whole = wide_mul(rect.w, rect.h);
        let used = wide_mul(w, h);
        proof {
            assert(w * h <= rect.w * rect.h) by (nonlinear_arith)
                requires
                    0 <= w <= rect.w,
                    0 <= h <= rect.h,
            ;
        }
        Score {
            area_fit: whole - used,
            short_fit: if extra_x <= extra_y {
                extra_x as u128
            } else {
                extra_y as u128
            },
        }
    }

    /// The "no candidate" score, which no real score is worse than.
    pub fn worst() -> (r: Score)
        ensures
            r == worst_score(),
    {
        Score { area_fit: u128::MAX, short_fit: u128::MAX }
    }

    /// Returns true if `self` is strictly better than `other`.
    pub fn better_than(&self, other: &Score) -> (r: bool)
        ensures
            r == beats(*self, *other),
    {
        self.area_fit < other.area_fit || (self.area_fit == other.area_fit
            && self.short_fit < other.short_fit)
    }
}

/// Every child index is absent (`0`) or points further along the arena.
pub open spec fn wf(nodes: Seq<Node>) -> bool {
    forall|i: int, k: int|
        0 <= i < nodes.len() && 0 <= k < 4 ==> #[trigger] nodes[i].split[k] == 0 || (i
            < nodes[i].split[k] && nodes[i].split[k] < nodes.len())
}

/// Every region's far edges are representable.
pub open spec fn all_fit(nodes: Seq<Node>) -> bool {
    forall|i: int| 0 <= i < nodes.len() ==> fits(#[trigger] nodes[i].rect)
}

pub open spec fn is_kid(nodes: Seq<Node>, idx: usize, c: usize) -> bool {
    idx < c && c < nodes.len()
}

pub open spec fn no_node() -> (usize, Score) {
    (NONE, worst_score())
}

pub open spec fn pick(acc: (usize, Score), cand: (usize, Score)) -> (usize, Score) {
    if beats(cand.1, acc.1) {
        cand
    } else {
        acc
    }
}

/// The best-scoring leaf under `idx` that can hold a `w` x `h` item, or
/// `no_node()`. A subtree whose region is too small is skipped whole; among
/// children, an earlier one wins ties.
pub open spec fn best_node(nodes: Seq<Node>, w: int, h: int, idx: usize) -> (usize, Score)
    decreases nodes.len() - idx,
{
    if idx < nodes.len() {
        let n = nodes[idx as int];
        if w <= n.rect.w && h <= n.rect.h {
            if n.is_split {
                let c0 = n.split[0];
                let c1 = n.split[1];
                let c2 = n.split[2];
                let c3 = n.split[3];
                let r0 = if is_kid(nodes, idx, c0) {
                    best_node(nodes, w, h, c0)
                } else {
                    no_node()
                };
                let r1 = if is_kid(nodes, idx, c1) {
                    best_node(nodes, w, h, c1)
                } else {
                    no_node()
                };
                let r2 = if is_kid(nodes, idx, c2) {
                    best_node(nodes, w, h, c2)
                } else {
                    no_node()
                };
                let r3 = if is_kid(nodes, idx, c3) {
                    best_node(nodes, w, h, c3)
                } else {
                    no_node()
                };
                pick(pick(pick(pick(no_node(), r0), r1), r2), r3)
            } else {
                (idx, score_of(n.rect, w, h))
            }
        } else {
            no_node()
        }
    } else {
        no_node()
    }
}

pub open spec fn kid_best(nodes: Seq<Node>, w: int, h: int, idx: usize, k: int) -> (
    usize,
    Score,
) {
    let c = nodes[idx as int].split[k];
    if is_kid(nodes, idx, c) {
        best_node(nodes, w, h, c)
    } else {
        no_node()
    }
}

pub open spec fn kids_best(nodes: Seq<Node>, w: int, h: int, idx: usize, k: int) -> (
    usize,
    Score,
)
    decreases k,
{
    if k <= 0 {
        no_node()
    } else {
        pick(kids_best(nodes, w, h, idx, k - 1), kid_best(nodes, w, h, idx, k - 1))
    }
}

/// Returns the best leaf under `node_index` for a `w` x `h` item and its
/// score, or `NONE` with the worst score.
pub fn find_best_node(nodes: &Vec<Node>, w: usize, h: usize, node_index: usize) -> (r: (
    usize,
    Score,
))
    requires
        wf(nodes@),
        node_index < nodes.len(),
    ensures
        r == best_node(nodes@, w as int, h as int, node_index),
    decreases nodes@.len() - node_index,
{
    let node = nodes[node_index];
    if w <= node.rect.w && h <= node.rect.h {
        if node.is_split {
            let mut best = (NONE, Score::worst());
            let mut k: usize = 0;
            while k < 4
                invariant
                    wf(nodes@),
                    node_index < nodes.len(),
                    node == nodes@[node_index as int],
                    k <= 4,
                    best == kids_best(nodes@, w as int, h as int, node_index, k as int),
                decreases 4 - k,
            {
                let child = node.split[k];
                if child > 0 {
                    let (i, s) = find_best_node(nodes, w, h, child);
                    if s.better_than(&best.1) {
                        best = (i, s);
                    }
                }
                k = k + 1;
            }
            proof {
                reveal_with_fuel(kids_best, 5);
            }
            best
        } else {
            (node_index, Score::new(&node.rect, w, h))
        }
    } else {
        (NONE, Score::worst())
    }
}

/// Some leaf under `idx`, reached through regions that enclose `r`,
/// encloses `r`.
pub open spec fn leaf_holds(nodes: Seq<Node>, r: Rect, idx: usize) -> bool
    decreases nodes.len() - idx,
{
    if idx < nodes.len() {
        let n = nodes[idx as int];
        let c0 = n.split[0];
        let c1 = n.split[1];
        let c2 = n.split[2];
        let c3 = n.split[3];
        encloses(n.rect, r) && (!n.is_split || (is_kid(nodes, idx, c0) && leaf_holds(nodes, r, c0))
            || (is_kid(nodes, idx, c1) && leaf_holds(nodes, r, c1)) || (is_kid(nodes, idx, c2)
            && leaf_holds(nodes, r, c2)) || (is_kid(nodes, idx, c3) && leaf_holds(nodes, r, c3)))
    } else {
        false
    }
}

pub open spec fn kid_holds(nodes: Seq<Node>, r: Rect, idx: usize, k: int) -> bool {
    let c = nodes[idx as int].split[k];
    is_kid(nodes, idx, c) && leaf_holds(nodes, r, c)
}

/// Returns true if some leaf reachable from `node_index` contains `rect`.
pub fn leaf_contains_rect(rect: &Rect, nodes: &Vec<Node>, node_index: usize) -> (r: bool)
    requires
        wf(nodes@),
        node_index < nodes.len(),
    ensures
        r == leaf_holds(nodes@, *rect, node_index),
    decreases nodes@.len() - node_index,
{
    let node = nodes[node_index];
    if !node.rect.contains(rect) {
        return false;
    }
    if !node.is_split {
        return true;
    }
    let mut k: usize = 0;
    while k < 4
        invariant
            wf(nodes@),
            node_index < nodes.len(),
            node == nodes@[node_index as int],
            k <= 4,
            encloses(node.rect, *rect),
            node.is_split,
            forall|m: int| 0 <= m < k ==> !#[trigger] kid_holds(nodes@, *rect, node_index, m),
        decreases 4 - k,
    {
        let child = node.split[k];
        if child > 0 && leaf_contains_rect(rect, nodes, child) {
            proof {
                assert(kid_holds(nodes@, *rect, node_index, k as int));
                assert(leaf_holds(nodes@, *rect, node_index)) by {
                    if k == 0 {
                    } else if k == 1 {
                    } else if k == 2 {
                    } else {
                    }
                }
            }
            return true;
        }
        k = k + 1;
    }
    proof {
        assert(!kid_holds(nodes@, *rect, node_index, 0));
        assert(!kid_holds(nodes@, *rect, node_index, 1));
        assert(!kid_holds(nodes@, *rect, node_index, 2));
        assert(!kid_holds(nodes@, *rect, node_index, 3));
    }
    false
}

/// The leaves under `idx` whose regions overlap `r`, in depth-first order,
/// found by descending only into regions that overlap `r`.
pub open spec fn overlapped_leaves(nodes: Seq<Node>, r: Rect, idx: usize) -> Seq<usize>
    decreases nodes.len() - idx,
{
    if idx < nodes.len() && meets(nodes[idx as int].rect, r) {
        let n = nodes[idx as int];
        if n.is_split {
            let c0 = n.split[0];
            let c1 = n.split[1];
            let c2 = n.split[2];
            let c3 = n.split[3];
            let s0 = if is_kid(nodes, idx, c0) {
                overlapped_leaves(nodes, r, c0)
            } else {
                seq![]
            };
            let s1 = if is_kid(nodes, idx, c1) {
                overlapped_leaves(nodes, r, c1)
            } else {
                seq![]
            };
            let s2 = if is_kid(nodes, idx, c2) {
                overlapped_leaves(nodes, r, c2)
            } else {
                seq![]
            };
            let s3 = if is_kid(nodes, idx, c3) {
                overlapped_leaves(nodes, r, c3)
            } else {
                seq![]
            };
            s0 + s1 + s2 + s3
        } else {
            seq![idx]
        }
    } else {
        seq![]
    }
}

pub open spec fn kid_leaves(nodes: Seq<Node>, r: Rect, idx: usize, k: int) -> Seq<usize> {
    let c = nodes[idx as int].split[k];
    if is_kid(nodes, idx, c) {
        overlapped_leaves(nodes, r, c)
    } else {
        seq![]
    }
}

pub open spec fn kids_leaves(nodes: Seq<Node>, r: Rect, idx: usize, k: int) -> Seq<usize>
    decreases k,
{
    if k <= 0 {
        seq![]
    } else {
        kids_leaves(nodes, r, idx, k - 1) + kid_leaves(nodes, r, idx, k - 1)
    }
}

/// Appends to `out` the leaves under `node_index` that overlap `rect`.
fn collect_overlapping(rect: &Rect, nodes: &Vec<Node>, node_index: usize, out: &mut Vec<usize>)
    requires
        wf(nodes@),
        node_index < nodes.len(),
    ensures
        final(out)@ == old(out)@ + overlapped_leaves(nodes@, *rect, node_index),
    decreases nodes@.len() - node_index,
{
    let node = nodes[node_index];
    if !node.rect.overlaps(rect) {
        assert(final(out)@ =~= old(out)@ + overlapped_leaves(nodes@, *rect, node_index));
        return;
    }
    if !node.is_split {
        out.push(node_index);
        return;
    }
    let ghost start = out@;
    let mut k: usize = 0;
    while k < 4
        invariant
            wf(nodes@),
            node_index < nodes.len(),
            node == nodes@[node_index as int],
            k <= 4,
            out@ == start + kids_leaves(nodes@, *rect, node_index, k as int),
        decreases 4 - k,
    {
        let child = node.split[k];
        if child > 0 {
            collect_overlapping(rect, nodes, child, out);
        }
        proof {
            assert(out@ =~= start + kids_leaves(nodes@, *rect, node_index, k + 1));
        }
        k = k + 1;
    }
    proof {
        reveal_with_fuel(kids_leaves, 5);
        assert(out@ =~= start + overlapped_leaves(nodes@, *rect, node_index));
    }
}

/// Each residual of `s` around an overlapping `r` lies inside `s` and
/// clear of `r`.
pub proof fn lemma_residuals(s: Rect, r: Rect, k: int)
    requires
        fits(s),
        meets(s, r),
        0 <= k < 4,
        residuals(s, r)[k] is Some,
    ensures
        encloses(s, residuals(s, r)[k]->0),
        !meets(residuals(s, r)[k]->0, r),
{
    let ps = residuals(s, r);
    if k == 0 {
        assert(ps[0] == residuals(s, r)[0]);
    } else if k == 1 {
        assert(ps[1] == residuals(s, r)[1]);
    } else if k == 2 {
        assert(ps[2] == residuals(s, r)[2]);
    } else {
        assert(ps[3] == residuals(s, r)[3]);
    }
}

pub open spec fn with_child(n: Node, k: int, c: usize) -> Node {
    Node {
        rect: n.rect,
        is_split: n.is_split,
        split: [
            if k == 0 {
                c
            } else {
                n.split[0]
            },
            if k == 1 {
                c
            } else {
                n.split[1]
            },
            if k == 2 {
                c
            } else {
                n.split[2]
            },
            if k == 3 {
                c
            } else {
                n.split[3]
            },
        ],
    }
}

pub open spec fn fresh_leaf(r: Rect) -> Node {
    Node { rect: r, is_split: false, split: [0usize, 0usize, 0usize, 0usize] }
}

/// Adds `piece` as child `k` of `leaf`, unless it is absent, already held
/// by a leaf, or the arena has no index left for it.
pub open spec fn add_piece(nodes: Seq<Node>, leaf: usize, k: int, piece: Option<Rect>) -> Seq<
    Node,
> {
    match piece {
        Some(p) => if nodes.len() < usize::MAX && !leaf_holds(nodes, p, 0) {
            nodes.update(leaf as int, with_child(nodes[leaf as int], k, nodes.len() as usize)).push(
                fresh_leaf(p),
            )
        } else {
            nodes
        },
        None => nodes,
    }
}

/// Turns `leaf` into a branch whose children are the residuals of its region
/// around `r`, if it is a leaf that overlaps `r`.
pub open spec fn carve_leaf(nodes: Seq<Node>, r: Rect, leaf: usize) -> Seq<Node> {
    if leaf < nodes.len() && !nodes[leaf as int].is_split && meets(nodes[leaf as int].rect, r) {
        let n = nodes[leaf as int];
        let ps = residuals(n.rect, r);
        let n0 = nodes.update(leaf as int, Node { rect: n.rect, is_split: true, split: n.split });
        add_piece(
            add_piece(add_piece(add_piece(n0, leaf, 0, ps[0]), leaf, 1, ps[1]), leaf, 2, ps[2]),
            leaf,
            3,
            ps[3],
        )
    } else {
        nodes
    }
}

pub open spec fn carve_all(nodes: Seq<Node>, r: Rect, leaves: Seq<usize>) -> Seq<Node>
    decreases leaves.len(),
{
    if leaves.len() == 0 {
        nodes
    } else {
        carve_all(carve_leaf(nodes, r, leaves[0]), r, leaves.drop_first())
    }
}

/// The arena after `r` is carved out of every free leaf it overlaps.
pub open spec fn split_result(nodes: Seq<Node>, r: Rect) -> Seq<Node> {
    carve_all(nodes, r, overlapped_leaves(nodes, r, 0))
}

proof fn lemma_add_piece_ok(nodes: Seq<Node>, leaf: usize, k: int, piece: Option<Rect>)
    requires
        wf(nodes),
        all_fit(nodes),
        leaf < nodes.len(),
        0 <= k < 4,
        piece is Some ==> encloses(nodes[leaf as int].rect, piece->0),
    ensures
        wf(add_piece(nodes, leaf, k, piece)),
        all_fit(add_piece(nodes, leaf, k, piece)),
{
    let res = add_piece(nodes, leaf, k, piece);
    lemma_add_piece_wf(nodes, leaf, k, piece);
    if res != nodes {
        let p = piece->0;
        assert(fits(p));
        assert forall|i: int| 0 <= i < res.len() implies fits(#[trigger] res[i].rect) by {
            if i < nodes.len() {
                assert(res[i].rect == nodes[i].rect);
            }
        }
    }
}

proof fn lemma_carve_leaf_ok(nodes: Seq<Node>, r: Rect, leaf: usize)
    requires
        wf(nodes),
        all_fit(nodes),
    ensures
        wf(carve_leaf(nodes, r, leaf)),
        all_fit(carve_leaf(nodes, r, leaf)),
        carve_leaf(nodes, r, leaf).len() >= nodes.len(),
{
    if leaf < nodes.len() && !nodes[leaf as int].is_split && meets(nodes[leaf as int].rect, r) {
        let n = nodes[leaf as int];
        let ps = residuals(n.rect, r);
        let n0 = nodes.update(leaf as int, Node { rect: n.rect, is_split: true, split: n.split });
        assert forall|i: int, j: int| 0 <= i < n0.len() && 0 <= j < 4 implies #[trigger] n0[i].split[j]
            == 0 || (i < n0[i].split[j] && n0[i].split[j] < n0.len()) by {
            assert(n0[i].split[j] == nodes[i].split[j]);
        }
        assert forall|i: int| 0 <= i < n0.len() implies fits(#[trigger] n0[i].rect) by {
            assert(n0[i].rect == nodes[i].rect);
        }
        let n1 = add_piece(n0, leaf, 0, ps[0]);
        let n2 = add_piece(n1, leaf, 1, ps[1]);
        let n3 = add_piece(n2, leaf, 2, ps[2]);
        if ps[0] is Some { lemma_residuals(n.rect, r, 0); }
        if ps[1] is Some { lemma_residuals(n.rect, r, 1); }
        if ps[2] is Some { lemma_residuals(n.rect, r, 2); }
        if ps[3] is Some { lemma_residuals(n.rect, r, 3); }
        lemma_add_piece_ok(n0, leaf, 0, ps[0]);
        assert(n1[leaf as int].rect == n.rect);
        lemma_add_piece_ok(n1, leaf, 1, ps[1]);
        assert(n2[leaf as int].rect == n.rect);
        lemma_add_piece_ok(n2, leaf, 2, ps[2]);
        assert(n3[leaf as int].rect == n.rect);
        lemma_add_piece_ok(n3, leaf, 3, ps[3]);
    }
}

proof fn lemma_carve_all_ok(nodes: Seq<Node>, r: Rect, leaves: Seq<usize>)
    requires
        wf(nodes),
        all_fit(nodes),
    ensures
        wf(carve_all(nodes, r, leaves)),
        all_fit(carve_all(nodes, r, leaves)),
        carve_all(nodes, r, leaves).len() >= nodes.len(),
    decreases leaves.len(),
{
    if leaves.len() > 0 {
        lemma_carve_leaf_ok(nodes, r, leaves[0]);
        lemma_carve_all_ok(carve_leaf(nodes, r, leaves[0]), r, leaves.drop_first());
    }
}

/// Adds `piece` as child `k` of `leaf` unless a leaf already holds it.
fn add_piece_to(nodes: &mut Vec<Node>, leaf: usize, k: usize, piece: Option<Rect>)
    requires
        wf(old(nodes)@),
        leaf < old(nodes).len(),
        k < 4,
    ensures
        final(nodes)@ == add_piece(old(nodes)@, leaf, k as int, piece),
{
    if let Some(p) = piece {
        if nodes.len() < usize::MAX && !leaf_contains_rect(&p, nodes, 0) {
            let child = nodes.len();
            let mut n = nodes[leaf];
            n.split[k] = child;
            proof {
                assert(n.split =~= with_child(old(nodes)@[leaf as int], k as int, child).split);
            }
            nodes.set(leaf, n);
            nodes.push(Node { rect: p, is_split: false, split: [0, 0, 0, 0] });
        }
    }
}

/// Turns `leaf` into a branch over its residuals around `rect`, if it is a
/// leaf that overlaps `rect`.
fn carve(rect: &Rect, nodes: &mut Vec<Node>, leaf: usize)
    requires
        wf(old(nodes)@),
        all_fit(old(nodes)@),
        fits(*rect),
    ensures
        final(nodes)@ == carve_leaf(old(nodes)@, *rect, leaf),
{
    if leaf >= nodes.len() {
        return;
    }
    let n = nodes[leaf];
    if n.is_split || !n.rect.overlaps(rect) {
        return;
    }
    let pieces = n.rect.split(rect);
    nodes.set(leaf, Node { rect: n.rect, is_split: true, split: n.split });
    let ghost n0 = nodes@;
    proof {
        assert forall|i: int, j: int| 0 <= i < n0.len() && 0 <= j < 4 implies #[trigger] n0[i].split[j]
            == 0 || (i < n0[i].split[j] && n0[i].split[j] < n0.len()) by {
            assert(n0[i].split[j] == old(nodes)@[i].split[j]);
        }
    }
    add_piece_to(nodes, leaf, 0, pieces[0]);
    proof {
        lemma_add_piece_wf(n0, leaf, 0, pieces[0]);
    }
    let ghost n1 = nodes@;
    add_piece_to(nodes, leaf, 1, pieces[1]);
    proof {
        lemma_add_piece_wf(n1, leaf, 1, pieces[1]);
    }
    let ghost n2 = nodes@;
    add_piece_to(nodes, leaf, 2, pieces[2]);
    proof {
        lemma_add_piece_wf(n2, leaf, 2, pieces[2]);
    }
    add_piece_to(nodes, leaf, 3, pieces[3]);
}

proof fn lemma_add_piece_wf(nodes: Seq<Node>, leaf: usize, k: int, piece: Option<Rect>)
    requires
        wf(nodes),
        leaf < nodes.len(),
        0 <= k < 4,
    ensures
        wf(add_piece(nodes, leaf, k, piece)),
        add_piece(nodes, leaf, k, piece).len() >= nodes.len(),
{
    let res = add_piece(nodes, leaf, k, piece);
    if res != nodes {
        assert forall|i: int, j: int| 0 <= i < res.len() && 0 <= j < 4 implies #[trigger] res[i].split[j]
            == 0 || (i < res[i].split[j] && res[i].split[j] < res.len()) by {
            if i == leaf {
                if j != k {
                    assert(res[i].split[j] == nodes[i].split[j]);
                }
            } else if i < nodes.len() {
                assert(res[i] == nodes[i]);
            }
        }
    }
}

/// Carves `rect` out of every free leaf it overlaps: each such leaf becomes
/// a branch over the parts of it that `rect` leaves free.
pub fn split_tree(rect: &Rect, nodes: &mut Vec<Node>)
    requires
        wf(old(nodes)@),
        all_fit(old(nodes)@),
        old(nodes).len() > 0,
        fits(*rect),
    ensures
        final(nodes)@ == split_result(old(nodes)@, *rect),
        wf(final(nodes)@),
        all_fit(final(nodes)@),
        final(nodes).len() >= old(nodes).len(),
{
    let mut leaves: Vec<usize> = Vec::new();
    collect_overlapping(rect, nodes, 0, &mut leaves);
    assert(leaves@ =~= overlapped_leaves(old(nodes)@, *rect, 0));
    assert(leaves@.skip(0) =~= leaves@);
    let mut i: usize = 0;
    while i < leaves.len()
        invariant
            wf(nodes@),
            all_fit(nodes@),
            fits(*rect),
            i <= leaves.len(),
            leaves@ == overlapped_leaves(old(nodes)@, *rect, 0),
            carve_all(nodes@, *rect, leaves@.skip(i as int)) == split_result(old(nodes)@, *rect),
            nodes.len() >= old(nodes).len(),
        decreases leaves.len() - i,
    {
        let ghost before = nodes@;
        carve(rect, nodes, leaves[i]);
        proof {
            lemma_carve_leaf_ok(before, *rect, leaves[i as int]);
            assert(leaves@.skip(i as int).drop_first() =~= leaves@.skip(i + 1));
        }
        i = i + 1;
    }
    proof {
        lemma_carve_all_ok(old(nodes)@, *rect, leaves@);
    }
}

/// `best_node` yields either nothing, with the worst score, or a leaf that
/// is large enough, with that leaf's score.
pub proof fn lemma_best_node(nodes: Seq<Node>, w: int, h: int, idx: usize)
    requires
        wf(nodes),
        0 <= w,
        0 <= h,
    ensures
        ({
            let (i, s) = best_node(nodes, w, h, idx);
            (i == NONE && s == worst_score()) || (i < nodes.len() && !nodes[i as int].is_split && w
                <= nodes[i as int].rect.w && h <= nodes[i as int].rect.h && s == score_of(
                nodes[i as int].rect,
                w,
                h,
            ))
        }),
    decreases nodes.len() - idx,
{
    if idx < nodes.len() {
        let n = nodes[idx as int];
        if w <= n.rect.w && h <= n.rect.h && n.is_split {
            if is_kid(nodes, idx, n.split[0]) {
                lemma_best_node(nodes, w, h, n.split[0]);
            }
            if is_kid(nodes, idx, n.split[1]) {
                lemma_best_node(nodes, w, h, n.split[1]);
            }
            if is_kid(nodes, idx, n.split[2]) {
                lemma_best_node(nodes, w, h, n.split[2]);
            }
            if is_kid(nodes, idx, n.split[3]) {
                lemma_best_node(nodes, w, h, n.split[3]);
            }
        }
    }
}

/// A child's region lies inside its parent's.
pub open spec fn nested(nodes: Seq<Node>) -> bool {
    forall|i: int, k: int|
        0 <= i < nodes.len() && 0 <= k < 4 && #[trigger] nodes[i].split[k] != 0 && nodes[i].split[k]
            < nodes.len() ==> encloses(nodes[i].rect, nodes[nodes[i].split[k] as int].rect)
}

/// Node `j` is a child of some branch before it in the arena.
pub open spec fn has_parent(nodes: Seq<Node>, j: int) -> bool {
    exists|p: int, k: int|
        0 <= p < j && 0 <= k < 4 && nodes[p].is_split && #[trigger] nodes[p].split[k] == j
}

/// Every node but the root hangs from a branch.
pub open spec fn parented(nodes: Seq<Node>) -> bool {
    forall|j: int| 0 < j < nodes.len() ==> #[trigger] has_parent(nodes, j)
}

/// A leaf has no children.
pub open spec fn bare_leaves(nodes: Seq<Node>) -> bool {
    forall|i: int, k: int|
        0 <= i < nodes.len() && 0 <= k < 4 && !nodes[i].is_split ==> #[trigger] nodes[i].split[k]
            == 0
}

/// Every region lies inside the container `c`.
pub open spec fn inside(nodes: Seq<Node>, c: Rect) -> bool {
    forall|i: int| 0 <= i < nodes.len() ==> encloses(c, #[trigger] nodes[i].rect)
}

/// The shape of a well-built arena for container `c`.
pub open spec fn sound(nodes: Seq<Node>, c: Rect) -> bool {
    &&& 0 < nodes.len() <= usize::MAX
    &&& wf(nodes)
    &&& all_fit(nodes)
    &&& nested(nodes)
    &&& parented(nodes)
    &&& bare_leaves(nodes)
    &&& inside(nodes, c)
}

/// No free leaf overlaps any of the `placed` rectangles.
pub open spec fn free_of(nodes: Seq<Node>, placed: Seq<Rect>) -> bool {
    forall|i: int, q: int|
        #![trigger nodes[i], placed[q]]
        0 <= i < nodes.len() && 0 <= q < placed.len() && !nodes[i].is_split ==> !meets(
            nodes[i].rect,
            placed[q],
        )
}

proof fn lemma_concat_contains(s0: Seq<usize>, s1: Seq<usize>, s2: Seq<usize>, s3: Seq<usize>, x: usize)
    requires
        s0.contains(x) || s1.contains(x) || s2.contains(x) || s3.contains(x),
    ensures
        (s0 + s1 + s2 + s3).contains(x),
{
    let a = s0 + s1 + s2 + s3;
    if s0.contains(x) {
        let m = choose|m: int| 0 <= m < s0.len() && s0[m] == x;
        assert(a[m] == x);
    } else if s1.contains(x) {
        let m = choose|m: int| 0 <= m < s1.len() && s1[m] == x;
        assert(a[s0.len() + m] == x);
    } else if s2.contains(x) {
        let m = choose|m: int| 0 <= m < s2.len() && s2[m] == x;
        assert(a[s0.len() + s1.len() + m] == x);
    } else {
        let m = choose|m: int| 0 <= m < s3.len() && s3[m] == x;
        assert(a[s0.len() + s1.len() + s2.len() + m] == x);
    }
}

/// Every leaf found under a node that overlaps `r` is found from the root.
proof fn lemma_reach(nodes: Seq<Node>, r: Rect, j: int)
    requires
        wf(nodes),
        nested(nodes),
        parented(nodes),
        0 <= j < nodes.len(),
        meets(nodes[j].rect, r),
    ensures
        forall|x: usize|
            overlapped_leaves(nodes, r, j as usize).contains(x) ==> overlapped_leaves(
                nodes,
                r,
                0,
            ).contains(x),
    decreases j,
{
    if j > 0 {
        assert(has_parent(nodes, j));
        let (p, k) = choose|p: int, k: int|
            0 <= p < j && 0 <= k < 4 && nodes[p].is_split && #[trigger] nodes[p].split[k] == j;
        assert(encloses(nodes[p].rect, nodes[j].rect));
        lemma_reach(nodes, r, p);
        let pu = p as usize;
        let s0 = kid_leaves(nodes, r, pu, 0);
        let s1 = kid_leaves(nodes, r, pu, 1);
        let s2 = kid_leaves(nodes, r, pu, 2);
        let s3 = kid_leaves(nodes, r, pu, 3);
        assert(overlapped_leaves(nodes, r, pu) == s0 + s1 + s2 + s3);
        let s = overlapped_leaves(nodes, r, j as usize);
        assert forall|x: usize| s.contains(x) implies overlapped_leaves(nodes, r, 0).contains(x) by {
            if k == 0 {
                assert(s0 == s);
            } else if k == 1 {
                assert(s1 == s);
            } else if k == 2 {
                assert(s2 == s);
            } else {
                assert(s3 == s);
            }
            lemma_concat_contains(s0, s1, s2, s3, x);
        }
    }
}

/// Every free leaf that overlaps `r` is among `overlapped_leaves` from the
/// root.
proof fn lemma_leaves_found(nodes: Seq<Node>, r: Rect)
    requires
        nodes.len() <= usize::MAX,
        wf(nodes),
        nested(nodes),
        parented(nodes),
    ensures
        forall|j: int|
            0 <= j < nodes.len() && !nodes[j].is_split && meets(nodes[j].rect, r)
                ==> #[trigger] overlapped_leaves(nodes, r, 0).contains(j as usize),
{
    assert forall|j: int|
        0 <= j < nodes.len() && !nodes[j].is_split && meets(
            nodes[j].rect,
            r,
        ) implies #[trigger] overlapped_leaves(nodes, r, 0).contains(j as usize) by {
        lemma_reach(nodes, r, j);
        assert(overlapped_leaves(nodes, r, j as usize)[0] == j as usize);
    }
}

proof fn lemma_add_piece_sound(
    nodes: Seq<Node>,
    leaf: usize,
    k: int,
    piece: Option<Rect>,
    c: Rect,
    placed: Seq<Rect>,
    r: Rect,
)
    requires
        sound(nodes, c),
        free_of(nodes, placed),
        leaf < nodes.len(),
        nodes[leaf as int].is_split,
        0 <= k < 4,
        nodes[leaf as int].split[k] == 0,
        piece is Some ==> encloses(nodes[leaf as int].rect, piece->0) && !meets(piece->0, r),
        piece is Some ==> forall|q: int| 0 <= q < placed.len() ==> !meets(piece->0, #[trigger] placed[q]),
    ensures
        ({
            let res = add_piece(nodes, leaf, k, piece);
            &&& sound(res, c)
            &&& free_of(res, placed)
            &&& res.len() >= nodes.len()
            &&& res[leaf as int].rect == nodes[leaf as int].rect
            &&& res[leaf as int].is_split
            &&& forall|kk: int| 0 <= kk < 4 && kk != k ==> #[trigger] res[leaf as int].split[kk] == nodes[leaf as int].split[kk]
            &&& forall|j: int| 0 <= j < nodes.len() && j != leaf ==> #[trigger] res[j] == nodes[j]
            &&& forall|j: int| nodes.len() <= j < res.len() ==> !#[trigger] res[j].is_split && !meets(res[j].rect, r)
        }),
{
    let res = add_piece(nodes, leaf, k, piece);
    if res != nodes {
        let p = piece->0;
        let n = nodes.len();
        lemma_add_piece_ok(nodes, leaf, k, piece);
        assert forall|i: int, kk: int| 0 <= i < res.len() && 0 <= kk < 4 && #[trigger] res[i].split[kk] != 0 && res[i].split[kk]
            < res.len() implies encloses(res[i].rect, res[res[i].split[kk] as int].rect) by {
            if i == leaf && kk == k {
            } else if i < n {
                assert(res[i].split[kk] == nodes[i].split[kk]);
                assert(nodes[i].split[kk] != 0);
            }
        }
        assert forall|j: int| 0 < j < res.len() implies #[trigger] has_parent(res, j) by {
            if j == n {
                assert(res[leaf as int].split[k] == j);
            } else {
                assert(has_parent(nodes, j));
                let (pp, pk) = choose|pp: int, pk: int|
                    0 <= pp < j && 0 <= pk < 4 && nodes[pp].is_split && #[trigger] nodes[pp].split[pk] == j;
                assert(res[pp].split[pk] == j);
            }
        }
        assert forall|i: int, kk: int| 0 <= i < res.len() && 0 <= kk < 4 && !res[i].is_split implies #[trigger] res[i].split[kk]
            == 0 by {
            if i < n && i != leaf {
                assert(res[i] == nodes[i]);
            }
        }
        assert forall|i: int| 0 <= i < res.len() implies encloses(c, #[trigger] res[i].rect) by {
            if i < n {
                assert(res[i].rect == nodes[i].rect);
            } else {
                assert(encloses(c, nodes[leaf as int].rect));
            }
        }
        assert forall|i: int, q: int|
            0 <= i < res.len() && 0 <= q < placed.len() && !res[i].is_split implies !meets(
                #[trigger] res[i].rect,
                #[trigger] placed[q],
            ) by {
            if i < n {
                assert(res[i] == nodes[i]);
            }
        }
    }
}

proof fn lemma_carve_leaf_sound(nodes: Seq<Node>, r: Rect, leaf: usize, c: Rect, placed: Seq<Rect>)
    requires
        sound(nodes, c),
        free_of(nodes, placed),
    ensures
        ({
            let res = carve_leaf(nodes, r, leaf);
            &&& sound(res, c)
            &&& free_of(res, placed)
            &&& res.len() >= nodes.len()
            &&& forall|j: int|
                0 <= j < res.len() && !#[trigger] res[j].is_split && meets(res[j].rect, r) ==> j
                    < nodes.len() && j != leaf && res[j] == nodes[j]
        }),
{
    if leaf < nodes.len() && !nodes[leaf as int].is_split && meets(nodes[leaf as int].rect, r) {
        let n = nodes[leaf as int];
        let ps = residuals(n.rect, r);
        let n0 = nodes.update(leaf as int, Node { rect: n.rect, is_split: true, split: n.split });
        assert forall|i: int, j: int| 0 <= i < n0.len() && 0 <= j < 4 implies #[trigger] n0[i].split[j]
            == nodes[i].split[j] by {}
        assert(wf(n0));
        assert forall|i: int| 0 <= i < n0.len() implies n0[i].rect == nodes[i].rect by {}
        assert forall|j: int| 0 < j < n0.len() implies #[trigger] has_parent(n0, j) by {
            assert(has_parent(nodes, j));
            let (pp, pk) = choose|pp: int, pk: int|
                0 <= pp < j && 0 <= pk < 4 && nodes[pp].is_split && #[trigger] nodes[pp].split[pk] == j;
            assert(n0[pp].split[pk] == j);
        }
        assert forall|i: int, q: int|
            0 <= i < n0.len() && 0 <= q < placed.len() && !n0[i].is_split implies !meets(
                #[trigger] n0[i].rect,
                #[trigger] placed[q],
            ) by {
            assert(n0[i] == nodes[i]);
        }
        assert(sound(n0, c));
        assert(free_of(n0, placed));
        assert(fits(n.rect));
        assert forall|kk: int| 0 <= kk < 4 && ps[kk] is Some implies encloses(n.rect, ps[kk]->0) && !meets(ps[kk]->0, r)
            && forall|q: int| 0 <= q < placed.len() ==> !meets(ps[kk]->0, #[trigger] placed[q]) by {
            lemma_residuals(n.rect, r, kk);
            assert forall|q: int| 0 <= q < placed.len() implies !meets(ps[kk]->0, #[trigger] placed[q]) by {
                assert(!meets(nodes[leaf as int].rect, placed[q]));
            }
        }
        assert(n0[leaf as int].split[0] == 0);
        let n1 = add_piece(n0, leaf, 0, ps[0]);
        lemma_add_piece_sound(n0, leaf, 0, ps[0], c, placed, r);
        assert(n1[leaf as int].split[1] == n0[leaf as int].split[1]);
        let n2 = add_piece(n1, leaf, 1, ps[1]);
        lemma_add_piece_sound(n1, leaf, 1, ps[1], c, placed, r);
        assert(n2[leaf as int].split[2] == n1[leaf as int].split[2]);
        assert(n1[leaf as int].split[2] == n0[leaf as int].split[2]);
        let n3 = add_piece(n2, leaf, 2, ps[2]);
        lemma_add_piece_sound(n2, leaf, 2, ps[2], c, placed, r);
        assert(n3[leaf as int].split[3] == n2[leaf as int].split[3]);
        assert(n2[leaf as int].split[3] == n1[leaf as int].split[3]);
        assert(n1[leaf as int].split[3] == n0[leaf as int].split[3]);
        let n4 = add_piece(n3, leaf, 3, ps[3]);
        lemma_add_piece_sound(n3, leaf, 3, ps[3], c, placed, r);
        let res = carve_leaf(nodes, r, leaf);
        assert(res == n4);
        assert forall|j: int|
            0 <= j < res.len() && !#[trigger] res[j].is_split && meets(res[j].rect, r) implies j
                < nodes.len() && j != leaf && res[j] == nodes[j] by {
            if j >= n3.len() {
            } else if j >= n2.len() {
                assert(n4[j] == n3[j]);
            } else if j >= n1.len() {
                assert(n4[j] == n3[j]);
                assert(n3[j] == n2[j]);
            } else if j >= n0.len() {
                assert(n4[j] == n3[j]);
                assert(n3[j] == n2[j]);
                assert(n2[j] == n1[j]);
            } else if j != leaf {
                assert(n4[j] == n3[j]);
                assert(n3[j] == n2[j]);
                assert(n2[j] == n1[j]);
                assert(n1[j] == n0[j]);
            }
        }
    }
}

proof fn lemma_carve_all_sound(nodes: Seq<Node>, r: Rect, leaves: Seq<usize>, c: Rect, placed: Seq<Rect>)
    requires
        sound(nodes, c),
        free_of(nodes, placed),
        forall|j: int|
            0 <= j < nodes.len() && !nodes[j].is_split && meets(nodes[j].rect, r)
                ==> #[trigger] leaves.contains(j as usize),
    ensures
        sound(carve_all(nodes, r, leaves), c),
        free_of(carve_all(nodes, r, leaves), placed.push(r)),
    decreases leaves.len(),
{
    if leaves.len() == 0 {
        let pr = placed.push(r);
        assert forall|i: int, q: int|
            0 <= i < nodes.len() && 0 <= q < pr.len() && !nodes[i].is_split implies !meets(
                #[trigger] nodes[i].rect,
                #[trigger] pr[q],
            ) by {
            if q < placed.len() {
                assert(pr[q] == placed[q]);
            } else {
                assert(!leaves.contains(i as usize));
            }
        }
    } else {
        let n1 = carve_leaf(nodes, r, leaves[0]);
        lemma_carve_leaf_sound(nodes, r, leaves[0], c, placed);
        let rest = leaves.drop_first();
        assert forall|j: int|
            0 <= j < n1.len() && !n1[j].is_split && meets(n1[j].rect, r) implies #[trigger] rest.contains(
            j as usize) by {
            assert(leaves.contains(j as usize));
            let m = choose|m: int| 0 <= m < leaves.len() && leaves[m] == j as usize;
            assert(m != 0);
            assert(rest[m - 1] == j as usize);
        }
        lemma_carve_all_sound(n1, r, rest, c, placed);
    }
}

/// Splitting a sound arena on `r` keeps it sound, and no free leaf is left
/// that overlaps `r`.
pub proof fn lemma_split_sound(nodes: Seq<Node>, r: Rect, c: Rect, placed: Seq<Rect>)
    requires
        sound(nodes, c),
        free_of(nodes, placed),
    ensures
        sound(split_result(nodes, r), c),
        free_of(split_result(nodes, r), placed.push(r)),
{
    lemma_leaves_found(nodes, r);
    lemma_carve_all_sound(nodes, r, overlapped_leaves(nodes, r, 0), c, placed);
}

} // verus!
