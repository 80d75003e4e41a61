//! Area accounting: the placements of a pack never cover more area than the
//! container has. Areas are counted as sets of unit cells.
use vstd::prelude::*;
use vstd::set_lib::{lemma_len_subset, lemma_set_disjoint_lens};
use crate::item::PackedItem;
use crate::packer::{lemma_pack_disjoint, lemma_pack_within, pack_model};
use crate::rect::{Rect, area_of, encloses, fits, meets};

verus! {

/// The unit cells of the `w` x `h` block whose top-left cell is `(x, y)`.
pub open spec fn block(x: int, y: int, w: int, h: int) -> Set<(int, int)> {
    Set::new(|p: (int, int)| x <= p.0 < x + w && y <= p.1 < y + h)
}

/// The unit cells that `r` covers.
pub open spec fn cells(r: Rect) -> Set<(int, int)> {
    block(r.x as int, r.y as int, r.w as int, r.h as int)
}

/// The summed area of the placements `ps`.
pub open spec fn placed_area<T>(ps: Seq<PackedItem<T>>) -> int
    decreases ps.len(),
{
    if ps.len() == 0 {
        0
    } else {
        placed_area(ps.drop_last()) + area_of(ps.last().rect)
    }
}

/// The unit cells that some placement of `ps` covers.
pub open spec fn covered<T>(ps: Seq<PackedItem<T>>) -> Set<(int, int)>
    decreases ps.len(),
{
    if ps.len() == 0 {
        Set::empty()
    } else {
        covered(ps.drop_last()) + cells(ps.last().rect)
    }
}

proof fn lemma_row(x: int, y: int, w: nat)
    ensures
        block(x, y, w as int, 1).finite(),
        block(x, y, w as int, 1).len() == w,
    decreases w,
{
    if w == 0 {
        assert(block(x, y, 0, 1) =~= Set::empty());
    } else {
        lemma_row(x, y, (w - 1) as nat);
        assert(block(x, y, w as int, 1) =~= block(x, y, w - 1, 1).insert((x + w - 1, y)));
    }
}

proof fn lemma_block(x: int, y: int, w: nat, h: nat)
    ensures
        block(x, y, w as int, h as int).finite(),
        block(x, y, w as int, h as int).len() == w * h,
    decreases h,
{
    if h == 0 {
        assert(block(x, y, w as int, 0) =~= Set::empty());
    } else {
        lemma_block(x, y, w, (h - 1) as nat);
        lemma_row(x, y + h - 1, w);
        let top = block(x, y, w as int, h - 1);
        let row = block(x, y + h - 1, w as int, 1);
        assert(block(x, y, w as int, h as int) =~= top + row);
        assert(top.disjoint(row));
        lemma_set_disjoint_lens(top, row);
        assert(w * (h - 1) + w == w * h) by (nonlinear_arith);
    }
}

proof fn lemma_covered_member<T>(ps: Seq<PackedItem<T>>, p: (int, int))
    requires
        covered(ps).contains(p),
    ensures
        exists|k: int| 0 <= k < ps.len() && #[trigger] cells(ps[k].rect).contains(p),
    decreases ps.len(),
{
    let init = ps.drop_last();
    if covered(init).contains(p) {
        lemma_covered_member(init, p);
        let k = choose|k: int| 0 <= k < init.len() && #[trigger] cells(init[k].rect).contains(p);
        assert(ps[k] == init[k]);
    } else {
        assert(cells(ps[ps.len() - 1].rect).contains(p));
    }
}

/// Placements that pairwise do not overlap cover exactly their summed area.
proof fn lemma_covered_len<T>(ps: Seq<PackedItem<T>>)
    requires
        forall|k: int, m: int|
            0 <= k < ps.len() && 0 <= m < ps.len() && k != m ==> !meets(
                #[trigger] ps[k].rect,
                #[trigger] ps[m].rect,
            ),
    ensures
        covered(ps).finite(),
        covered(ps).len() == placed_area(ps),
    decreases ps.len(),
{
    if ps.len() == 0 {
    } else {
        let init = ps.drop_last();
        let last = ps.last().rect;
        assert forall|k: int, m: int|
            0 <= k < init.len() && 0 <= m < init.len() && k != m implies !meets(
                #[trigger] init[k].rect,
                #[trigger] init[m].rect,
            ) by {
            assert(init[k] == ps[k] && init[m] == ps[m]);
        }
        lemma_covered_len(init);
        lemma_block(last.x as int, last.y as int, last.w as nat, last.h as nat);
        assert forall|p: (int, int)| covered(init).contains(p) implies !cells(last).contains(p) by {
            lemma_covered_member(init, p);
            let k = choose|k: int| 0 <= k < init.len() && #[trigger] cells(init[k].rect).contains(p);
            assert(init[k] == ps[k]);
            assert(!meets(ps[k].rect, ps[ps.len() - 1].rect));
        }
        assert(covered(init).disjoint(cells(last)));
        lemma_set_disjoint_lens(covered(init), cells(last));
    }
}

proof fn lemma_covered_within<T>(ps: Seq<PackedItem<T>>, c: Rect)
    requires
        forall|k: int| 0 <= k < ps.len() ==> encloses(c, #[trigger] ps[k].rect),
    ensures
        covered(ps).subset_of(cells(c)),
{
    assert forall|p: (int, int)| covered(ps).contains(p) implies cells(c).contains(p) by {
        lemma_covered_member(ps, p);
        let k = choose|k: int| 0 <= k < ps.len() && #[trigger] cells(ps[k].rect).contains(p);
        assert(encloses(c, ps[k].rect));
    }
}

/// The placed items of a pack, successful or not, have a summed area of at
/// most the container's area.
pub proof fn lemma_pack_area<T>(items: Seq<crate::item::Item<T>>, container: Rect)
    requires
        fits(container),
    ensures
        placed_area(pack_model(items, container).0) <= area_of(container),
{
    let out = pack_model(items, container).0;
    lemma_pack_within(items, container);
    lemma_pack_disjoint(items, container);
    lemma_covered_len(out);
    lemma_covered_within(out, container);
    lemma_block(container.x as int, container.y as int, container.w as nat, container.h as nat);
    lemma_len_subset(covered(out), cells(container));
}

} // verus!
