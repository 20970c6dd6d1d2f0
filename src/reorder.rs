use vstd::prelude::*;

use crate::board::{all_wf, covered_by, is_candidate, lemma_place_dims, place, solvable};
use crate::grid::{grid_height, grid_width, is_grid, rotate_grid};
use crate::mino::Mino;

verus! {

/// Two pieces committed one after the other on vacant cells can be committed
/// in the other order, at the same places, with the same outcome.
pub proof fn lemma_commit_commutes(
    g: Seq<Seq<bool>>,
    a: Seq<Seq<bool>>,
    ta: crate::board::TransForm,
    b: Seq<Seq<bool>>,
    tb: crate::board::TransForm,
)
    requires
        is_grid(g),
        is_candidate(g, a, ta),
        is_candidate(place(g, a, ta), b, tb),
    ensures
        is_candidate(g, b, tb),
        is_candidate(place(g, b, tb), a, ta),
        place(place(g, b, tb), a, ta) == place(place(g, a, ta), b, tb),
{
    let ra = rotate_grid(a, ta.rotation);
    let rb = rotate_grid(b, tb.rotation);
    let ga = place(g, a, ta);
    let gb = place(g, b, tb);
    lemma_place_dims(g, ra, ta.x as int, ta.y as int);
    lemma_place_dims(g, rb, tb.x as int, tb.y as int);
    lemma_place_dims(ga, rb, tb.x as int, tb.y as int);
    lemma_place_dims(gb, ra, ta.x as int, ta.y as int);
    assert forall|mx: int, my: int|
        0 <= mx < grid_width(rb) && 0 <= my < grid_height(rb) && #[trigger] rb[my][mx] implies !g[tb.y
        + my][tb.x + mx] by {
        assert(!ga[tb.y + my][tb.x + mx]);
    }
    assert forall|mx: int, my: int|
        0 <= mx < grid_width(ra) && 0 <= my < grid_height(ra) && #[trigger] ra[my][mx] implies !gb[ta.y
        + my][ta.x + mx] by {
        let bx = ta.x + mx;
        let by = ta.y + my;
        assert(!g[by][bx]);
        assert(ga[by][bx]);
        if covered_by(rb, tb.x as int, tb.y as int, bx, by) {
            let qx = bx - tb.x;
            let qy = by - tb.y;
            assert(rb[qy][qx]);
            assert(!ga[tb.y + qy][tb.x + qx]);
        }
    }
    let l = place(gb, a, ta);
    let r = place(ga, b, tb);
    assert forall|y: int| 0 <= y < grid_height(g) implies #[trigger] l[y] =~= r[y] by {}
    assert(l =~= r);
}

/// Swapping two neighbouring pieces of the list keeps whether the pieces can
/// be committed.
pub proof fn lemma_solvable_swap(g: Seq<Seq<bool>>, minos: Seq<Mino>, i: int)
    requires
        is_grid(g),
        all_wf(minos),
        0 <= i,
        i + 1 < minos.len(),
        solvable(g, minos),
    ensures
        solvable(g, minos.update(i, minos[i + 1]).update(i + 1, minos[i])),
    decreases i,
{
    let swapped = minos.update(i, minos[i + 1]).update(i + 1, minos[i]);
    let t = choose|t: crate::board::TransForm|
        is_candidate(g, minos[0].shape@, t) && solvable(place(g, minos[0].shape@, t), minos.drop_first());
    let g1 = place(g, minos[0].shape@, t);
    assert(minos[0].wf());
    lemma_place_dims(g, rotate_grid(minos[0].shape@, t.rotation), t.x as int, t.y as int);
    let rest = minos.drop_first();
    assert forall|k: int| 0 <= k < rest.len() implies (#[trigger] rest[k]).wf() by {
        assert(rest[k] == minos[k + 1]);
    }
    if i == 0 {
        let t2 = choose|t2: crate::board::TransForm|
            is_candidate(g1, rest[0].shape@, t2) && solvable(place(g1, rest[0].shape@, t2), rest.drop_first());
        lemma_commit_commutes(g, minos[0].shape@, t, minos[1].shape@, t2);
        let gb = place(g, minos[1].shape@, t2);
        assert(swapped[0] == minos[1]);
        assert(swapped.drop_first()[0] == minos[0]);
        assert(swapped.drop_first().drop_first() =~= rest.drop_first());
        assert(solvable(gb, swapped.drop_first()));
    } else {
        lemma_solvable_swap(g1, rest, i - 1);
        assert(swapped.drop_first() =~= rest.update(i - 1, rest[i]).update(i, rest[i - 1]));
        assert(swapped[0] == minos[0]);
    }
}

/// Bringing piece `i` to the front keeps whether the pieces can be committed.
pub proof fn lemma_solvable_to_front(g: Seq<Seq<bool>>, minos: Seq<Mino>, i: int)
    requires
        is_grid(g),
        all_wf(minos),
        0 <= i < minos.len(),
        solvable(g, minos),
    ensures
        solvable(g, seq![minos[i]] + minos.remove(i)),
    decreases i,
{
    if i == 0 {
        assert(seq![minos[0]] + minos.remove(0) =~= minos);
    } else {
        lemma_solvable_swap(g, minos, i - 1);
        let swapped = minos.update(i - 1, minos[i]).update(i, minos[i - 1]);
        assert forall|k: int| 0 <= k < swapped.len() implies (#[trigger] swapped[k]).wf() by {
            if k == i - 1 {
                assert(minos[i].wf());
            } else if k == i {
                assert(minos[i - 1].wf());
            } else {
                assert(minos[k].wf());
            }
        }
        lemma_solvable_to_front(g, swapped, i - 1);
        assert(swapped[i - 1] == minos[i]);
        assert(swapped.remove(i - 1) =~= minos.remove(i));
    }
}

/// Whether the pieces can be committed one after another does not depend on
/// their order: any reordering of a list that can be committed can be too.
pub proof fn lemma_solvable_reorder(g: Seq<Seq<bool>>, p: Seq<Mino>, q: Seq<Mino>)
    requires
        is_grid(g),
        all_wf(p),
        p.to_multiset() == q.to_multiset(),
        solvable(g, p),
    ensures
        solvable(g, q),
    decreases p.len(),
{
    broadcast use vstd::seq_lib::group_to_multiset_ensures;

    vstd::seq_lib::to_multiset_len(p);
    vstd::seq_lib::to_multiset_len(q);
    if q.len() > 0 {
        let x = q[0];
        assert(q.contains(x));
        assert(p.to_multiset().count(x) > 0);
        assert(p.contains(x));
        let i = choose|i: int| 0 <= i < p.len() && p[i] == x;
        lemma_solvable_to_front(g, p, i);
        let front = seq![p[i]] + p.remove(i);
        assert(front[0] == x);
        assert(front.drop_first() =~= p.remove(i));
        let t = choose|t: crate::board::TransForm|
            is_candidate(g, front[0].shape@, t) && solvable(place(g, front[0].shape@, t), front.drop_first());
        assert(x.wf());
        lemma_place_dims(g, rotate_grid(x.shape@, t.rotation), t.x as int, t.y as int);
        vstd::seq_lib::to_multiset_remove(p, i);
        vstd::seq_lib::to_multiset_remove(q, 0);
        assert(q.remove(0) =~= q.drop_first());
        let rest = p.remove(i);
        assert forall|k: int| 0 <= k < rest.len() implies (#[trigger] rest[k]).wf() by {
            if k < i {
                assert(rest[k] == p[k]);
            } else {
                assert(rest[k] == p[k + 1]);
            }
        }
        lemma_solvable_reorder(place(g, x.shape@, t), rest, q.drop_first());
    }
}

} // verus!
