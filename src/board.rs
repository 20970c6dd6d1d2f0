use rayon::iter::{IntoParallelIterator, ParallelIterator};
use vstd::prelude::*;
use vstd::relations::injective_on;
use vstd::set_lib::{lemma_map_size, lemma_set_disjoint_lens};

use crate::grid::{
    build_grid, grid_height, grid_width, is_grid, lemma_build_grid, lemma_rotate_dims,
    lemma_rotate_wall_count, lemma_walls_finite, rotate_grid, vacant_count, wall_count, walls,
    Rotation,
};
use crate::mino::{sort_by_wall_count, Mino};
use crate::reorder::lemma_solvable_reorder;
use crate::shape::Shape;

verus! {

/// Where a piece goes: the board cell of the turned shape's top-left corner,
/// and the turn.
#[derive(Clone, Copy, Debug, PartialEq, Eq, Structural)]
pub struct TransForm {
    pub x: usize,
    pub y: usize,
    pub rotation: Rotation,
}

/// Position of a rotation in the search order Neutral, Left, Right, OneEighty.
pub open spec fn rotation_rank(r: Rotation) -> int {
    match r {
        Rotation::Neutral => 0,
        Rotation::Left => 1,
        Rotation::Right => 2,
        Rotation::OneEighty => 3,
    }
}

/// `a` comes before `b` when placements are listed by rotation, then row,
/// then column.
pub open spec fn listed_before(a: TransForm, b: TransForm) -> bool {
    ||| rotation_rank(a.rotation) < rotation_rank(b.rotation)
    ||| rotation_rank(a.rotation) == rotation_rank(b.rotation) && a.y < b.y
    ||| rotation_rank(a.rotation) == rotation_rank(b.rotation) && a.y == b.y && a.x < b.x
}

/// `rm`, with its top-left corner at `(x, y)`, lies inside `g`.
pub open spec fn fits_within(g: Seq<Seq<bool>>, rm: Seq<Seq<bool>>, x: int, y: int) -> bool {
    &&& 0 <= x
    &&& 0 <= y
    &&& x + grid_width(rm) <= grid_width(g)
    &&& y + grid_height(rm) <= grid_height(g)
}

/// Board cell `(bx, by)` lies under an occupied cell of `rm` placed at `(x, y)`.
pub open spec fn covered_by(rm: Seq<Seq<bool>>, x: int, y: int, bx: int, by: int) -> bool {
    &&& x <= bx < x + grid_width(rm)
    &&& y <= by < y + grid_height(rm)
    &&& rm[by - y][bx - x]
}

/// No occupied cell of `rm` placed at `(x, y)` lands on an occupied cell of `g`.
pub open spec fn covers_free(g: Seq<Seq<bool>>, rm: Seq<Seq<bool>>, x: int, y: int) -> bool {
    forall|mx: int, my: int|
        0 <= mx < grid_width(rm) && 0 <= my < grid_height(rm) && #[trigger] rm[my][mx] ==> !g[y
            + my][x + mx]
}

/// `g` with the occupied cells of `rm`, placed at `(x, y)`, marked occupied.
pub open spec fn place_grid(g: Seq<Seq<bool>>, rm: Seq<Seq<bool>>, x: int, y: int) -> Seq<
    Seq<bool>,
> {
    build_grid(
        grid_width(g),
        grid_height(g),
        |bx: int, by: int| g[by][bx] || covered_by(rm, x, y, bx, by),
    )
}

/// Piece shape `m`, turned and moved by `t`, lies inside `g` on vacant cells only.
pub open spec fn is_candidate(g: Seq<Seq<bool>>, m: Seq<Seq<bool>>, t: TransForm) -> bool {
    let rm = rotate_grid(m, t.rotation);
    fits_within(g, rm, t.x as int, t.y as int) && covers_free(g, rm, t.x as int, t.y as int)
}

/// `g` after piece shape `m` is committed at `t`.
pub open spec fn place(g: Seq<Seq<bool>>, m: Seq<Seq<bool>>, t: TransForm) -> Seq<Seq<bool>> {
    place_grid(g, rotate_grid(m, t.rotation), t.x as int, t.y as int)
}

/// The pieces can be committed one after another, in this order, each on
/// vacant cells inside the grid.
pub open spec fn solvable(g: Seq<Seq<bool>>, minos: Seq<Mino>) -> bool
    decreases minos.len(),
{
    if minos.len() == 0 {
        true
    } else {
        exists|t: TransForm|
            is_candidate(g, minos[0].shape@, t) && solvable(
                place(g, minos[0].shape@, t),
                minos.drop_first(),
            )
    }
}

/// Committing `minos[i]` at `ts[i]`, in order, is valid at every step.
pub open spec fn reaches(g: Seq<Seq<bool>>, minos: Seq<Mino>, ts: Seq<TransForm>) -> bool
    decreases minos.len(),
{
    &&& ts.len() == minos.len()
    &&& minos.len() > 0 ==> {
        &&& is_candidate(g, minos[0].shape@, ts[0])
        &&& reaches(place(g, minos[0].shape@, ts[0]), minos.drop_first(), ts.drop_first())
    }
}

/// The grid once `minos[i]` has been committed at `ts[i]` for every `i`.
pub open spec fn after(g: Seq<Seq<bool>>, minos: Seq<Mino>, ts: Seq<TransForm>) -> Seq<Seq<bool>>
    decreases minos.len(),
{
    if minos.len() == 0 || ts.len() == 0 {
        g
    } else {
        after(place(g, minos[0].shape@, ts[0]), minos.drop_first(), ts.drop_first())
    }
}

/// The history entries recorded for committing `minos[i]` at `ts[i]`.
pub open spec fn records(minos: Seq<Mino>, ts: Seq<TransForm>) -> Seq<
    (char, Seq<Seq<bool>>, TransForm),
> {
    Seq::new(minos.len(), |i: int| (minos[i].name, minos[i].shape@, ts[i]))
}

pub proof fn lemma_place_dims(g: Seq<Seq<bool>>, rm: Seq<Seq<bool>>, x: int, y: int)
    requires
        is_grid(g),
    ensures
        is_grid(place_grid(g, rm, x, y)),
        grid_width(place_grid(g, rm, x, y)) == grid_width(g),
        grid_height(place_grid(g, rm, x, y)) == grid_height(g),
{
    lemma_build_grid(
        grid_width(g),
        grid_height(g),
        |bx: int, by: int| g[by][bx] || covered_by(rm, x, y, bx, by),
    );
}

/// `b` is a board that committing `minos` in order can give, starting from
/// grid `g` with record `pl`: each piece went on vacant cells inside the
/// board, and the record grew by one entry per piece, in order.
pub open spec fn tiling_result(
    g: Seq<Seq<bool>>,
    pl: Seq<(char, Seq<Seq<bool>>, TransForm)>,
    minos: Seq<Mino>,
    b: Board,
) -> bool {
    &&& b.wf()
    &&& exists|ts: Seq<TransForm>|
        #[trigger] reaches(g, minos, ts) && b.grid() == after(g, minos, ts) && b.placements() == pl
            + records(minos, ts)
}

/// The placements are listed without repeats, each before the next in
/// search order.
pub open spec fn in_search_order(ts: Seq<TransForm>) -> bool {
    forall|i: int, j: int| 0 <= i < j < ts.len() ==> listed_before(#[trigger] ts[i], #[trigger] ts[j])
}

/// Every valid placement of piece shape `m` on `g`, in search order. There is
/// at most one such list (see `lemma_search_order_unique`).
pub open spec fn candidates(g: Seq<Seq<bool>>, m: Seq<Seq<bool>>) -> Seq<TransForm> {
    choose|ts: Seq<TransForm>|
        in_search_order(ts) && forall|t: TransForm| #[trigger] ts.contains(t) <==> is_candidate(g, m, t)
}

/// Two lists in search order that hold the same placements are the same list.
pub proof fn lemma_search_order_unique(a: Seq<TransForm>, b: Seq<TransForm>)
    requires
        in_search_order(a),
        in_search_order(b),
        forall|t: TransForm| #[trigger] a.contains(t) <==> b.contains(t),
    ensures
        a == b,
    decreases a.len(),
{
    if a.len() == 0 {
        if b.len() > 0 {
            assert(b.contains(b[0]));
            assert(a.contains(b[0]));
        }
        assert(a =~= b);
    } else {
        assert(a.contains(a[0]));
        assert(b.contains(a[0]));
        assert(b.contains(b[0]));
        assert(a.contains(b[0]));
        if a[0] != b[0] {
            let j = choose|j: int| 0 <= j < b.len() && b[j] == a[0];
            let i = choose|i: int| 0 <= i < a.len() && a[i] == b[0];
            assert(listed_before(b[0], b[j]));
            assert(listed_before(a[0], a[i]));
        }
        let a1 = a.drop_first();
        let b1 = b.drop_first();
        assert forall|t: TransForm| #[trigger] a1.contains(t) implies b1.contains(t) by {
            let i = choose|i: int| 0 <= i < a1.len() && a1[i] == t;
            assert(listed_before(a[0], a[i + 1]));
            assert(a.contains(t));
            assert(b.contains(t));
            assert(a[0] == b[0]);
            let j = choose|j: int| 0 <= j < b.len() && b[j] == t;
            assert(j != 0);
            assert(b1[j - 1] == t);
        }
        assert forall|t: TransForm| #[trigger] b1.contains(t) implies a1.contains(t) by {
            let j = choose|j: int| 0 <= j < b1.len() && b1[j] == t;
            assert(listed_before(b[0], b[j + 1]));
            assert(b.contains(t));
            assert(a.contains(t));
            assert(a[0] == b[0]);
            let i = choose|i: int| 0 <= i < a.len() && a[i] == t;
            assert(i != 0);
            assert(a1[i - 1] == t);
        }
        lemma_search_order_unique(a1, b1);
        assert(a[0] == b[0]);
        assert forall|i: int| 0 <= i < a.len() implies a[i] == b[i] by {
            if i > 0 {
                assert(a[i] == a1[i - 1]);
                assert(b[i] == b1[i - 1]);
            }
        }
        assert(a =~= b);
    }
}

/// The tiling that depth-first search finds first: the first piece goes to
/// its candidates in search order, and the first one from which the rest can
/// be committed (by the same rule) is taken. `None` when there is none.
pub open spec fn first_tiling(g: Seq<Seq<bool>>, minos: Seq<Mino>) -> Option<Seq<TransForm>>
    decreases minos.len(), 1int, 0int,
{
    if minos.len() == 0 {
        Some(Seq::empty())
    } else {
        first_tiling_from(g, minos, candidates(g, minos[0].shape@), 0)
    }
}

/// `first_tiling` with the first piece tried at `cs[i]`, `cs[i + 1]`, ... only.
pub open spec fn first_tiling_from(
    g: Seq<Seq<bool>>,
    minos: Seq<Mino>,
    cs: Seq<TransForm>,
    i: int,
) -> Option<Seq<TransForm>>
    decreases minos.len(), 0int, cs.len() - i,
{
    if minos.len() == 0 || i < 0 || i >= cs.len() {
        None
    } else {
        match first_tiling(place(g, minos[0].shape@, cs[i]), minos.drop_first()) {
            Some(ts) => Some(seq![cs[i]] + ts),
            None => first_tiling_from(g, minos, cs, i + 1),
        }
    }
}

pub proof fn lemma_first_tiling_len(g: Seq<Seq<bool>>, minos: Seq<Mino>)
    ensures
        first_tiling(g, minos) matches Some(ts) ==> ts.len() == minos.len(),
    decreases minos.len(), 1int, 0int,
{
    if minos.len() > 0 {
        lemma_first_tiling_from_len(g, minos, candidates(g, minos[0].shape@), 0);
    }
}

pub proof fn lemma_first_tiling_from_len(
    g: Seq<Seq<bool>>,
    minos: Seq<Mino>,
    cs: Seq<TransForm>,
    i: int,
)
    ensures
        first_tiling_from(g, minos, cs, i) matches Some(ts) ==> ts.len() == minos.len(),
    decreases minos.len(), 0int, cs.len() - i,
{
    if minos.len() > 0 && 0 <= i < cs.len() {
        lemma_first_tiling_len(place(g, minos[0].shape@, cs[i]), minos.drop_first());
        lemma_first_tiling_from_len(g, minos, cs, i + 1);
    }
}

/// After and records of a tiling that starts with `t` are those of its
/// remainder, one commitment later.
pub proof fn lemma_prepend_commitment(
    g: Seq<Seq<bool>>,
    pl: Seq<(char, Seq<Seq<bool>>, TransForm)>,
    minos: Seq<Mino>,
    t: TransForm,
    ts2: Seq<TransForm>,
)
    requires
        minos.len() > 0,
        ts2.len() == minos.len() - 1,
    ensures
        after(g, minos, seq![t] + ts2) == after(place(g, minos[0].shape@, t), minos.drop_first(), ts2),
        pl + records(minos, seq![t] + ts2) == pl.push((minos[0].name, minos[0].shape@, t)) + records(
            minos.drop_first(),
            ts2,
        ),
{
    let ts = seq![t] + ts2;
    assert(ts.drop_first() =~= ts2);
    assert(ts[0] == t);
    assert(records(minos, ts) =~= seq![(minos[0].name, minos[0].shape@, t)] + records(
        minos.drop_first(),
        ts2,
    ));
    assert(pl + records(minos, ts) =~= pl.push((minos[0].name, minos[0].shape@, t)) + records(
        minos.drop_first(),
        ts2,
    ));
}

/// Every piece in the list is well formed.
pub open spec fn all_wf(minos: Seq<Mino>) -> bool {
    forall|i: int| 0 <= i < minos.len() ==> (#[trigger] minos[i]).wf()
}

/// Whatever a tiling reaches shows that the pieces can be committed.
pub proof fn lemma_tiling_solvable(
    g: Seq<Seq<bool>>,
    pl: Seq<(char, Seq<Seq<bool>>, TransForm)>,
    minos: Seq<Mino>,
    b: Board,
)
    requires
        tiling_result(g, pl, minos, b),
    ensures
        solvable(g, minos),
{
    let ts = choose|ts: Seq<TransForm>|
        #[trigger] reaches(g, minos, ts) && b.grid() == after(g, minos, ts) && b.placements() == pl
            + records(minos, ts);
    lemma_reaches_solvable(g, minos, ts);
}

/// A valid sequence of commitments shows that the pieces can be committed.
pub proof fn lemma_reaches_solvable(g: Seq<Seq<bool>>, minos: Seq<Mino>, ts: Seq<TransForm>)
    requires
        reaches(g, minos, ts),
    ensures
        solvable(g, minos),
    decreases minos.len(),
{
    if minos.len() > 0 {
        lemma_reaches_solvable(place(g, minos[0].shape@, ts[0]), minos.drop_first(), ts.drop_first());
    }
}

/// A board reached after committing the first piece at `t` extends to one
/// reached from before that commitment.
pub proof fn lemma_extend_tiling(
    g: Seq<Seq<bool>>,
    pl: Seq<(char, Seq<Seq<bool>>, TransForm)>,
    minos: Seq<Mino>,
    t: TransForm,
    b: Board,
)
    requires
        minos.len() > 0,
        is_candidate(g, minos[0].shape@, t),
        tiling_result(
            place(g, minos[0].shape@, t),
            pl.push((minos[0].name, minos[0].shape@, t)),
            minos.drop_first(),
            b,
        ),
    ensures
        tiling_result(g, pl, minos, b),
{
    let g1 = place(g, minos[0].shape@, t);
    let rest = minos.drop_first();
    let ts2 = choose|ts2: Seq<TransForm>|
        #[trigger] reaches(g1, rest, ts2) && b.grid() == after(g1, rest, ts2) && b.placements()
            == pl.push((minos[0].name, minos[0].shape@, t)) + records(rest, ts2);
    let ts = seq![t] + ts2;
    assert(ts.drop_first() =~= ts2);
    assert(ts[0] == t);
    assert(reaches(g, minos, ts));
    assert(after(g, minos, ts) == after(g1, rest, ts2));
    assert(records(minos, ts) =~= seq![(minos[0].name, minos[0].shape@, t)] + records(rest, ts2));
    assert(pl + records(minos, ts) =~= pl.push((minos[0].name, minos[0].shape@, t)) + records(
        rest,
        ts2,
    ));
}

/// Relies on rayon's `ParallelIterator::find_map_any`: it hands each item to
/// the closure and returns a `Some` that the closure returned for one of them,
/// or `None` when the closure returned `None` for every item. The closure is
/// `Board::branch_parallel`, so its contract carries over to the result.
#[verifier::external_body]
fn find_tiling_any(board: &Board, ts: Vec<TransForm>, minos: &[Mino], k: usize) -> (r: Option<
    Board,
>)
    requires
        board.wf(),
        k < minos@.len(),
        all_wf(minos@),
        forall|j: int| 0 <= j < ts@.len() ==> is_candidate(board.grid(), minos@[k as int].shape@, #[trigger] ts@[j]),
    ensures
        r.is_none() ==> forall|j: int|
            0 <= j < ts@.len() ==> !solvable(
                place(board.grid(), minos@[k as int].shape@, #[trigger] ts@[j]),
                minos@.subrange(k + 1, minos@.len() as int),
            ),
        r matches Some(b) ==> exists|j: int|
            0 <= j < ts@.len() && tiling_result(
                place(board.grid(), minos@[k as int].shape@, #[trigger] ts@[j]),
                board.placements().push((minos@[k as int].name, minos@[k as int].shape@, ts@[j])),
                minos@.subrange(k + 1, minos@.len() as int),
                b,
            ),
{
    ts.into_par_iter().find_map_any(|t| board.branch_parallel(minos, k, t))
}

/// How many cells the pieces cover together.
pub open spec fn sum_walls(minos: Seq<Mino>) -> int
    decreases minos.len(),
{
    if minos.len() == 0 {
        0
    } else {
        wall_count(minos[0].shape@) + sum_walls(minos.drop_first())
    }
}

pub proof fn lemma_sum_walls_push(minos: Seq<Mino>, m: Mino)
    ensures
        sum_walls(minos.push(m)) == sum_walls(minos) + wall_count(m.shape@),
    decreases minos.len(),
{
    if minos.len() > 0 {
        assert(minos.push(m).drop_first() =~= minos.drop_first().push(m));
        lemma_sum_walls_push(minos.drop_first(), m);
    } else {
        assert(minos.push(m).drop_first() =~= Seq::<Mino>::empty());
        assert(minos.push(m)[0] == m);
        assert(sum_walls(Seq::<Mino>::empty()) == 0);
        assert(sum_walls(minos) == 0);
    }
}

pub proof fn lemma_sum_walls_remove(minos: Seq<Mino>, i: int)
    requires
        0 <= i < minos.len(),
    ensures
        sum_walls(minos) == sum_walls(minos.remove(i)) + wall_count(minos[i].shape@),
    decreases i,
{
    if i == 0 {
        assert(minos.remove(0) =~= minos.drop_first());
    } else {
        assert(minos.remove(i).drop_first() =~= minos.drop_first().remove(i - 1));
        assert(minos.remove(i)[0] == minos[0]);
        lemma_sum_walls_remove(minos.drop_first(), i - 1);
    }
}

/// Reordering the pieces keeps how many cells they cover together.
pub proof fn lemma_sum_walls_reorder(a: Seq<Mino>, b: Seq<Mino>)
    requires
        a.to_multiset() == b.to_multiset(),
    ensures
        sum_walls(a) == sum_walls(b),
    decreases a.len(),
{
    broadcast use vstd::seq_lib::group_to_multiset_ensures;

    if a.len() == 0 {
        vstd::seq_lib::to_multiset_len(a);
        vstd::seq_lib::to_multiset_len(b);
        assert(b.len() == 0);
        assert(b =~= Seq::<Mino>::empty());
    } else {
        let x = a[0];
        vstd::seq_lib::to_multiset_remove(a, 0);
        assert(a.remove(0) =~= a.drop_first());
        assert(a.contains(x));
        assert(b.to_multiset().count(x) > 0);
        assert(b.contains(x));
        let i = choose|i: int| 0 <= i < b.len() && b[i] == x;
        vstd::seq_lib::to_multiset_remove(b, i);
        lemma_sum_walls_remove(b, i);
        lemma_sum_walls_reorder(a.drop_first(), b.remove(i));
    }
}

/// Committing a piece on vacant cells adds exactly its cells to the occupied ones.
pub proof fn lemma_place_wall_count(g: Seq<Seq<bool>>, m: Seq<Seq<bool>>, t: TransForm)
    requires
        is_grid(g),
        is_grid(m),
        is_candidate(g, m, t),
    ensures
        is_grid(place(g, m, t)),
        grid_width(place(g, m, t)) == grid_width(g),
        grid_height(place(g, m, t)) == grid_height(g),
        wall_count(place(g, m, t)) == wall_count(g) + wall_count(m),
{
    let rm = rotate_grid(m, t.rotation);
    let x = t.x as int;
    let y = t.y as int;
    let pg = place(g, m, t);
    lemma_rotate_dims(m, t.rotation);
    lemma_rotate_wall_count(m, t.rotation);
    lemma_place_dims(g, rm, x, y);
    lemma_walls_finite(g);
    lemma_walls_finite(rm);
    let shift = |p: (int, int)| (p.0 + x, p.1 + y);
    let moved = walls(rm).map(shift);
    assert forall|q: (int, int)| walls(pg).contains(q) implies #[trigger] (walls(g) + moved).contains(q) by {
        if !g[q.1][q.0] {
            let p = (q.0 - x, q.1 - y);
            assert(shift(p) == q);
            assert(walls(rm).contains(p));
        }
    }
    assert forall|q: (int, int)| #[trigger] (walls(g) + moved).contains(q) implies walls(pg).contains(q) by {
        if moved.contains(q) {
            let p = choose|p: (int, int)| walls(rm).contains(p) && shift(p) == q;
            assert(covered_by(rm, x, y, q.0, q.1));
        }
    }
    assert(walls(pg) =~= walls(g) + moved);
    assert(injective_on(shift, walls(rm)));
    lemma_map_size(walls(rm), moved, shift);
    assert forall|q: (int, int)| walls(g).contains(q) implies !(#[trigger] moved.contains(q)) by {
        if moved.contains(q) {
            let p = choose|p: (int, int)| walls(rm).contains(p) && shift(p) == q;
            assert(rm[p.1][p.0]);
        }
    }
    assert(walls(g).disjoint(moved));
    lemma_set_disjoint_lens(walls(g), moved);
}

/// Committing pieces one after another, each on vacant cells, adds exactly
/// their cells to the occupied ones and keeps the board's dimensions.
pub proof fn lemma_reaches_wall_count(g: Seq<Seq<bool>>, minos: Seq<Mino>, ts: Seq<TransForm>)
    requires
        is_grid(g),
        all_wf(minos),
        reaches(g, minos, ts),
    ensures
        is_grid(after(g, minos, ts)),
        grid_width(after(g, minos, ts)) == grid_width(g),
        grid_height(after(g, minos, ts)) == grid_height(g),
        wall_count(after(g, minos, ts)) == wall_count(g) + sum_walls(minos),
    decreases minos.len(),
{
    if minos.len() > 0 {
        assert(minos[0].wf());
        lemma_place_wall_count(g, minos[0].shape@, ts[0]);
        let rest = minos.drop_first();
        assert forall|i: int| 0 <= i < rest.len() implies (#[trigger] rest[i]).wf() by {
            assert(rest[i] == minos[i + 1]);
        }
        lemma_reaches_wall_count(place(g, minos[0].shape@, ts[0]), rest, ts.drop_first());
    }
}

/// A board that solving returns has its occupied cells grown by exactly the
/// cells of the pieces; so when the pieces cover as many cells as the start
/// board had vacant, every cell of the result is occupied.
pub proof fn law_tiling_covers_board(board: Board, minos: Seq<Mino>, result: Board)
    requires
        board.wf(),
        all_wf(minos),
        tiling_result(board.grid(), board.placements(), minos, result),
    ensures
        grid_width(result.grid()) == grid_width(board.grid()),
        grid_height(result.grid()) == grid_height(board.grid()),
        wall_count(result.grid()) == wall_count(board.grid()) + sum_walls(minos),
        sum_walls(minos) == vacant_count(board.grid()) ==> wall_count(result.grid()) == grid_width(
            result.grid(),
        ) * grid_height(result.grid()),
{
    let g = board.grid();
    let ts = choose|ts: Seq<TransForm>|
        #[trigger] reaches(g, minos, ts) && result.grid() == after(g, minos, ts)
            && result.placements() == board.placements() + records(minos, ts);
    lemma_reaches_wall_count(g, minos, ts);
}

/// The character drawn for board cell `(x, y)`: the label of the last
/// recorded piece that covers it, else `#` for an occupied cell and `.` for a
/// vacant one.
pub open spec fn shown_char(
    g: Seq<Seq<bool>>,
    pl: Seq<(char, Seq<Seq<bool>>, TransForm)>,
    x: int,
    y: int,
) -> char
    decreases pl.len(),
{
    if pl.len() == 0 {
        if g[y][x] {
            '#'
        } else {
            '.'
        }
    } else {
        let p = pl.last();
        if covered_by(rotate_grid(p.1, p.2.rotation), p.2.x as int, p.2.y as int, x, y) {
            p.0
        } else {
            shown_char(g, pl.drop_last(), x, y)
        }
    }
}

/// Relies on `FromIterator<char>` for `String`: the string holds the
/// characters of `cs`, in order.
#[verifier::external_body]
fn string_from_chars(cs: &Vec<char>) -> (r: String)
    ensures
        r@ == cs@,
{
    cs.iter().collect()
}

/// Why solving gave no tiling.
#[derive(Clone, Copy, Debug, PartialEq, Eq, Structural)]
pub enum SolveError {
    /// The pieces cover `piece_walls` cells in all (at most `usize::MAX` is
    /// reported) but the board has `vacant` vacant cells, so no tiling can exist.
    WallCountMismatch { piece_walls: usize, vacant: usize },
    /// The counts agree, but the search found no way to commit every piece.
    Unsatisfiable,
}

/// Whether the pieces together cover exactly as many cells as the board has
/// vacant; the mismatch is reported otherwise.
pub fn check_wall_count(minos: &Vec<Mino>, board: &Board) -> (r: Result<(), SolveError>)
    requires
        board.wf(),
        all_wf(minos@),
    ensures
        r is Ok <==> sum_walls(minos@) == vacant_count(board.grid()),
        r is Err ==> r == Err::<(), SolveError>(
            SolveError::WallCountMismatch {
                piece_walls: if sum_walls(minos@) <= usize::MAX {
                    sum_walls(minos@) as usize
                } else {
                    usize::MAX
                },
                vacant: vacant_count(board.grid()) as usize,
            },
        ),
{
    let mut total: usize = 0;
    let mut overflowed = false;
    let mut i: usize = 0;
    while i < minos.len()
        invariant
            all_wf(minos@),
            i <= minos@.len(),
            sum_walls(minos@.take(i as int)) >= 0,
            overflowed == (sum_walls(minos@.take(i as int)) > usize::MAX),
            total == if overflowed {
                usize::MAX as int
            } else {
                sum_walls(minos@.take(i as int))
            },
        decreases minos@.len() - i,
    {
        let c = minos[i].count_wall();
        proof {
            assert(minos@.take(i + 1) =~= minos@.take(i as int).push(minos@[i as int]));
            lemma_sum_walls_push(minos@.take(i as int), minos@[i as int]);
            lemma_walls_finite(minos@[i as int].shape@);
        }
        match total.checked_add(c) {
            Some(t) => {
                total = t;
            },
            None => {
                total = usize::MAX;
                overflowed = true;
            },
        }
        i += 1;
    }
    proof {
        assert(minos@.take(i as int) =~= minos@);
        lemma_walls_finite(board.grid());
    }
    let vacant = board.shape.count_vacant();
    if !overflowed && total == vacant {
        Ok(())
    } else {
        Err(SolveError::WallCountMismatch { piece_walls: total, vacant })
    }
}

/// An occupancy grid plus the ordered record of the pieces committed to it.
#[derive(Debug, PartialEq, Eq)]
pub struct Board {
    pub shape: Shape,
    mino_transforms: Vec<(Mino, TransForm)>,
}

impl Clone for Board {
    fn clone(&self) -> (r: Self)
        ensures
            r.grid() == self.grid(),
            r.placements() == self.placements(),
    {
        let mut mts: Vec<(Mino, TransForm)> = Vec::new();
        let mut i: usize = 0;
        while i < self.mino_transforms.len()
            invariant
                i <= self.mino_transforms@.len(),
                mts@.len() == i,
                forall|k: int|
                    0 <= k < i ==> (#[trigger] mts@[k]).0.name == self.mino_transforms@[k].0.name
                        && mts@[k].0.shape@ == self.mino_transforms@[k].0.shape@ && mts@[k].1
                        == self.mino_transforms@[k].1,
            decreases self.mino_transforms@.len() - i,
        {
            let m = self.mino_transforms[i].0.clone();
            let t = self.mino_transforms[i].1;
            mts.push((m, t));
            i += 1;
        }
        let r = Board { shape: self.shape.clone(), mino_transforms: mts };
        assert(r.placements() =~= self.placements());
        r
    }
}

impl Board {
    /// The occupancy grid.
    pub closed spec fn grid(&self) -> Seq<Seq<bool>> {
        self.shape@
    }

    /// The record of committed pieces: label, unturned shape, and where it went.
    pub closed spec fn placements(&self) -> Seq<(char, Seq<Seq<bool>>, TransForm)> {
        self.mino_transforms@.map_values(|p: (Mino, TransForm)| (p.0.name, p.0.shape@, p.1))
    }

    /// The grid is well formed, and every recorded piece is a well-formed
    /// shape that lies inside the board where it was put.
    pub open spec fn wf(&self) -> bool {
        &&& is_grid(self.grid())
        &&& forall|i: int|
            0 <= i < self.placements().len() ==> {
                let p = #[trigger] self.placements()[i];
                &&& is_grid(p.1)
                &&& fits_within(
                    self.grid(),
                    rotate_grid(p.1, p.2.rotation),
                    p.2.x as int,
                    p.2.y as int,
                )
            }
    }

    pub fn new(shape: Shape) -> (r: Board)
        requires
            shape.wf(),
        ensures
            r.grid() == shape@,
            r.wf(),
            r.placements() == Seq::<(char, Seq<Seq<bool>>, TransForm)>::empty(),
    {
        let r = Board { shape, mino_transforms: Vec::new() };
        assert(r.placements() =~= Seq::<(char, Seq<Seq<bool>>, TransForm)>::empty());
        r
    }

    /// The occupancy grid, for verified callers that cannot read the field.
    pub fn shape(&self) -> (r: &Shape)
        ensures
            r@ == self.grid(),
            self.wf() ==> r.wf(),
    {
        &self.shape
    }

    /// The committed pieces and where each went, in the order they were put.
    pub fn mino_transforms(&self) -> (r: &Vec<(Mino, TransForm)>)
        ensures
            r@.map_values(|p: (Mino, TransForm)| (p.0.name, p.0.shape@, p.1)) == self.placements(),
    {
        &self.mino_transforms
    }

    pub fn height(&self) -> (r: usize)
        requires
            self.wf(),
        ensures
            r == grid_height(self.grid()),
    {
        self.shape.height()
    }

    pub fn width(&self) -> (r: usize)
        requires
            self.wf(),
        ensures
            r == grid_width(self.grid()),
    {
        self.shape.width()
    }

    pub fn is_wall(&self, x: usize, y: usize) -> (r: bool)
        requires
            self.wf(),
            x < grid_width(self.grid()),
            y < grid_height(self.grid()),
        ensures
            r == self.grid()[y as int][x as int],
    {
        self.shape.is_wall(x, y)
    }

    /// Whether the occupied cells of `rotated`, placed at `(x, y)`, all land
    /// on vacant cells.
    fn free_at(&self, rotated: &Shape, x: usize, y: usize) -> (r: bool)
        requires
            self.wf(),
            rotated.wf(),
            fits_within(self.grid(), rotated@, x as int, y as int),
        ensures
            r == covers_free(self.grid(), rotated@, x as int, y as int),
    {
        let rw = rotated.width();
        let rh = rotated.height();
        let mut my: usize = 0;
        while my < rh
            invariant
                self.wf(),
                rotated.wf(),
                fits_within(self.grid(), rotated@, x as int, y as int),
                rw == grid_width(rotated@),
                rh == grid_height(rotated@),
                my <= rh,
                forall|a: int, b: int|
                    0 <= a < rw && 0 <= b < my && #[trigger] rotated@[b][a] ==> !self.grid()[y
                        + b][x + a],
            decreases rh - my,
        {
            let mut mx: usize = 0;
            while mx < rw
                invariant
                    self.wf(),
                    rotated.wf(),
                    fits_within(self.grid(), rotated@, x as int, y as int),
                    rw == grid_width(rotated@),
                    rh == grid_height(rotated@),
                    my < rh,
                    mx <= rw,
                    forall|a: int, b: int|
                        0 <= a < rw && 0 <= b < my && #[trigger] rotated@[b][a]
                            ==> !self.grid()[y + b][x + a],
                    forall|a: int|
                        0 <= a < mx && #[trigger] rotated@[my as int][a] ==> !self.grid()[y
                            + my][x + a],
                decreases rw - mx,
            {
                if rotated.is_wall(mx, my) && self.is_wall(x + mx, y + my) {
                    return false;
                }
                mx += 1;
            }
            my += 1;
        }
        true
    }

    /// Whether `mino`, turned and moved by `transform`, covers only vacant
    /// cells. The placement must lie inside the board.
    pub fn can_put(&self, mino: &Mino, transform: &TransForm) -> (r: bool)
        requires
            self.wf(),
            mino.wf(),
            fits_within(
                self.grid(),
                rotate_grid(mino.shape@, transform.rotation),
                transform.x as int,
                transform.y as int,
            ),
        ensures
            r == covers_free(
                self.grid(),
                rotate_grid(mino.shape@, transform.rotation),
                transform.x as int,
                transform.y as int,
            ),
    {
        let rotated = mino.rotated(&transform.rotation);
        self.free_at(&rotated.shape, transform.x, transform.y)
    }

    /// Commits `mino`, turned and moved by `transform`: its occupied cells
    /// become occupied on the board, and the pair is appended to the record.
    /// The placement must lie inside the board.
    pub fn put_mino(&mut self, mino: Mino, transform: TransForm)
        requires
            old(self).wf(),
            mino.wf(),
            fits_within(
                old(self).grid(),
                rotate_grid(mino.shape@, transform.rotation),
                transform.x as int,
                transform.y as int,
            ),
        ensures
            final(self).wf(),
            final(self).grid() == place(old(self).grid(), mino.shape@, transform),
            final(self).placements() == old(self).placements().push(
                (mino.name, mino.shape@, transform),
            ),
    {
        let rotated = mino.rotated(&transform.rotation);
        let rw = rotated.width();
        let rh = rotated.height();
        let x = transform.x;
        let y = transform.y;
        let ghost g0 = self.grid();
        let ghost rm = rotated.shape@;
        let mut my: usize = 0;
        while my < rh
            invariant
                self.shape.wf(),
                rotated.wf(),
                rm == rotated.shape@,
                is_grid(g0),
                fits_within(g0, rm, x as int, y as int),
                rw == grid_width(rm),
                rh == grid_height(rm),
                grid_width(self.grid()) == grid_width(g0),
                grid_height(self.grid()) == grid_height(g0),
                self.mino_transforms == old(self).mino_transforms,
                my <= rh,
                forall|bx: int, by: int|
                    0 <= bx < grid_width(g0) && 0 <= by < grid_height(g0) ==> #[trigger] self.grid()[by][bx]
                        == (g0[by][bx] || (covered_by(rm, x as int, y as int, bx, by) && by - y < my)),
            decreases rh - my,
        {
            let mut mx: usize = 0;
            while mx < rw
                invariant
                    self.shape.wf(),
                    rotated.wf(),
                    rm == rotated.shape@,
                    is_grid(g0),
                    fits_within(g0, rm, x as int, y as int),
                    rw == grid_width(rm),
                    rh == grid_height(rm),
                    grid_width(self.grid()) == grid_width(g0),
                    grid_height(self.grid()) == grid_height(g0),
                    self.mino_transforms == old(self).mino_transforms,
                    my < rh,
                    mx <= rw,
                    forall|bx: int, by: int|
                        0 <= bx < grid_width(g0) && 0 <= by < grid_height(g0)
                            ==> #[trigger] self.grid()[by][bx] == (g0[by][bx] || (covered_by(
                            rm,
                            x as int,
                            y as int,
                            bx,
                            by,
                        ) && (by - y < my || (by - y == my && bx - x < mx)))),
                decreases rw - mx,
            {
                let b = rotated.shape.is_wall(mx, my);
                self.shape.put_on(x + mx, y + my, b);
                mx += 1;
            }
            my += 1;
        }
        proof {
            lemma_place_dims(g0, rm, x as int, y as int);
            let p = place(g0, mino.shape@, transform);
            assert forall|by: int| 0 <= by < grid_height(g0) implies #[trigger] self.grid()[by] =~= p[by] by {
                assert(self.grid()[by].len() == self.grid()[0].len());
                assert(g0[by].len() == g0[0].len());
            }
            assert(self.grid() =~= p);
        }
        let ghost pl = self.placements();
        self.mino_transforms.push((mino, transform));
        proof {
            assert(self.placements() =~= pl.push((mino.name, mino.shape@, transform)));
            lemma_rotate_dims(mino.shape@, transform.rotation);
            assert forall|i: int| 0 <= i < self.placements().len() implies {
                let p = #[trigger] self.placements()[i];
                &&& is_grid(p.1)
                &&& fits_within(
                    self.grid(),
                    rotate_grid(p.1, p.2.rotation),
                    p.2.x as int,
                    p.2.y as int,
                )
            } by {
                if i < pl.len() {
                    assert(self.placements()[i] == old(self).placements()[i]);
                }
            }
        }
    }

    /// Every placement of `rotated_mino`, left as it is and recorded under
    /// `rotation`, that lies inside the board on vacant cells; rows top to
    /// bottom, each left to right.
    pub fn search_can_put_rotated(&self, rotated_mino: &Mino, rotation: &Rotation) -> (r: Vec<
        TransForm,
    >)
        requires
            self.wf(),
            rotated_mino.wf(),
        ensures
            forall|t: TransForm|
                r@.contains(t) <==> (t.rotation == *rotation && fits_within(
                    self.grid(),
                    rotated_mino.shape@,
                    t.x as int,
                    t.y as int,
                ) && covers_free(self.grid(), rotated_mino.shape@, t.x as int, t.y as int)),
            forall|i: int, j: int|
                0 <= i < j < r@.len() ==> listed_before(#[trigger] r@[i], #[trigger] r@[j]),
    {
        let ghost rm = rotated_mino.shape@;
        let ghost g = self.grid();
        let mut transforms: Vec<TransForm> = Vec::new();
        let bw = self.width();
        let bh = self.height();
        let rw = rotated_mino.width();
        let rh = rotated_mino.height();
        if rw > bw || rh > bh {
            proof {
                assert forall|t: TransForm| !(#[trigger] transforms@.contains(t)) && !fits_within(
                    g,
                    rm,
                    t.x as int,
                    t.y as int,
                ) by {}
            }
            return transforms;
        }
        let mut y: usize = 0;
        while y <= bh - rh
            invariant
                self.wf(),
                rotated_mino.wf(),
                rm == rotated_mino.shape@,
                g == self.grid(),
                bw == grid_width(g),
                bh == grid_height(g),
                rw == grid_width(rm),
                rh == grid_height(rm),
                rw <= bw,
                rh <= bh,
                y <= bh - rh + 1,
                forall|i: int|
                    0 <= i < transforms@.len() ==> {
                        let t = #[trigger] transforms@[i];
                        &&& t.rotation == *rotation
                        &&& fits_within(g, rm, t.x as int, t.y as int)
                        &&& covers_free(g, rm, t.x as int, t.y as int)
                        &&& t.y < y
                    },
                forall|i: int, j: int|
                    0 <= i < j < transforms@.len() ==> listed_before(
                        #[trigger] transforms@[i],
                        #[trigger] transforms@[j],
                    ),
                forall|t: TransForm|
                    t.rotation == *rotation && fits_within(g, rm, t.x as int, t.y as int)
                        && covers_free(g, rm, t.x as int, t.y as int) && t.y < y
                        ==> #[trigger] transforms@.contains(t),
            decreases bh - rh + 1 - y,
        {
            let mut x: usize = 0;
            while x <= bw - rw
                invariant
                    self.wf(),
                    rotated_mino.wf(),
                    rm == rotated_mino.shape@,
                    g == self.grid(),
                    bw == grid_width(g),
                    bh == grid_height(g),
                    rw == grid_width(rm),
                    rh == grid_height(rm),
                    rw <= bw,
                    rh <= bh,
                    y <= bh - rh,
                    x <= bw - rw + 1,
                    forall|i: int|
                        0 <= i < transforms@.len() ==> {
                            let t = #[trigger] transforms@[i];
                            &&& t.rotation == *rotation
                            &&& fits_within(g, rm, t.x as int, t.y as int)
                            &&& covers_free(g, rm, t.x as int, t.y as int)
                            &&& (t.y < y || (t.y == y && t.x < x))
                        },
                    forall|i: int, j: int|
                        0 <= i < j < transforms@.len() ==> listed_before(
                            #[trigger] transforms@[i],
                            #[trigger] transforms@[j],
                        ),
                    forall|t: TransForm|
                        t.rotation == *rotation && fits_within(g, rm, t.x as int, t.y as int)
                            && covers_free(g, rm, t.x as int, t.y as int) && (t.y < y || (t.y
                            == y && t.x < x)) ==> #[trigger] transforms@.contains(t),
                decreases bw - rw + 1 - x,
            {
                let t = TransForm { x, y, rotation: *rotation };
                if self.free_at(&rotated_mino.shape, x, y) {
                    let ghost before = transforms@;
                    transforms.push(t);
                    proof {
                        assert forall|u: TransForm|
                            u.rotation == *rotation && fits_within(g, rm, u.x as int, u.y as int)
                                && covers_free(g, rm, u.x as int, u.y as int) && (u.y < y || (u.y
                                == y && u.x < x + 1)) implies #[trigger] transforms@.contains(u) by {
                            if u == t {
                                assert(transforms@[before.len() as int] == t);
                            } else {
                                assert(before.contains(u));
                                let i = choose|i: int| 0 <= i < before.len() && before[i] == u;
                                assert(transforms@[i] == u);
                            }
                        }
                    }
                }
                x += 1;
            }
            y += 1;
        }
        proof {
            assert forall|t: TransForm| #[trigger] transforms@.contains(t) implies (t.rotation
                == *rotation && fits_within(g, rm, t.x as int, t.y as int) && covers_free(
                g,
                rm,
                t.x as int,
                t.y as int,
            )) by {
                let i = choose|i: int| 0 <= i < transforms@.len() && transforms@[i] == t;
            }
        }
        transforms
    }

    /// Every placement of `mino` that lies inside the board on vacant cells,
    /// for the turns Neutral, Left, Right and OneEighty in that order.
    pub fn search_can_put(&self, mino: &Mino) -> (r: Vec<TransForm>)
        requires
            self.wf(),
            mino.wf(),
        ensures
            forall|t: TransForm| #[trigger] r@.contains(t) <==> is_candidate(self.grid(), mino.shape@, t),
            forall|i: int, j: int|
                0 <= i < j < r@.len() ==> listed_before(#[trigger] r@[i], #[trigger] r@[j]),
    {
        let ghost g = self.grid();
        let rotations = [Rotation::Neutral, Rotation::Left, Rotation::Right, Rotation::OneEighty];
        let mut transforms: Vec<TransForm> = Vec::new();
        let mut k: usize = 0;
        while k < 4
            invariant
                self.wf(),
                mino.wf(),
                g == self.grid(),
                rotations@ == seq![Rotation::Neutral, Rotation::Left, Rotation::Right, Rotation::OneEighty],
                k <= 4,
                forall|t: TransForm| #[trigger] transforms@.contains(t) <==> (is_candidate(g, mino.shape@, t)
                    && exists|j: int| 0 <= j < k && rotations@[j] == t.rotation),
                forall|i: int| 0 <= i < transforms@.len() ==> rotation_rank((#[trigger] transforms@[i]).rotation) < k,
                forall|i: int, j: int|
                    0 <= i < j < transforms@.len() ==> listed_before(
                        #[trigger] transforms@[i],
                        #[trigger] transforms@[j],
                    ),
            decreases 4 - k,
        {
            let rotation = rotations[k];
            let rotated = mino.rotated(&rotation);
            let mut part = self.search_can_put_rotated(&rotated, &rotation);
            let ghost before = transforms@;
            let ghost added = part@;
            transforms.append(&mut part);
            proof {
                assert(transforms@ == before + added);
                assert(rotation_rank(rotation) == k);
                assert forall|i: int| 0 <= i < added.len() implies (#[trigger] added[i]).rotation == rotation by {
                    assert(added.contains(added[i]));
                }
                assert forall|i: int, j: int|
                    0 <= i < j < transforms@.len() implies listed_before(
                        #[trigger] transforms@[i],
                        #[trigger] transforms@[j],
                    ) by {
                    if j < before.len() {
                        assert(transforms@[i] == before[i] && transforms@[j] == before[j]);
                    } else if i >= before.len() {
                        assert(transforms@[i] == added[i - before.len()]);
                        assert(transforms@[j] == added[j - before.len()]);
                    } else {
                        assert(transforms@[i] == before[i]);
                        assert(transforms@[j] == added[j - before.len()]);
                    }
                }
                assert forall|i: int| 0 <= i < transforms@.len() implies rotation_rank(
                    (#[trigger] transforms@[i]).rotation,
                ) < k + 1 by {
                    if i < before.len() {
                        assert(transforms@[i] == before[i]);
                    } else {
                        assert(transforms@[i] == added[i - before.len()]);
                    }
                }
                assert forall|t: TransForm| #[trigger] transforms@.contains(t) <==> (is_candidate(g, mino.shape@, t)
                    && exists|j: int| 0 <= j < k + 1 && rotations@[j] == t.rotation) by {
                    if transforms@.contains(t) {
                        let i = choose|i: int| 0 <= i < transforms@.len() && transforms@[i] == t;
                        if i < before.len() {
                            assert(before[i] == t);
                            assert(before.contains(t));
                        } else {
                            assert(added[i - before.len()] == t);
                            assert(added.contains(t));
                            assert(rotations@[k as int] == t.rotation);
                        }
                    }
                    if is_candidate(g, mino.shape@, t) && exists|j: int| 0 <= j < k + 1 && rotations@[j] == t.rotation {
                        if t.rotation == rotation {
                            assert(added.contains(t));
                            let i = choose|i: int| 0 <= i < added.len() && added[i] == t;
                            assert(transforms@[before.len() + i] == t);
                        } else {
                            let j = choose|j: int| 0 <= j < k + 1 && rotations@[j] == t.rotation;
                            assert(j != k);
                            assert(before.contains(t));
                            let i = choose|i: int| 0 <= i < before.len() && before[i] == t;
                            assert(transforms@[i] == t);
                        }
                    }
                }
            }
            k += 1;
        }
        proof {
            assert forall|t: TransForm| is_candidate(g, mino.shape@, t) implies #[trigger] transforms@.contains(t) by {
                match t.rotation {
                    Rotation::Neutral => assert(rotations@[0] == t.rotation),
                    Rotation::Left => assert(rotations@[1] == t.rotation),
                    Rotation::Right => assert(rotations@[2] == t.rotation),
                    Rotation::OneEighty => assert(rotations@[3] == t.rotation),
                }
            }
        }
        transforms
    }

    /// Commits the pieces of `minos` one after another, in order, by
    /// depth-first search over the placements of each, tried in search order;
    /// the first tiling found (`first_tiling`) is returned, `None` when no
    /// choice of placements commits them all.
    pub fn tile_serial(&self, minos: &[Mino]) -> (r: Option<Board>)
        requires
            self.wf(),
            all_wf(minos@),
        ensures
            r.is_some() == solvable(self.grid(), minos@),
            r matches Some(b) ==> tiling_result(self.grid(), self.placements(), minos@, b),
            r.is_some() == first_tiling(self.grid(), minos@) is Some,
            r matches Some(b) ==> b.grid() == after(
                self.grid(),
                minos@,
                first_tiling(self.grid(), minos@)->0,
            ) && b.placements() == self.placements() + records(
                minos@,
                first_tiling(self.grid(), minos@)->0,
            ),
    {
        proof {
            assert(minos@.subrange(0, minos@.len() as int) =~= minos@);
        }
        self.tile_serial_from(minos, 0)
    }

    fn tile_serial_from(&self, minos: &[Mino], k: usize) -> (r: Option<Board>)
        requires
            self.wf(),
            all_wf(minos@),
            k <= minos@.len(),
        ensures
            r.is_some() == solvable(self.grid(), minos@.subrange(k as int, minos@.len() as int)),
            r matches Some(b) ==> tiling_result(
                self.grid(),
                self.placements(),
                minos@.subrange(k as int, minos@.len() as int),
                b,
            ),
            r.is_some() == first_tiling(
                self.grid(),
                minos@.subrange(k as int, minos@.len() as int),
            ) is Some,
            r matches Some(b) ==> b.grid() == after(
                self.grid(),
                minos@.subrange(k as int, minos@.len() as int),
                first_tiling(self.grid(), minos@.subrange(k as int, minos@.len() as int))->0,
            ) && b.placements() == self.placements() + records(
                minos@.subrange(k as int, minos@.len() as int),
                first_tiling(self.grid(), minos@.subrange(k as int, minos@.len() as int))->0,
            ),
        decreases minos@.len() - k, 1nat,
    {
        let ghost g = self.grid();
        let ghost mk = minos@.subrange(k as int, minos@.len() as int);
        if k == minos.len() {
            let b = self.clone();
            proof {
                let ts = Seq::<TransForm>::empty();
                assert(reaches(g, mk, ts));
                assert(self.placements() + records(mk, ts) =~= self.placements());
                assert(b.wf());
                assert(mk.len() == 0);
            }
            return Some(b);
        }
        proof {
            assert(mk[0] == minos@[k as int]);
            assert(mk.drop_first() =~= minos@.subrange(k + 1, minos@.len() as int));
        }
        let ts = self.search_can_put(&minos[k]);
        proof {
            let cs = candidates(g, mk[0].shape@);
            assert(in_search_order(ts@));
            assert(in_search_order(cs) && forall|t: TransForm| #[trigger] cs.contains(t) <==> is_candidate(g, mk[0].shape@, t));
            lemma_search_order_unique(ts@, cs);
            assert(first_tiling(g, mk) == first_tiling_from(g, mk, ts@, 0));
        }
        let mut i: usize = 0;
        while i < ts.len()
            invariant
                self.wf(),
                all_wf(minos@),
                k < minos@.len(),
                g == self.grid(),
                mk == minos@.subrange(k as int, minos@.len() as int),
                mk[0] == minos@[k as int],
                mk.drop_first() == minos@.subrange(k + 1, minos@.len() as int),
                forall|t: TransForm| #[trigger] ts@.contains(t) <==> is_candidate(g, minos@[k as int].shape@, t),
                i <= ts@.len(),
                forall|j: int|
                    0 <= j < i ==> !solvable(
                        place(g, minos@[k as int].shape@, #[trigger] ts@[j]),
                        mk.drop_first(),
                    ),
                first_tiling(g, mk) == first_tiling_from(g, mk, ts@, i as int),
            decreases ts@.len() - i,
        {
            let t = ts[i];
            proof {
                assert(ts@.contains(t));
            }
            match self.branch_serial(minos, k, t) {
                Some(b) => {
                    proof {
                        lemma_extend_tiling(g, self.placements(), mk, t, b);
                        let ts2 = first_tiling(place(g, mk[0].shape@, t), mk.drop_first())->0;
                        lemma_first_tiling_len(place(g, mk[0].shape@, t), mk.drop_first());
                        assert(first_tiling(g, mk) == Some(seq![t] + ts2));
                        lemma_prepend_commitment(g, self.placements(), mk, t, ts2);
                    }
                    return Some(b);
                },
                None => {},
            }
            i += 1;
        }
        proof {
            if solvable(g, mk) {
                let t = choose|t: TransForm|
                    is_candidate(g, mk[0].shape@, t) && solvable(place(g, mk[0].shape@, t), mk.drop_first());
                assert(ts@.contains(t));
                let j = choose|j: int| 0 <= j < ts@.len() && ts@[j] == t;
                assert(!solvable(place(g, minos@[k as int].shape@, ts@[j]), mk.drop_first()));
            }
            assert(first_tiling_from(g, mk, ts@, i as int) is None);
        }
        None
    }

    fn branch_serial(&self, minos: &[Mino], k: usize, t: TransForm) -> (r: Option<Board>)
        requires
            self.wf(),
            all_wf(minos@),
            k < minos@.len(),
            is_candidate(self.grid(), minos@[k as int].shape@, t),
        ensures
            r.is_some() == solvable(
                place(self.grid(), minos@[k as int].shape@, t),
                minos@.subrange(k + 1, minos@.len() as int),
            ),
            r matches Some(b) ==> tiling_result(
                place(self.grid(), minos@[k as int].shape@, t),
                self.placements().push((minos@[k as int].name, minos@[k as int].shape@, t)),
                minos@.subrange(k + 1, minos@.len() as int),
                b,
            ),
            r.is_some() == first_tiling(
                place(self.grid(), minos@[k as int].shape@, t),
                minos@.subrange(k + 1, minos@.len() as int),
            ) is Some,
            r matches Some(b) ==> b.grid() == after(
                place(self.grid(), minos@[k as int].shape@, t),
                minos@.subrange(k + 1, minos@.len() as int),
                first_tiling(
                    place(self.grid(), minos@[k as int].shape@, t),
                    minos@.subrange(k + 1, minos@.len() as int),
                )->0,
            ) && b.placements() == self.placements().push(
                (minos@[k as int].name, minos@[k as int].shape@, t),
            ) + records(
                minos@.subrange(k + 1, minos@.len() as int),
                first_tiling(
                    place(self.grid(), minos@[k as int].shape@, t),
                    minos@.subrange(k + 1, minos@.len() as int),
                )->0,
            ),
        decreases minos@.len() - k, 0nat,
    {
        let mut next = self.clone();
        let m = minos[k].clone();
        next.put_mino(m, t);
        next.tile_serial_from(minos, k + 1)
    }

    /// Like `tile_serial`, but the placements of each piece are explored
    /// concurrently; when several tilings exist, any one of them may come back.
    pub fn tile_parallel(&self, minos: &[Mino]) -> (r: Option<Board>)
        requires
            self.wf(),
            all_wf(minos@),
        ensures
            r.is_some() == solvable(self.grid(), minos@),
            r matches Some(b) ==> tiling_result(self.grid(), self.placements(), minos@, b),
    {
        proof {
            assert(minos@.subrange(0, minos@.len() as int) =~= minos@);
        }
        self.tile_parallel_from(minos, 0)
    }

    fn tile_parallel_from(&self, minos: &[Mino], k: usize) -> (r: Option<Board>)
        requires
            self.wf(),
            all_wf(minos@),
            k <= minos@.len(),
        ensures
            r.is_some() == solvable(self.grid(), minos@.subrange(k as int, minos@.len() as int)),
            r matches Some(b) ==> tiling_result(
                self.grid(),
                self.placements(),
                minos@.subrange(k as int, minos@.len() as int),
                b,
            ),
    {
        let ghost g = self.grid();
        let ghost mk = minos@.subrange(k as int, minos@.len() as int);
        if k == minos.len() {
            let b = self.clone();
            proof {
                let ts = Seq::<TransForm>::empty();
                assert(reaches(g, mk, ts));
                assert(self.placements() + records(mk, ts) =~= self.placements());
                assert(b.wf());
            }
            return Some(b);
        }
        proof {
            assert(mk[0] == minos@[k as int]);
            assert(mk.drop_first() =~= minos@.subrange(k + 1, minos@.len() as int));
        }
        let ts = self.search_can_put(&minos[k]);
        let ghost tss = ts@;
        proof {
            assert forall|j: int| 0 <= j < tss.len() implies is_candidate(g, minos@[k as int].shape@, #[trigger] tss[j]) by {
                assert(tss.contains(tss[j]));
            }
        }
        let found = find_tiling_any(self, ts, minos, k);
        match found {
            Some(b) => {
                proof {
                    let j = choose|j: int|
                        0 <= j < tss.len() && tiling_result(
                            place(g, minos@[k as int].shape@, #[trigger] tss[j]),
                            self.placements().push((minos@[k as int].name, minos@[k as int].shape@, tss[j])),
                            minos@.subrange(k + 1, minos@.len() as int),
                            b,
                        );
                    lemma_extend_tiling(g, self.placements(), mk, tss[j], b);
                    lemma_tiling_solvable(g, self.placements(), mk, b);
                }
                Some(b)
            },
            None => {
                proof {
                    if solvable(g, mk) {
                        let t = choose|t: TransForm|
                            is_candidate(g, mk[0].shape@, t) && solvable(place(g, mk[0].shape@, t), mk.drop_first());
                        assert(tss.contains(t));
                        let j = choose|j: int| 0 <= j < tss.len() && tss[j] == t;
                        assert(!solvable(place(g, minos@[k as int].shape@, tss[j]), mk.drop_first()));
                    }
                }
                None
            },
        }
    }

    /// Commits `minos[k]` at `t` on a copy of the board, then tiles the
    /// copy with the pieces after `k`.
    fn branch_parallel(&self, minos: &[Mino], k: usize, t: TransForm) -> (r: Option<Board>)
        requires
            self.wf(),
            all_wf(minos@),
            k < minos@.len(),
            is_candidate(self.grid(), minos@[k as int].shape@, t),
        ensures
            r.is_some() == solvable(
                place(self.grid(), minos@[k as int].shape@, t),
                minos@.subrange(k + 1, minos@.len() as int),
            ),
            r matches Some(b) ==> tiling_result(
                place(self.grid(), minos@[k as int].shape@, t),
                self.placements().push((minos@[k as int].name, minos@[k as int].shape@, t)),
                minos@.subrange(k + 1, minos@.len() as int),
                b,
            ),
    {
        let mut next = self.clone();
        let m = minos[k].clone();
        next.put_mino(m, t);
        next.tile_parallel_from(minos, k + 1)
    }

    /// Tiles the board with all of `minos`. The pieces are first checked to
    /// cover exactly the vacant cells (no search happens otherwise), then
    /// ordered by how many cells they cover, most first, and committed by the
    /// parallel search. On success every cell of the result is occupied;
    /// `Unsatisfiable` means the pieces cannot be committed in any order.
    pub fn solve(&self, minos: Vec<Mino>) -> (r: Result<Board, SolveError>)
        requires
            self.wf(),
            all_wf(minos@),
        ensures
            r matches Err(SolveError::WallCountMismatch { .. }) <==> sum_walls(minos@)
                != vacant_count(self.grid()),
            r matches Err(SolveError::WallCountMismatch { piece_walls, vacant }) ==> piece_walls
                == (if sum_walls(minos@) <= usize::MAX {
                sum_walls(minos@) as usize
            } else {
                usize::MAX
            }) && vacant == vacant_count(self.grid()),
            r matches Ok(b) ==> {
                &&& grid_width(b.grid()) == grid_width(self.grid())
                &&& grid_height(b.grid()) == grid_height(self.grid())
                &&& wall_count(b.grid()) == grid_width(b.grid()) * grid_height(b.grid())
                &&& exists|p: Seq<Mino>|
                    p.to_multiset() == minos@.to_multiset() && #[trigger] tiling_result(
                        self.grid(),
                        self.placements(),
                        p,
                        b,
                    )
            },
            r is Ok <==> sum_walls(minos@) == vacant_count(self.grid()) && solvable(self.grid(), minos@),
            r matches Err(SolveError::Unsatisfiable) <==> sum_walls(minos@) == vacant_count(self.grid())
                && !solvable(self.grid(), minos@),
    {
        match check_wall_count(&minos, self) {
            Ok(()) => {},
            Err(e) => {
                proof {
                    lemma_walls_finite(self.grid());
                }
                return Err(e);
            },
        }
        let ghost given = minos@;
        let sorted = sort_by_wall_count(minos);
        proof {
            lemma_sum_walls_reorder(sorted@, given);
            if solvable(self.grid(), given) {
                lemma_solvable_reorder(self.grid(), given, sorted@);
            }
            if solvable(self.grid(), sorted@) {
                lemma_solvable_reorder(self.grid(), sorted@, given);
            }
        }
        match self.tile_parallel(sorted.as_slice()) {
            Some(b) => {
                proof {
                    law_tiling_covers_board(*self, sorted@, b);
                }
                Ok(b)
            },
            None => Err(SolveError::Unsatisfiable),
        }
    }

    fn shown_at(&self, turned: &Vec<Shape>, x: usize, y: usize) -> (r: char)
        requires
            self.wf(),
            x < grid_width(self.grid()),
            y < grid_height(self.grid()),
            turned@.len() == self.placements().len(),
            forall|i: int|
                0 <= i < turned@.len() ==> (#[trigger] turned@[i]).wf() && turned@[i]@ == rotate_grid(
                    self.placements()[i].1,
                    self.placements()[i].2.rotation,
                ),
        ensures
            r == shown_char(self.grid(), self.placements(), x as int, y as int),
    {
        let ghost g = self.grid();
        let ghost pl = self.placements();
        let mut i: usize = self.mino_transforms.len();
        proof {
            assert(pl.take(i as int) =~= pl);
        }
        while i > 0
            invariant
                self.wf(),
                g == self.grid(),
                pl == self.placements(),
                pl.len() == self.mino_transforms@.len(),
                i <= pl.len(),
                turned@.len() == pl.len(),
                forall|k: int|
                    0 <= k < turned@.len() ==> (#[trigger] turned@[k]).wf() && turned@[k]@
                        == rotate_grid(pl[k].1, pl[k].2.rotation),
                shown_char(g, pl, x as int, y as int) == shown_char(
                    g,
                    pl.take(i as int),
                    x as int,
                    y as int,
                ),
            decreases i,
        {
            i -= 1;
            let t = self.mino_transforms[i].1;
            let tw = turned[i].width();
            let th = turned[i].height();
            proof {
                assert(pl.take(i + 1).drop_last() =~= pl.take(i as int));
                assert(pl.take(i + 1).last() == pl[i as int]);
                assert(pl[i as int].2 == t);
            }
            if x >= t.x && y >= t.y && x - t.x < tw && y - t.y < th {
                if turned[i].is_wall(x - t.x, y - t.y) {
                    return self.mino_transforms[i].0.name;
                }
            }
        }
        if self.is_wall(x, y) {
            '#'
        } else {
            '.'
        }
    }

    /// The board drawn as text: one line per row, joined by newlines, each
    /// cell drawn as `shown_char` says.
    pub fn pretty_shape(&self) -> (r: String)
        requires
            self.wf(),
        ensures
            r@.len() == grid_height(self.grid()) * (grid_width(self.grid()) + 1) - 1,
            forall|x: int, y: int|
                0 <= x < grid_width(self.grid()) && 0 <= y < grid_height(self.grid())
                    ==> #[trigger] r@[y * (grid_width(self.grid()) + 1) + x] == shown_char(
                    self.grid(),
                    self.placements(),
                    x,
                    y,
                ),
            forall|y: int|
                0 <= y < grid_height(self.grid()) - 1 ==> #[trigger] r@[y * (grid_width(
                    self.grid(),
                ) + 1) + grid_width(self.grid())] == '\n',
    {
        let ghost g = self.grid();
        let ghost pl = self.placements();
        let mut turned: Vec<Shape> = Vec::new();
        let mut k: usize = 0;
        while k < self.mino_transforms.len()
            invariant
                self.wf(),
                pl == self.placements(),
                pl.len() == self.mino_transforms@.len(),
                k <= pl.len(),
                turned@.len() == k,
                forall|i: int|
                    0 <= i < k ==> (#[trigger] turned@[i]).wf() && turned@[i]@ == rotate_grid(
                        pl[i].1,
                        pl[i].2.rotation,
                    ),
            decreases pl.len() - k,
        {
            proof {
                assert(pl[k as int].1 == self.mino_transforms@[k as int].0.shape@);
                assert(is_grid(pl[k as int].1));
            }
            let t = self.mino_transforms[k].0.shape.rotated(&self.mino_transforms[k].1.rotation);
            turned.push(t);
            k += 1;
        }
        let w = self.width();
        let h = self.height();
        let mut out: Vec<char> = Vec::new();
        let mut y: usize = 0;
        while y < h
            invariant
                self.wf(),
                g == self.grid(),
                pl == self.placements(),
                w == grid_width(g),
                h == grid_height(g),
                y <= h,
                turned@.len() == pl.len(),
                forall|i: int|
                    0 <= i < turned@.len() ==> (#[trigger] turned@[i]).wf() && turned@[i]@
                        == rotate_grid(pl[i].1, pl[i].2.rotation),
                out@.len() == y * (w + 1),
                forall|a: int, b: int|
                    0 <= a < w && 0 <= b < y ==> #[trigger] out@[b * (w + 1) + a] == shown_char(
                        g,
                        pl,
                        a,
                        b,
                    ),
                forall|b: int| 0 <= b < y ==> #[trigger] out@[b * (w + 1) + w] == '\n',
            decreases h - y,
        {
            let mut x: usize = 0;
            while x < w
                invariant
                    self.wf(),
                    g == self.grid(),
                    pl == self.placements(),
                    w == grid_width(g),
                    h == grid_height(g),
                    y < h,
                    x <= w,
                    turned@.len() == pl.len(),
                    forall|i: int|
                        0 <= i < turned@.len() ==> (#[trigger] turned@[i]).wf() && turned@[i]@
                            == rotate_grid(pl[i].1, pl[i].2.rotation),
                    out@.len() == y * (w + 1) + x,
                    forall|a: int, b: int|
                        0 <= a < w && 0 <= b < y ==> #[trigger] out@[b * (w + 1) + a]
                            == shown_char(g, pl, a, b),
                    forall|b: int| 0 <= b < y ==> #[trigger] out@[b * (w + 1) + w] == '\n',
                    forall|a: int| 0 <= a < x ==> #[trigger] out@[y * (w + 1) + a] == shown_char(
                        g,
                        pl,
                        a,
                        y as int,
                    ),
                decreases w - x,
            {
                let c = self.shown_at(&turned, x, y);
                out.push(c);
                proof {
                    assert forall|a: int, b: int| 0 <= a < w && 0 <= b < y implies #[trigger] out@[b
                        * (w + 1) + a] == shown_char(g, pl, a, b) by {
                        assert(b * (w + 1) + a < y * (w + 1)) by (nonlinear_arith)
                            requires
                                0 <= a < w,
                                0 <= b < y,
                        ;
                    }
                    assert forall|b: int| 0 <= b < y implies #[trigger] out@[b * (w + 1) + w]
                        == '\n' by {
                        assert(b * (w + 1) + w < y * (w + 1)) by (nonlinear_arith)
                            requires
                                0 <= b < y,
                        ;
                    }
                }
                x += 1;
            }
            out.push('\n');
            proof {
                assert((y + 1) * (w + 1) == y * (w + 1) + w + 1) by (nonlinear_arith);
                assert forall|a: int, b: int| 0 <= a < w && 0 <= b < y + 1 implies #[trigger] out@[b
                    * (w + 1) + a] == shown_char(g, pl, a, b) by {
                    if b < y {
                        assert(b * (w + 1) + a < y * (w + 1)) by (nonlinear_arith)
                            requires
                                0 <= a < w,
                                0 <= b < y,
                        ;
                    }
                }
                assert forall|b: int| 0 <= b < y + 1 implies #[trigger] out@[b * (w + 1) + w]
                    == '\n' by {
                    if b < y {
                        assert(b * (w + 1) + w < y * (w + 1)) by (nonlinear_arith)
                            requires
                                0 <= b < y,
                        ;
                    }
                }
            }
            y += 1;
        }
        proof {
            assert(h * (w + 1) >= w + 1) by (nonlinear_arith)
                requires
                    h >= 1,
                    w >= 0,
            ;
        }
        let ghost full = out@;
        out.pop();
        proof {
            assert(out@ == full.drop_last());
            assert forall|a: int, b: int| 0 <= a < w && 0 <= b < h implies #[trigger] out@[b * (w
                + 1) + a] == shown_char(g, pl, a, b) by {
                assert(b * (w + 1) + a < h * (w + 1) - 1) by (nonlinear_arith)
                    requires
                        0 <= a < w,
                        0 <= b < h,
                ;
                assert(out@[b * (w + 1) + a] == full[b * (w + 1) + a]);
            }
            assert forall|b: int| 0 <= b < h - 1 implies #[trigger] out@[b * (w + 1) + w] == '\n' by {
                assert(b * (w + 1) + w < h * (w + 1) - 1) by (nonlinear_arith)
                    requires
                        0 <= b < h - 1,
                ;
                assert(out@[b * (w + 1) + w] == full[b * (w + 1) + w]);
            }
        }
        string_from_chars(&out)
    }
}

} // verus!
