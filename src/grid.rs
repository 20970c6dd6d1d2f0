use vstd::prelude::*;
use vstd::relations::injective_on;
use vstd::set_lib::lemma_map_size;

verus! {

/// The four axis-aligned orientations a piece can take.
#[derive(Clone, Copy, Debug, PartialEq, Eq, Structural)]
pub enum Rotation {
    Neutral,
    Left,
    Right,
    OneEighty,
}

/// Number of columns of a row-major grid (the length of its first row).
pub open spec fn grid_width(g: Seq<Seq<bool>>) -> int {
    if g.len() == 0 {
        0
    } else {
        g[0].len() as int
    }
}

/// Number of rows of a row-major grid.
pub open spec fn grid_height(g: Seq<Seq<bool>>) -> int {
    g.len() as int
}

/// A grid with at least one row and one column, every row as long as the first.
pub open spec fn is_rectangular(g: Seq<Seq<bool>>) -> bool {
    &&& g.len() >= 1
    &&& g[0].len() >= 1
    &&& forall|i: int| 0 <= i < g.len() ==> #[trigger] g[i].len() == g[0].len()
}

/// A rectangular grid whose number of cells fits in a `usize`.
pub open spec fn is_grid(g: Seq<Seq<bool>>) -> bool {
    &&& is_rectangular(g)
    &&& grid_width(g) <= usize::MAX
    &&& grid_height(g) <= usize::MAX
    &&& grid_width(g) * grid_height(g) <= usize::MAX
}

/// The cell in column `x` of row `y`.
pub open spec fn cell(g: Seq<Seq<bool>>, x: int, y: int) -> bool {
    g[y][x]
}

/// A fresh grid of `h` rows and `w` columns whose cell `(x, y)` is `f(x, y)`.
pub open spec fn build_grid(w: int, h: int, f: spec_fn(int, int) -> bool) -> Seq<Seq<bool>> {
    Seq::new(h as nat, |y: int| Seq::new(w as nat, |x: int| f(x, y)))
}

/// The grid turned by `r`. Left and Right swap the axes; the cell that lands
/// in row `i`, column `j` of the result is read back from the source.
pub open spec fn rotate_grid(g: Seq<Seq<bool>>, r: Rotation) -> Seq<Seq<bool>> {
    let w = grid_width(g);
    let h = grid_height(g);
    match r {
        Rotation::Neutral => g,
        Rotation::Left => build_grid(h, w, |j: int, i: int| g[j][w - 1 - i]),
        Rotation::Right => build_grid(h, w, |j: int, i: int| g[h - 1 - j][i]),
        Rotation::OneEighty => build_grid(w, h, |j: int, i: int| g[h - 1 - i][w - 1 - j]),
    }
}

pub proof fn lemma_build_grid(w: int, h: int, f: spec_fn(int, int) -> bool)
    requires
        w >= 1,
        h >= 1,
    ensures
        is_rectangular(build_grid(w, h, f)),
        grid_width(build_grid(w, h, f)) == w,
        grid_height(build_grid(w, h, f)) == h,
        forall|x: int, y: int|
            0 <= x < w && 0 <= y < h ==> #[trigger] build_grid(w, h, f)[y][x] == f(x, y),
{
}

/// Turning keeps a grid rectangular; Left and Right swap width and height,
/// OneEighty and Neutral keep both.
pub proof fn lemma_rotate_dims(g: Seq<Seq<bool>>, r: Rotation)
    requires
        is_grid(g),
    ensures
        is_grid(rotate_grid(g, r)),
        (r == Rotation::Left || r == Rotation::Right) ==> grid_width(rotate_grid(g, r))
            == grid_height(g) && grid_height(rotate_grid(g, r)) == grid_width(g),
        (r == Rotation::Neutral || r == Rotation::OneEighty) ==> grid_width(rotate_grid(g, r))
            == grid_width(g) && grid_height(rotate_grid(g, r)) == grid_height(g),
{
    let w = grid_width(g);
    let h = grid_height(g);
    match r {
        Rotation::Neutral => {},
        Rotation::Left => {
            lemma_build_grid(h, w, |j: int, i: int| g[j][w - 1 - i]);
            assert(h * w == w * h) by (nonlinear_arith);
        },
        Rotation::Right => {
            lemma_build_grid(h, w, |j: int, i: int| g[h - 1 - j][i]);
            assert(h * w == w * h) by (nonlinear_arith);
        },
        Rotation::OneEighty => {
            lemma_build_grid(w, h, |j: int, i: int| g[h - 1 - i][w - 1 - j]);
        },
    }
}

/// Turning by OneEighty twice gives the grid back.
pub proof fn lemma_one_eighty_twice(g: Seq<Seq<bool>>)
    requires
        is_grid(g),
    ensures
        rotate_grid(rotate_grid(g, Rotation::OneEighty), Rotation::OneEighty) == g,
{
    let a = rotate_grid(g, Rotation::OneEighty);
    lemma_rotate_dims(g, Rotation::OneEighty);
    let b = rotate_grid(a, Rotation::OneEighty);
    lemma_rotate_dims(a, Rotation::OneEighty);
    assert forall|i: int| 0 <= i < g.len() implies #[trigger] b[i] =~= g[i] by {
        assert(g[i].len() == g[0].len());
    }
    assert(b =~= g);
}

/// Turning twice by the same quarter turn is a half turn.
pub proof fn lemma_quarter_twice(g: Seq<Seq<bool>>, r: Rotation)
    requires
        is_grid(g),
        r == Rotation::Left || r == Rotation::Right,
    ensures
        rotate_grid(rotate_grid(g, r), r) == rotate_grid(g, Rotation::OneEighty),
{
    let a = rotate_grid(g, r);
    lemma_rotate_dims(g, r);
    let b = rotate_grid(a, r);
    lemma_rotate_dims(a, r);
    let c = rotate_grid(g, Rotation::OneEighty);
    lemma_rotate_dims(g, Rotation::OneEighty);
    assert forall|i: int| 0 <= i < c.len() implies #[trigger] b[i] =~= c[i] by {
        assert(b[i].len() == b[0].len());
        assert(c[i].len() == c[0].len());
    }
    assert(b =~= c);
}

/// Four turns by the same rotation give the grid back.
pub proof fn lemma_four_turns(g: Seq<Seq<bool>>, r: Rotation)
    requires
        is_grid(g),
    ensures
        rotate_grid(rotate_grid(rotate_grid(rotate_grid(g, r), r), r), r) == g,
{
    match r {
        Rotation::Neutral => {},
        Rotation::OneEighty => {
            lemma_one_eighty_twice(g);
            let a = rotate_grid(rotate_grid(g, r), r);
            lemma_one_eighty_twice(a);
        },
        _ => {
            lemma_quarter_twice(g, r);
            let a = rotate_grid(rotate_grid(g, r), r);
            lemma_rotate_dims(g, r);
            lemma_rotate_dims(rotate_grid(g, r), r);
            lemma_quarter_twice(a, r);
            lemma_rotate_dims(g, Rotation::OneEighty);
            lemma_one_eighty_twice(g);
        },
    }
}

/// Whether `p = (x, y)` names a cell of the grid.
pub open spec fn in_bounds(g: Seq<Seq<bool>>, p: (int, int)) -> bool {
    0 <= p.0 < grid_width(g) && 0 <= p.1 < grid_height(g)
}

/// The occupied cells of the grid, as `(x, y)` pairs.
pub open spec fn walls(g: Seq<Seq<bool>>) -> Set<(int, int)> {
    Set::new(|p: (int, int)| in_bounds(g, p) && g[p.1][p.0])
}

/// How many cells of the grid are occupied.
pub open spec fn wall_count(g: Seq<Seq<bool>>) -> int {
    walls(g).len() as int
}

/// How many cells of the grid are vacant.
pub open spec fn vacant_count(g: Seq<Seq<bool>>) -> int {
    grid_width(g) * grid_height(g) - wall_count(g)
}

/// The occupied cells that come before `(x, y)` in row-major order.
pub open spec fn walls_before(g: Seq<Seq<bool>>, x: int, y: int) -> Set<(int, int)> {
    Set::new(
        |p: (int, int)| in_bounds(g, p) && g[p.1][p.0] && (p.1 < y || (p.1 == y && p.0 < x)),
    )
}

pub proof fn lemma_walls_before(g: Seq<Seq<bool>>, x: int, y: int)
    requires
        is_rectangular(g),
        (0 <= y < grid_height(g) && 0 <= x <= grid_width(g)) || (y == grid_height(g) && x == 0),
    ensures
        walls_before(g, x, y).finite(),
        walls_before(g, x, y).len() <= y * grid_width(g) + x,
    decreases y, x,
{
    let w = grid_width(g);
    if x > 0 {
        lemma_walls_before(g, x - 1, y);
        assert(g[y].len() == w);
        if g[y][x - 1] {
            assert(walls_before(g, x, y) =~= walls_before(g, x - 1, y).insert((x - 1, y)));
        } else {
            assert(walls_before(g, x, y) =~= walls_before(g, x - 1, y));
        }
    } else if y > 0 {
        lemma_walls_before(g, w, y - 1);
        assert(walls_before(g, 0, y) =~= walls_before(g, w, y - 1));
        assert((y - 1) * w + w == y * w) by (nonlinear_arith);
    } else {
        assert(walls_before(g, 0, 0) =~= Set::empty());
    }
}

/// The occupied cells are finitely many, at most one per cell.
pub proof fn lemma_walls_finite(g: Seq<Seq<bool>>)
    requires
        is_rectangular(g),
    ensures
        walls(g).finite(),
        0 <= wall_count(g) <= grid_width(g) * grid_height(g),
{
    let w = grid_width(g);
    let h = grid_height(g);
    lemma_walls_before(g, 0, h);
    assert(walls(g) =~= walls_before(g, 0, h));
    assert(h * w == w * h) by (nonlinear_arith);
}

/// The cell of the turned grid where source cell `p` lands.
pub open spec fn rotate_point(g: Seq<Seq<bool>>, r: Rotation, p: (int, int)) -> (int, int) {
    let w = grid_width(g);
    let h = grid_height(g);
    match r {
        Rotation::Neutral => p,
        Rotation::Left => (p.1, w - 1 - p.0),
        Rotation::Right => (h - 1 - p.1, p.0),
        Rotation::OneEighty => (w - 1 - p.0, h - 1 - p.1),
    }
}

/// Turning moves every occupied cell and creates none: the count is kept.
pub proof fn lemma_rotate_wall_count(g: Seq<Seq<bool>>, r: Rotation)
    requires
        is_grid(g),
    ensures
        wall_count(rotate_grid(g, r)) == wall_count(g),
{
    let rg = rotate_grid(g, r);
    let w = grid_width(g);
    let h = grid_height(g);
    lemma_rotate_dims(g, r);
    lemma_walls_finite(g);
    let f = |p: (int, int)| rotate_point(g, r, p);
    assert forall|q: (int, int)| walls(rg).contains(q) implies #[trigger] walls(g).map(f).contains(q) by {
        let p = match r {
            Rotation::Neutral => q,
            Rotation::Left => (w - 1 - q.1, q.0),
            Rotation::Right => (q.1, h - 1 - q.0),
            Rotation::OneEighty => (w - 1 - q.0, h - 1 - q.1),
        };
        assert(f(p) == q);
        assert(walls(g).contains(p));
    }
    assert forall|q: (int, int)| #[trigger] walls(g).map(f).contains(q) implies walls(rg).contains(q) by {
        let p = choose|p: (int, int)| walls(g).contains(p) && f(p) == q;
        assert(g[p.1].len() == w);
    }
    assert(walls(g).map(f) =~= walls(rg));
    assert(injective_on(f, walls(g)));
    lemma_map_size(walls(g), walls(rg), f);
}

} // verus!
