use vstd::prelude::*;

use crate::grid::{
    cell, grid_height, grid_width, is_grid, lemma_four_turns, lemma_quarter_twice,
    lemma_rotate_dims, lemma_walls_before, lemma_walls_finite, rotate_grid, vacant_count,
    wall_count, walls, walls_before, Rotation,
};
use crate::gui::Scale;
use crate::parse::{chars_of, rows_are_grid, rows_of_lines, rows_view, split_lines_of, text_rows};

verus! {

/// A rectangular grid of cells; `true` marks an occupied cell.
#[derive(Debug, PartialEq, Eq, PartialOrd, Ord)]
pub struct Shape {
    rows: Vec<Vec<bool>>,
}

impl Clone for Shape {
    fn clone(&self) -> (r: Self)
        ensures
            r@ == self@,
    {
        let mut rows: Vec<Vec<bool>> = Vec::new();
        let mut i: usize = 0;
        while i < self.rows.len()
            invariant
                i <= self.rows@.len(),
                rows@.len() == i,
                forall|k: int| 0 <= k < i ==> #[trigger] rows@[k]@ == self.rows@[k]@,
            decreases self.rows@.len() - i,
        {
            let row = self.rows[i].clone();
            proof {
                assert(row@ =~= self.rows@[i as int]@);
            }
            rows.push(row);
            i += 1;
        }
        let r = Shape { rows };
        assert(r@ =~= self@);
        r
    }
}

impl View for Shape {
    type V = Seq<Seq<bool>>;

    closed spec fn view(&self) -> Seq<Seq<bool>> {
        self.rows@.map_values(|r: Vec<bool>| r@)
    }
}

impl Shape {
    /// The shape is rectangular, non-empty, and its cell count fits a `usize`.
    pub open spec fn wf(&self) -> bool {
        is_grid(self@)
    }

    pub open spec fn spec_width(&self) -> int {
        grid_width(self@)
    }

    pub open spec fn spec_height(&self) -> int {
        grid_height(self@)
    }

    pub fn new(vec: Vec<Vec<bool>>) -> (r: Shape)
        requires
            is_grid(vec@.map_values(|row: Vec<bool>| row@)),
        ensures
            r@ == vec@.map_values(|row: Vec<bool>| row@),
            r.wf(),
    {
        Shape { rows: vec }
    }

    /// The rows of cells, top to bottom.
    pub fn rows(&self) -> (r: &Vec<Vec<bool>>)
        ensures
            r@.map_values(|row: Vec<bool>| row@) == self@,
    {
        &self.rows
    }

    pub fn width(&self) -> (r: usize)
        requires
            self.wf(),
        ensures
            r == self.spec_width(),
    {
        self.rows[0].len()
    }

    pub fn height(&self) -> (r: usize)
        requires
            self.wf(),
        ensures
            r == self.spec_height(),
    {
        self.rows.len()
    }

    pub fn is_wall(&self, x: usize, y: usize) -> (r: bool)
        requires
            self.wf(),
            x < self.spec_width(),
            y < self.spec_height(),
        ensures
            r == cell(self@, x as int, y as int),
    {
        proof {
            assert(self@[y as int].len() == self@[0].len());
        }
        self.rows[y][x]
    }

    pub fn count_wall(&self) -> (r: usize)
        requires
            self.wf(),
        ensures
            r == wall_count(self@),
    {
        let w = self.width();
        let h = self.height();
        let mut count: usize = 0;
        let mut y: usize = 0;
        proof {
            lemma_walls_before(self@, 0, 0);
        }
        while y < h
            invariant
                self.wf(),
                w == self.spec_width(),
                h == self.spec_height(),
                y <= h,
                walls_before(self@, 0, y as int).finite(),
                count == walls_before(self@, 0, y as int).len(),
                count <= y * w,
            decreases h - y,
        {
            let mut x: usize = 0;
            proof {
                assert(self@[y as int].len() == w);
            }
            while x < w
                invariant
                    self.wf(),
                    w == self.spec_width(),
                    h == self.spec_height(),
                    y < h,
                    x <= w,
                    walls_before(self@, x as int, y as int).finite(),
                    count == walls_before(self@, x as int, y as int).len(),
                    count <= y * w + x,
                decreases w - x,
            {
                proof {
                    assert(y * w + x < w * h) by (nonlinear_arith)
                        requires
                            y < h,
                            x < w,
                    ;
                }
                if self.is_wall(x, y) {
                    proof {
                        assert(walls_before(self@, x + 1, y as int) =~= walls_before(
                            self@,
                            x as int,
                            y as int,
                        ).insert((x as int, y as int)));
                    }
                    count += 1;
                } else {
                    proof {
                        assert(walls_before(self@, x + 1, y as int) =~= walls_before(
                            self@,
                            x as int,
                            y as int,
                        ));
                    }
                }
                x += 1;
            }
            proof {
                assert(walls_before(self@, 0, y + 1) =~= walls_before(self@, w as int, y as int));
                assert(y * w + w == (y + 1) * w) by (nonlinear_arith);
            }
            y += 1;
        }
        proof {
            assert(walls(self@) =~= walls_before(self@, 0, h as int));
        }
        count
    }

    pub fn count_vacant(&self) -> (r: usize)
        requires
            self.wf(),
        ensures
            r == vacant_count(self@),
    {
        proof {
            lemma_walls_finite(self@);
        }
        self.width() * self.height() - self.count_wall()
    }

    /// Marks cell `(x, y)` occupied when `b` holds; an occupied cell stays occupied.
    pub fn put_on(&mut self, x: usize, y: usize, b: bool)
        requires
            old(self).wf(),
            x < old(self).spec_width(),
            y < old(self).spec_height(),
        ensures
            final(self).wf(),
            final(self)@ == old(self)@.update(
                y as int,
                old(self)@[y as int].update(x as int, old(self)@[y as int][x as int] || b),
            ),
    {
        let v = self.is_wall(x, y) || b;
        self.set_cell(x, y, v);
    }

    /// Flips cell `(x, y)` between occupied and vacant.
    pub fn toggle(&mut self, x: usize, y: usize)
        requires
            old(self).wf(),
            x < old(self).spec_width(),
            y < old(self).spec_height(),
        ensures
            final(self).wf(),
            final(self)@ == old(self)@.update(
                y as int,
                old(self)@[y as int].update(x as int, !old(self)@[y as int][x as int]),
            ),
    {
        let v = !self.is_wall(x, y);
        self.set_cell(x, y, v);
    }

    fn set_cell(&mut self, x: usize, y: usize, v: bool)
        requires
            old(self).wf(),
            x < old(self).spec_width(),
            y < old(self).spec_height(),
        ensures
            final(self).wf(),
            final(self)@ == old(self)@.update(y as int, old(self)@[y as int].update(x as int, v)),
    {
        proof {
            assert(self@[y as int].len() == self@[0].len());
        }
        let mut row: Vec<bool> = Vec::new();
        std::mem::swap(&mut row, &mut self.rows[y]);
        row.set(x, v);
        self.rows.set(y, row);
        proof {
            assert(self@ =~= old(self)@.update(y as int, old(self)@[y as int].update(x as int, v)));
            assert(self@[0].len() == old(self)@[0].len());
            assert forall|i: int| 0 <= i < self@.len() implies #[trigger] self@[i].len()
                == self@[0].len() by {
                assert(old(self)@[i].len() == old(self)@[0].len());
            }
        }
    }

    /// Every cell as `(x, y, occupied)`, row by row, each row left to right.
    pub fn coordinates(&self) -> (r: Vec<(usize, usize, bool)>)
        requires
            self.wf(),
        ensures
            r@.len() == self.spec_width() * self.spec_height(),
            forall|x: int, y: int|
                0 <= x < self.spec_width() && 0 <= y < self.spec_height() ==> #[trigger] r@[y
                    * self.spec_width() + x] == (x as usize, y as usize, cell(self@, x, y)),
    {
        let w = self.width();
        let h = self.height();
        let mut vs: Vec<(usize, usize, bool)> = Vec::new();
        let mut y: usize = 0;
        while y < h
            invariant
                self.wf(),
                w == self.spec_width(),
                h == self.spec_height(),
                y <= h,
                vs@.len() == y * w,
                forall|a: int, b: int|
                    0 <= a < w && 0 <= b < y ==> #[trigger] vs@[b * w + a] == (
                        a as usize,
                        b as usize,
                        cell(self@, a, b),
                    ),
            decreases h - y,
        {
            let mut x: usize = 0;
            while x < w
                invariant
                    self.wf(),
                    w == self.spec_width(),
                    h == self.spec_height(),
                    y < h,
                    x <= w,
                    vs@.len() == y * w + x,
                    forall|a: int, b: int|
                        0 <= a < w && 0 <= b < y ==> #[trigger] vs@[b * w + a] == (
                            a as usize,
                            b as usize,
                            cell(self@, a, b),
                        ),
                    forall|a: int| 0 <= a < x ==> #[trigger] vs@[y * w + a] == (
                        a as usize,
                        y,
                        cell(self@, a, y as int),
                    ),
                decreases w - x,
            {
                proof {
                    assert(y * w + x < w * h) by (nonlinear_arith)
                        requires
                            y < h,
                            x < w,
                    ;
                }
                let b = self.is_wall(x, y);
                vs.push((x, y, b));
                proof {
                    assert forall|a: int, c: int|
                        0 <= a < w && 0 <= c < y implies #[trigger] vs@[c * w + a] == (
                            a as usize,
                            c as usize,
                            cell(self@, a, c),
                        ) by {
                        assert(c * w + a < y * w) by (nonlinear_arith)
                            requires
                                0 <= a < w,
                                0 <= c < y,
                        ;
                    }
                }
                x += 1;
            }
            proof {
                assert((y + 1) * w == y * w + w) by (nonlinear_arith);
            }
            y += 1;
        }
        proof {
            assert(h * w == w * h) by (nonlinear_arith);
        }
        vs
    }

    /// The shape turned by `rotation`, in a freshly allocated grid.
    pub fn rotated(&self, rotation: &Rotation) -> (r: Shape)
        requires
            self.wf(),
        ensures
            r@ == rotate_grid(self@, *rotation),
            r.wf(),
    {
        proof {
            lemma_rotate_dims(self@, *rotation);
        }
        let w = self.width();
        let h = self.height();
        let (out_w, out_h) = match rotation {
            Rotation::Left | Rotation::Right => (h, w),
            _ => (w, h),
        };
        let ghost target = rotate_grid(self@, *rotation);
        let mut rows: Vec<Vec<bool>> = Vec::new();
        let mut i: usize = 0;
        while i < out_h
            invariant
                self.wf(),
                w == self.spec_width(),
                h == self.spec_height(),
                out_w == grid_width(target),
                out_h == grid_height(target),
                is_grid(target),
                target == rotate_grid(self@, *rotation),
                i <= out_h,
                rows@.len() == i,
                forall|k: int| 0 <= k < i ==> #[trigger] rows@[k]@ == target[k],
            decreases out_h - i,
        {
            let mut row: Vec<bool> = Vec::new();
            let mut j: usize = 0;
            while j < out_w
                invariant
                    self.wf(),
                    w == self.spec_width(),
                    h == self.spec_height(),
                    out_w == grid_width(target),
                    out_h == grid_height(target),
                    is_grid(target),
                    target == rotate_grid(self@, *rotation),
                    i < out_h,
                    j <= out_w,
                    row@.len() == j,
                    forall|k: int| 0 <= k < j ==> #[trigger] row@[k] == target[i as int][k],
                decreases out_w - j,
            {
                assert(target[i as int].len() == out_w);
                let b = match rotation {
                    Rotation::Neutral => self.is_wall(j, i),
                    Rotation::Left => self.is_wall(w - 1 - i, j),
                    Rotation::Right => self.is_wall(i, h - 1 - j),
                    Rotation::OneEighty => self.is_wall(w - 1 - j, h - 1 - i),
                };
                row.push(b);
                j += 1;
            }
            rows.push(row);
            i += 1;
        }
        let r = Shape { rows };
        assert(r@ =~= target);
        r
    }

    /// The grid that `s` describes: each non-empty line is a row, and every
    /// character but `.` is an occupied cell. Fails when there is no row or
    /// the rows differ in length.
    pub fn from_text(s: &str) -> (r: Result<Shape, String>)
        ensures
            r is Ok <==> is_grid(text_rows(s@)),
            r matches Ok(shape) ==> shape@ == text_rows(s@),
    {
        let cs = chars_of(s);
        Shape::from_chars(&cs)
    }

    /// `from_text` on the characters of a text.
    pub fn from_chars(cs: &Vec<char>) -> (r: Result<Shape, String>)
        ensures
            r is Ok <==> is_grid(text_rows(cs@)),
            r matches Ok(shape) ==> shape@ == text_rows(cs@),
    {
        let lines = split_lines_of(cs);
        let rows = rows_of_lines(&lines);
        if rows_are_grid(&rows) {
            let r = Shape { rows };
            proof {
                assert(r@ =~= rows_view(r.rows));
            }
            Ok(r)
        } else {
            Err("the rows of a shape must be non-empty and of equal length".to_owned())
        }
    }
}

impl Shape {
    /// Adds a vacant cell to the end of every row (`push`), or removes the
    /// last cell of every row.
    fn map_rows(&mut self, push: bool)
        requires
            old(self).wf(),
            push ==> (old(self).spec_width() + 1) * old(self).spec_height() <= usize::MAX,
            !push ==> old(self).spec_width() > 1,
        ensures
            final(self)@.len() == old(self)@.len(),
            forall|i: int|
                0 <= i < old(self)@.len() ==> #[trigger] final(self)@[i] == if push {
                    old(self)@[i].push(false)
                } else {
                    old(self)@[i].drop_last()
                },
    {
        let h = self.rows.len();
        let mut i: usize = 0;
        while i < h
            invariant
                h == old(self)@.len(),
                self@.len() == h,
                old(self).wf(),
                !push ==> old(self).spec_width() > 1,
                i <= h,
                forall|k: int|
                    0 <= k < i ==> #[trigger] self@[k] == if push {
                        old(self)@[k].push(false)
                    } else {
                        old(self)@[k].drop_last()
                    },
                forall|k: int| i <= k < h ==> #[trigger] self@[k] == old(self)@[k],
            decreases h - i,
        {
            proof {
                assert(self@[i as int] == old(self)@[i as int]);
            }
            let ghost before = self@;
            let mut row: Vec<bool> = Vec::new();
            std::mem::swap(&mut row, &mut self.rows[i]);
            proof {
                assert(row@ == before[i as int]);
                assert(old(self)@[i as int].len() == old(self)@[0].len());
            }
            if push {
                row.push(false);
            } else {
                row.pop();
            }
            self.rows.set(i, row);
            proof {
                assert forall|k: int| 0 <= k < h && k != i implies #[trigger] self@[k] == before[k] by {}
            }
            i += 1;
        }
    }
}

impl Scale for Shape {
    open spec fn scale_wf(&self) -> bool {
        self.wf()
    }

    open spec fn scale_width(&self) -> int {
        self.spec_width()
    }

    open spec fn scale_height(&self) -> int {
        self.spec_height()
    }

    fn width(&self) -> (r: usize) {
        Shape::width(self)
    }

    fn height(&self) -> (r: usize) {
        Shape::height(self)
    }

    fn increment_width(&mut self)
        ensures
            final(self)@ == old(self)@.map_values(|row: Seq<bool>| row.push(false)),
    {
        self.map_rows(true);
        proof {
            assert(self@ =~= old(self)@.map_values(|row: Seq<bool>| row.push(false)));
            assert forall|i: int| 0 <= i < self@.len() implies #[trigger] self@[i].len() == self@[0].len() by {
                assert(old(self)@[i].len() == old(self)@[0].len());
            }
            let (w0, h0) = (old(self).spec_width(), old(self).spec_height());
            assert(self.spec_width() == w0 + 1);
            assert(w0 + 1 <= (w0 + 1) * h0) by (nonlinear_arith)
                requires
                    h0 >= 1,
                    w0 >= 0,
            ;
        }
    }

    fn decrement_width(&mut self)
        ensures
            final(self)@ == old(self)@.map_values(|row: Seq<bool>| row.drop_last()),
    {
        self.map_rows(false);
        proof {
            assert(self@ =~= old(self)@.map_values(|row: Seq<bool>| row.drop_last()));
            assert forall|i: int| 0 <= i < self@.len() implies #[trigger] self@[i].len() == self@[0].len() by {
                assert(old(self)@[i].len() == old(self)@[0].len());
            }
            let (w0, h0, w1, h1) = (old(self).spec_width(), old(self).spec_height(), self.spec_width(), self.spec_height());
            assert(w1 * h1 <= w0 * h0) by (nonlinear_arith)
                requires
                    w1 == w0 - 1,
                    h1 == h0,
                    h1 >= 1,
            ;
        }
    }

    fn increment_height(&mut self)
        ensures
            final(self)@ == old(self)@.push(Seq::new(old(self).spec_width() as nat, |i: int| false)),
    {
        let w = Shape::width(self);
        let mut row: Vec<bool> = Vec::new();
        let mut j: usize = 0;
        while j < w
            invariant
                j <= w,
                row@ == Seq::new(j as nat, |i: int| false),
            decreases w - j,
        {
            row.push(false);
            j += 1;
            proof {
                assert(row@ =~= Seq::new(j as nat, |i: int| false));
            }
        }
        self.rows.push(row);
        proof {
            assert(self@ =~= old(self)@.push(Seq::new(w as nat, |i: int| false)));
            assert forall|i: int| 0 <= i < self@.len() implies #[trigger] self@[i].len() == self@[0].len() by {
                if i < old(self)@.len() {
                    assert(old(self)@[i].len() == old(self)@[0].len());
                }
            }
            let (w0, h0) = (old(self).spec_width(), old(self).spec_height());
            assert(self.spec_width() == w0);
            assert(h0 + 1 <= w0 * (h0 + 1)) by (nonlinear_arith)
                requires
                    w0 >= 1,
                    h0 >= 0,
            ;
        }
    }

    fn decrement_height(&mut self)
        ensures
            final(self)@ == old(self)@.drop_last(),
    {
        self.rows.pop();
        proof {
            assert(self@ =~= old(self)@.drop_last());
            assert forall|i: int| 0 <= i < self@.len() implies #[trigger] self@[i].len() == self@[0].len() by {
                assert(old(self)@[i].len() == old(self)@[0].len());
            }
            let (w0, h0, w1, h1) = (old(self).spec_width(), old(self).spec_height(), self.spec_width(), self.spec_height());
            assert(w1 * h1 <= w0 * h0) by (nonlinear_arith)
                requires
                    w1 == w0,
                    h1 == h0 - 1,
                    w1 >= 1,
            ;
        }
    }
}

/// Turning a shape four times by the same rotation gives the shape back.
pub proof fn law_four_turns(shape: Shape, rotation: Rotation)
    requires
        shape.wf(),
    ensures
        rotate_grid(rotate_grid(rotate_grid(rotate_grid(shape@, rotation), rotation), rotation), rotation)
            == shape@,
{
    lemma_four_turns(shape@, rotation);
}

/// Two quarter turns the same way make one half turn.
pub proof fn law_two_quarter_turns(shape: Shape, rotation: Rotation)
    requires
        shape.wf(),
        rotation == Rotation::Left || rotation == Rotation::Right,
    ensures
        rotate_grid(rotate_grid(shape@, rotation), rotation) == rotate_grid(shape@, Rotation::OneEighty),
{
    lemma_quarter_twice(shape@, rotation);
}

/// A quarter turn swaps width and height; a half turn keeps both.
pub proof fn law_turn_dimensions(shape: Shape)
    requires
        shape.wf(),
    ensures
        grid_width(rotate_grid(shape@, Rotation::Left)) == shape.spec_height(),
        grid_height(rotate_grid(shape@, Rotation::Left)) == shape.spec_width(),
        grid_width(rotate_grid(shape@, Rotation::Right)) == shape.spec_height(),
        grid_height(rotate_grid(shape@, Rotation::Right)) == shape.spec_width(),
        grid_width(rotate_grid(shape@, Rotation::OneEighty)) == shape.spec_width(),
        grid_height(rotate_grid(shape@, Rotation::OneEighty)) == shape.spec_height(),
{
    lemma_rotate_dims(shape@, Rotation::Left);
    lemma_rotate_dims(shape@, Rotation::Right);
    lemma_rotate_dims(shape@, Rotation::OneEighty);
}

impl std::str::FromStr for Shape {
    type Err = String;

    fn from_str(s: &str) -> Result<Shape, String> {
        Shape::from_text(s)
    }
}

} // verus!
