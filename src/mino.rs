use vstd::multiset::Multiset;
use vstd::prelude::*;

use crate::grid::{grid_height, grid_width, is_grid, rotate_grid, wall_count, Rotation};
use crate::parse::{
    block_minos, block_ok, blocks_of_lines, blocks_view, chars_of, decimal_value, expand_blocks,
    is_label, is_mark, join_lines, join_lines_from, lemma_label_unique, lines_view, parse_decimal,
    split_lines_of, text_blocks, text_rows,
};
use crate::shape::Shape;

verus! {

/// A piece: a one-character label and the shape it covers.
#[derive(Debug, PartialEq, Eq, PartialOrd, Ord)]
pub struct Mino {
    pub name: char,
    pub shape: Shape,
}

impl Clone for Mino {
    fn clone(&self) -> (r: Self)
        ensures
            r.name == self.name,
            r.shape@ == self.shape@,
    {
        Mino { name: self.name, shape: self.shape.clone() }
    }
}

impl Mino {
    pub open spec fn wf(&self) -> bool {
        self.shape.wf()
    }

    pub fn new(name: char, shape: Shape) -> (r: Mino)
        ensures
            r.name == name,
            r.shape == shape,
    {
        Mino { name, shape }
    }

    /// How many cells the piece covers.
    pub fn count_wall(&self) -> (r: usize)
        requires
            self.wf(),
        ensures
            r == wall_count(self.shape@),
    {
        self.shape.count_wall()
    }

    pub fn height(&self) -> (r: usize)
        requires
            self.wf(),
        ensures
            r == grid_height(self.shape@),
    {
        self.shape.height()
    }

    pub fn width(&self) -> (r: usize)
        requires
            self.wf(),
        ensures
            r == grid_width(self.shape@),
    {
        self.shape.width()
    }

    /// The same piece turned by `rotation`.
    pub fn rotated(&self, rotation: &Rotation) -> (r: Mino)
        requires
            self.wf(),
        ensures
            r.name == self.name,
            r.shape@ == rotate_grid(self.shape@, *rotation),
            r.wf(),
    {
        Mino { name: self.name, shape: self.shape.rotated(rotation) }
    }

    /// The piece that `s` describes: its grid as `Shape::from_text` reads
    /// it, labelled by the one character of `s` other than `.` and the
    /// line-ending characters.
    /// Fails when there is no such character, more than one, or no grid.
    pub fn from_text(s: &str) -> (r: Result<Mino, String>)
        ensures
            r is Ok <==> (exists|c: char| is_label(s@, c)) && is_grid(text_rows(s@)),
            r matches Ok(m) ==> is_label(s@, m.name) && m.shape@ == text_rows(s@) && m.wf(),
    {
        let cs = chars_of(s);
        Mino::from_chars(&cs)
    }

    /// `from_text` on the characters of a text.
    pub fn from_chars(cs: &Vec<char>) -> (r: Result<Mino, String>)
        ensures
            r is Ok <==> (exists|c: char| is_label(cs@, c)) && is_grid(text_rows(cs@)),
            r matches Ok(m) ==> is_label(cs@, m.name) && m.shape@ == text_rows(cs@) && m.wf(),
    {
        let mut label: Option<char> = None;
        let mut i: usize = 0;
        while i < cs.len()
            invariant
                i <= cs@.len(),
                label is None ==> forall|k: int| 0 <= k < i ==> !is_mark(#[trigger] cs@[k]),
                label matches Some(c) ==> is_mark(c) && cs@.contains(c) && forall|k: int|
                    0 <= k < i && is_mark(cs@[k]) ==> #[trigger] cs@[k] == c,
            decreases cs@.len() - i,
        {
            let c = cs[i];
            if c != '.' && c != '\n' && c != '\r' {
                match label {
                    None => {
                        label = Some(c);
                    },
                    Some(l) => {
                        if l != c {
                            proof {
                                assert forall|x: char| !is_label(cs@, x) by {
                                    if is_label(cs@, x) {
                                        assert(cs@[i as int] == x);
                                        let k = choose|k: int| 0 <= k < cs@.len() && cs@[k] == l;
                                        assert(cs@[k] == x);
                                    }
                                }
                            }
                            return Err("a piece must be drawn with exactly one label character".to_owned());
                        }
                    },
                }
            }
            i += 1;
        }
        match label {
            None => {
                proof {
                    assert forall|x: char| !is_label(cs@, x) by {
                        if is_label(cs@, x) {
                            let k = choose|k: int| 0 <= k < cs@.len() && cs@[k] == x;
                        }
                    }
                }
                Err("a piece must be drawn with exactly one label character".to_owned())
            },
            Some(name) => {
                proof {
                    assert(is_label(cs@, name));
                }
                match Shape::from_chars(cs) {
                    Ok(shape) => Ok(Mino { name, shape }),
                    Err(e) => Err(e),
                }
            },
        }
    }

    /// The pieces that a piece-list text describes. The text is cut into
    /// blocks at lines holding a `-`; a block's first line is a decimal count
    /// `n`, the lines after it draw one piece (see `from_text`), and the block
    /// stands for `n` copies of that piece. Fails when any block is malformed.
    pub fn minos_from_text(s: &str) -> (r: Result<Vec<Mino>, String>)
        ensures
            r is Ok <==> forall|i: int|
                0 <= i < text_blocks(s@).len() ==> block_ok(#[trigger] text_blocks(s@)[i]),
            r matches Ok(v) ==> minos_view(v@) == expand_blocks(text_blocks(s@)) && forall|i: int|
                0 <= i < v@.len() ==> (#[trigger] v@[i]).wf(),
    {
        let cs = chars_of(s);
        let lines = split_lines_of(&cs);
        let blocks = blocks_of_lines(&lines);
        let ghost bs = blocks_view(blocks);
        proof {
            assert(bs == text_blocks(s@));
        }
        let mut out: Vec<Mino> = Vec::new();
        let mut k: usize = 0;
        proof {
            assert(bs.take(0) =~= Seq::<Seq<Seq<char>>>::empty());
            assert(minos_view(out@) =~= Seq::<(char, Seq<Seq<bool>>)>::empty());
        }
        while k < blocks.len()
            invariant
                bs == blocks_view(blocks),
                bs == text_blocks(s@),
                k <= bs.len(),
                forall|i: int| 0 <= i < k ==> block_ok(#[trigger] bs[i]),
                minos_view(out@) == expand_blocks(bs.take(k as int)),
                forall|i: int| 0 <= i < out@.len() ==> (#[trigger] out@[i]).wf(),
            decreases bs.len() - k,
        {
            let block = &blocks[k];
            let ghost b = bs[k as int];
            proof {
                assert(b == lines_view(*block));
                assert(bs.take(k + 1).drop_last() =~= bs.take(k as int));
                assert(bs.take(k + 1).last() == b);
            }
            if block.len() == 0 {
                proof {
                    assert(b.len() == 0);
                    assert(!block_ok(text_blocks(s@)[k as int]));
                }
                return Err("a block of the piece list has no count line".to_owned());
            }
            let count = match parse_decimal(&block[0]) {
                Some(n) => n,
                None => {
                    proof {
                        assert(b[0] == block@[0]@);
                        assert(!block_ok(text_blocks(s@)[k as int]));
                    }
                    return Err("the first line of a block must be a decimal count".to_owned());
                },
            };
            let text = join_lines_from(block, 1);
            proof {
                assert(lines_view(*block).subrange(1, block@.len() as int) =~= b.drop_first());
            }
            let mino = match Mino::from_chars(&text) {
                Ok(m) => m,
                Err(e) => {
                    proof {
                        assert(!block_ok(text_blocks(s@)[k as int]));
                    }
                    return Err(e);
                },
            };
            proof {
                assert(b[0] == block@[0]@);
            }
            let ghost t = join_lines(b.drop_first());
            proof {
                let c = choose|c: char| is_label(t, c);
                lemma_label_unique(t, c, mino.name);
            }
            let ghost before = minos_view(out@);
            let mut j: usize = 0;
            while j < count
                invariant
                    j <= count,
                    b.len() >= 1,
                    count == decimal_value(b[0]),
                    block_minos(b).len() == count,
                    mino.wf(),
                    mino.name == (choose|c: char| is_label(t, c)),
                    mino.shape@ == text_rows(t),
                    t == join_lines(b.drop_first()),
                    minos_view(out@) == before + block_minos(b).take(j as int),
                    forall|i: int| 0 <= i < out@.len() ==> (#[trigger] out@[i]).wf(),
                decreases count - j,
            {
                let ghost prev = out@;
                out.push(mino.clone());
                j += 1;
                proof {
                    assert(out@ == prev.push(out@.last()));
                    assert(block_minos(b)[j - 1] == (mino.name, mino.shape@));
                    assert(block_minos(b).take(j as int) =~= block_minos(b).take(j - 1).push(
                        block_minos(b)[j - 1],
                    ));
                    assert(minos_view(out@) =~= minos_view(prev).push((mino.name, mino.shape@)));
                    assert(minos_view(out@) =~= before + block_minos(b).take(j as int));
                }
            }
            proof {
                assert(block_minos(b).take(j as int) =~= block_minos(b));
            }
            k += 1;
        }
        proof {
            assert(bs.take(k as int) =~= bs);
        }
        Ok(out)
    }
}

/// The pieces as label and grid.
pub open spec fn minos_view(ms: Seq<Mino>) -> Seq<(char, Seq<Seq<bool>>)> {
    ms.map_values(|m: Mino| (m.name, m.shape@))
}

/// The pieces ordered by how many cells they cover, most first.
pub fn sort_by_wall_count(minos: Vec<Mino>) -> (r: Vec<Mino>)
    requires
        forall|i: int| 0 <= i < minos@.len() ==> (#[trigger] minos@[i]).wf(),
    ensures
        r@.to_multiset() == minos@.to_multiset(),
        r@.len() == minos@.len(),
        forall|i: int| 0 <= i < r@.len() ==> (#[trigger] r@[i]).wf(),
        forall|i: int, j: int|
            0 <= i < j < r@.len() ==> wall_count((#[trigger] r@[i]).shape@) >= wall_count(
                (#[trigger] r@[j]).shape@,
            ),
{
    broadcast use vstd::seq_lib::group_to_multiset_ensures;

    let ghost orig = minos@;
    let mut rest = minos;
    let mut counts: Vec<usize> = Vec::new();
    let mut k: usize = 0;
    while k < rest.len()
        invariant
            rest@ == orig,
            forall|i: int| 0 <= i < rest@.len() ==> (#[trigger] rest@[i]).wf(),
            k <= rest@.len(),
            counts@.len() == k,
            forall|i: int| 0 <= i < k ==> counts@[i] == wall_count((#[trigger] rest@[i]).shape@),
        decreases rest@.len() - k,
    {
        let c = rest[k].count_wall();
        counts.push(c);
        k += 1;
    }
    let mut out: Vec<Mino> = Vec::new();
    while rest.len() > 0
        invariant
            out@.to_multiset().add(rest@.to_multiset()) == orig.to_multiset(),
            out@.len() + rest@.len() == orig.len(),
            forall|i: int| 0 <= i < rest@.len() ==> (#[trigger] rest@[i]).wf(),
            forall|i: int| 0 <= i < out@.len() ==> (#[trigger] out@[i]).wf(),
            counts@.len() == rest@.len(),
            forall|i: int| 0 <= i < rest@.len() ==> counts@[i] == wall_count((#[trigger] rest@[i]).shape@),
            forall|i: int, j: int|
                0 <= i < j < out@.len() ==> wall_count((#[trigger] out@[i]).shape@) >= wall_count(
                    (#[trigger] out@[j]).shape@,
                ),
            forall|i: int, j: int|
                0 <= i < out@.len() && 0 <= j < rest@.len() ==> wall_count((#[trigger] out@[i]).shape@)
                    >= wall_count((#[trigger] rest@[j]).shape@),
        decreases rest@.len(),
    {
        let mut best: usize = 0;
        let mut i: usize = 1;
        while i < rest.len()
            invariant
                counts@.len() == rest@.len(),
                best < rest@.len(),
                1 <= i <= rest@.len(),
                best < i,
                forall|j: int| 0 <= j < i ==> counts@[j] <= counts@[best as int],
            decreases rest@.len() - i,
        {
            if counts[i] > counts[best] {
                best = i;
            }
            i += 1;
        }
        let ghost before_rest = rest@;
        let ghost before_out = out@;
        let m = rest.remove(best);
        counts.remove(best);
        out.push(m);
        proof {
            vstd::seq_lib::to_multiset_remove(before_rest, best as int);
            vstd::seq_lib::to_multiset_build(before_out, m);
            assert(rest@ == before_rest.remove(best as int));
            assert(out@ == before_out.push(m));
            assert(before_rest[best as int] == m);
            assert(before_rest.contains(m));
            vstd::seq_lib::to_multiset_contains(before_rest, m);
            broadcast use vstd::multiset::group_multiset_axioms;
            assert(out@.to_multiset().add(rest@.to_multiset()) =~= orig.to_multiset());
            assert forall|a: int, b: int|
                0 <= a < out@.len() && 0 <= b < rest@.len() implies wall_count(
                (#[trigger] out@[a]).shape@,
            ) >= wall_count((#[trigger] rest@[b]).shape@) by {
                if b < best {
                    assert(rest@[b] == before_rest[b]);
                    assert(counts@[b] == wall_count(before_rest[b].shape@));
                } else {
                    assert(rest@[b] == before_rest[b + 1]);
                }
                if a < before_out.len() {
                    assert(out@[a] == before_out[a]);
                }
            }
            assert forall|a: int, b: int|
                0 <= a < b < out@.len() implies wall_count((#[trigger] out@[a]).shape@) >= wall_count(
                (#[trigger] out@[b]).shape@,
            ) by {
                if b == before_out.len() {
                    assert(out@[a] == before_out[a]);
                    assert(before_rest[best as int] == m);
                } else {
                    assert(out@[a] == before_out[a]);
                    assert(out@[b] == before_out[b]);
                }
            }
        }
    }
    proof {
        assert(rest@.to_multiset() =~= Multiset::empty());
        assert(out@.to_multiset() =~= orig.to_multiset());
    }
    out
}

impl std::str::FromStr for Mino {
    type Err = String;

    fn from_str(s: &str) -> Result<Mino, String> {
        Mino::from_text(s)
    }
}

} // verus!
