use vstd::prelude::*;

use crate::grid::is_grid;

verus! {

/// A finished line without the one `'\r'` that may stand right before its
/// newline.
pub open spec fn without_cr(line: Seq<char>) -> Seq<char> {
    if line.len() > 0 && line.last() == '\r' {
        line.drop_last()
    } else {
        line
    }
}

/// The lines of `s`, cut at each `'\n'`; `n` newlines give `n + 1` lines. A
/// line ended by `"\r\n"` loses the `'\r'` too.
pub open spec fn split_lines(s: Seq<char>) -> Seq<Seq<char>>
    decreases s.len(),
{
    if s.len() == 0 {
        seq![Seq::<char>::empty()]
    } else {
        let init = split_lines(s.drop_last());
        if s.last() == '\n' {
            init.update(init.len() - 1, without_cr(init.last())).push(Seq::<char>::empty())
        } else {
            init.update(init.len() - 1, init.last().push(s.last()))
        }
    }
}

/// A line of grid text as cells: every character but `.` is occupied.
pub open spec fn row_of(line: Seq<char>) -> Seq<bool> {
    line.map_values(|c: char| c != '.')
}

/// The non-empty lines, in order, as rows of cells.
pub open spec fn nonempty_rows(ls: Seq<Seq<char>>) -> Seq<Seq<bool>>
    decreases ls.len(),
{
    if ls.len() == 0 {
        Seq::empty()
    } else if ls.last().len() == 0 {
        nonempty_rows(ls.drop_last())
    } else {
        nonempty_rows(ls.drop_last()).push(row_of(ls.last()))
    }
}

/// The grid that text `s` describes.
pub open spec fn text_rows(s: Seq<char>) -> Seq<Seq<bool>> {
    nonempty_rows(split_lines(s))
}

/// Whether `c` draws part of a piece: it is not `.` nor a line-ending character.
pub open spec fn is_mark(c: char) -> bool {
    c != '.' && c != '\n' && c != '\r'
}

/// `c` is the one character of `s` that draws the piece (see `is_mark`), and
/// it occurs.
pub open spec fn is_label(s: Seq<char>, c: char) -> bool {
    &&& is_mark(c)
    &&& s.contains(c)
    &&& forall|i: int| 0 <= i < s.len() && is_mark(s[i]) ==> #[trigger] s[i] == c
}

/// Lines joined back together with a newline between each two.
pub open spec fn join_lines(ls: Seq<Seq<char>>) -> Seq<char>
    decreases ls.len(),
{
    if ls.len() == 0 {
        Seq::empty()
    } else if ls.len() == 1 {
        ls[0]
    } else {
        join_lines(ls.drop_last()).push('\n') + ls.last()
    }
}

/// The groups of lines between separator lines (those holding a `-`);
/// `n` separators give `n + 1` groups.
pub open spec fn blocks_of(ls: Seq<Seq<char>>) -> Seq<Seq<Seq<char>>>
    decreases ls.len(),
{
    if ls.len() == 0 {
        seq![Seq::<Seq<char>>::empty()]
    } else {
        let init = blocks_of(ls.drop_last());
        if ls.last().contains('-') {
            init.push(Seq::<Seq<char>>::empty())
        } else {
            init.update(init.len() - 1, init.last().push(ls.last()))
        }
    }
}

pub open spec fn is_digit(c: char) -> bool {
    '0' <= c <= '9'
}

/// A non-empty run of decimal digits.
pub open spec fn is_decimal(s: Seq<char>) -> bool {
    s.len() > 0 && forall|i: int| 0 <= i < s.len() ==> is_digit(#[trigger] s[i])
}

/// The number that a run of decimal digits writes.
pub open spec fn decimal_value(s: Seq<char>) -> int
    decreases s.len(),
{
    if s.len() == 0 {
        0
    } else {
        decimal_value(s.drop_last()) * 10 + (s.last() as int - '0' as int)
    }
}

/// The characters of `s`, in order.
pub(crate) fn chars_of(s: &str) -> (r: Vec<char>)
    ensures
        r@ == s@,
{
    broadcast use vstd::string::axiom_spec_iter;

    let mut out: Vec<char> = Vec::new();
    for c in it: s.chars()
        invariant
            it.seq() == s@,
            out@ == s@.take(it.index() as int),
    {
        out.push(c);
        proof {
            assert(out@ =~= s@.take(it.index() + 1));
        }
    }
    proof {
        assert(out@ =~= s@);
    }
    out
}

pub open spec fn lines_view(ls: Vec<Vec<char>>) -> Seq<Seq<char>> {
    ls@.map_values(|l: Vec<char>| l@)
}

pub open spec fn rows_view(rs: Vec<Vec<bool>>) -> Seq<Seq<bool>> {
    rs@.map_values(|r: Vec<bool>| r@)
}

/// Cuts `cs` into lines at each newline.
pub fn split_lines_of(cs: &Vec<char>) -> (r: Vec<Vec<char>>)
    ensures
        lines_view(r) == split_lines(cs@),
{
    let mut done: Vec<Vec<char>> = Vec::new();
    let mut cur: Vec<char> = Vec::new();
    let mut i: usize = 0;
    proof {
        assert(cs@.take(0) =~= Seq::<char>::empty());
    }
    while i < cs.len()
        invariant
            i <= cs@.len(),
            lines_view(done).push(cur@) == split_lines(cs@.take(i as int)),
        decreases cs@.len() - i,
    {
        let c = cs[i];
        let ghost before = lines_view(done).push(cur@);
        proof {
            assert(cs@.take(i + 1).drop_last() =~= cs@.take(i as int));
            assert(cs@.take(i + 1).last() == c);
        }
        if c == '\n' {
            let n = cur.len();
            if n > 0 && cur[n - 1] == '\r' {
                cur.pop();
            }
            proof {
                assert(cur@ == without_cr(before.last()));
            }
            done.push(cur);
            cur = Vec::new();
            proof {
                assert(lines_view(done) =~= before.update(before.len() - 1, without_cr(before.last())));
                assert(lines_view(done).push(cur@) =~= before.update(
                    before.len() - 1,
                    without_cr(before.last()),
                ).push(Seq::<char>::empty()));
            }
        } else {
            let ghost d = lines_view(done);
            cur.push(c);
            proof {
                assert(lines_view(done) == d);
                assert(lines_view(done).push(cur@) =~= before.update(
                    before.len() - 1,
                    before.last().push(c),
                ));
            }
        }
        i += 1;
    }
    proof {
        assert(cs@.take(i as int) =~= cs@);
    }
    done.push(cur);
    proof {
        assert(lines_view(done) =~= split_lines(cs@));
    }
    done
}

/// The non-empty lines as rows of cells.
pub fn rows_of_lines(ls: &Vec<Vec<char>>) -> (r: Vec<Vec<bool>>)
    ensures
        rows_view(r) == nonempty_rows(lines_view(*ls)),
{
    let mut rows: Vec<Vec<bool>> = Vec::new();
    let mut k: usize = 0;
    while k < ls.len()
        invariant
            k <= ls@.len(),
            rows_view(rows) == nonempty_rows(lines_view(*ls).take(k as int)),
        decreases ls@.len() - k,
    {
        let ghost lv = lines_view(*ls);
        proof {
            assert(lv.take(k + 1).drop_last() =~= lv.take(k as int));
            assert(lv.take(k + 1).last() == ls@[k as int]@);
        }
        let line = &ls[k];
        if line.len() > 0 {
            let mut row: Vec<bool> = Vec::new();
            let mut j: usize = 0;
            while j < line.len()
                invariant
                    j <= line@.len(),
                    row@ == line@.take(j as int).map_values(|c: char| c != '.'),
                decreases line@.len() - j,
            {
                row.push(line[j] != '.');
                j += 1;
                proof {
                    assert(row@ =~= line@.take(j as int).map_values(|c: char| c != '.'));
                }
            }
            proof {
                assert(line@.take(j as int) =~= line@);
            }
            let ghost old_rows = rows_view(rows);
            rows.push(row);
            proof {
                assert(rows_view(rows) =~= old_rows.push(row_of(line@)));
            }
        }
        k += 1;
    }
    proof {
        assert(lines_view(*ls).take(k as int) =~= lines_view(*ls));
    }
    rows
}

/// Whether the rows form a grid (see `is_grid`).
pub fn rows_are_grid(rows: &Vec<Vec<bool>>) -> (r: bool)
    ensures
        r == is_grid(rows_view(*rows)),
{
    let ghost g = rows_view(*rows);
    if rows.len() == 0 {
        return false;
    }
    let w = rows[0].len();
    if w == 0 {
        return false;
    }
    let mut i: usize = 1;
    while i < rows.len()
        invariant
            g == rows_view(*rows),
            rows@.len() >= 1,
            w == g[0].len(),
            1 <= i <= rows@.len(),
            forall|k: int| 0 <= k < i ==> #[trigger] g[k].len() == w,
        decreases rows@.len() - i,
    {
        proof {
            assert(g[i as int] == rows@[i as int]@);
        }
        if rows[i].len() != w {
            return false;
        }
        i += 1;
    }
    match w.checked_mul(rows.len()) {
        Some(_) => true,
        None => false,
    }
}

/// The decimal number `cs` writes, when it is a run of digits whose value
/// fits a `usize`.
pub fn parse_decimal(cs: &Vec<char>) -> (r: Option<usize>)
    ensures
        r is Some <==> is_decimal(cs@) && decimal_value(cs@) <= usize::MAX,
        r matches Some(n) ==> n == decimal_value(cs@),
{
    if cs.len() == 0 {
        return None;
    }
    let mut value: usize = 0;
    let mut i: usize = 0;
    while i < cs.len()
        invariant
            i <= cs@.len(),
            forall|k: int| 0 <= k < i ==> is_digit(#[trigger] cs@[k]),
            value == decimal_value(cs@.take(i as int)),
        decreases cs@.len() - i,
    {
        let c = cs[i];
        proof {
            assert(cs@.take(i + 1).drop_last() =~= cs@.take(i as int));
        }
        if !('0' <= c && c <= '9') {
            return None;
        }
        let d = (c as u32 - '0' as u32) as usize;
        let next = match value.checked_mul(10) {
            Some(v) => v.checked_add(d),
            None => None,
        };
        match next {
            Some(v) => {
                value = v;
            },
            None => {
                proof {
                    let d_int = c as int - '0' as int;
                    assert(decimal_value(cs@.take(i + 1)) == value * 10 + d_int);
                    if is_decimal(cs@) {
                        lemma_decimal_grows(cs@, i + 1);
                    }
                }
                return None;
            },
        }
        i += 1;
    }
    proof {
        assert(cs@.take(i as int) =~= cs@);
    }
    Some(value)
}

/// Reading more digits never makes the number smaller.
pub proof fn lemma_decimal_grows(s: Seq<char>, k: int)
    requires
        0 <= k <= s.len(),
        forall|i: int| 0 <= i < s.len() ==> is_digit(#[trigger] s[i]),
    ensures
        decimal_value(s) >= decimal_value(s.take(k)) >= 0,
    decreases s.len(),
{
    if k == s.len() {
        assert(s.take(k) =~= s);
        if s.len() > 0 {
            lemma_decimal_grows(s.drop_last(), s.len() - 1);
        }
    } else {
        assert(s.take(k) =~= s.drop_last().take(k));
        lemma_decimal_grows(s.drop_last(), k);
        assert(is_digit(s.last()));
    }
}

/// A block of the piece-list format is well formed: its first line is a
/// decimal count that fits a `usize`, and the lines after it describe a
/// piece (one label character, rows of equal length).
pub open spec fn block_ok(b: Seq<Seq<char>>) -> bool {
    let t = join_lines(b.drop_first());
    &&& b.len() >= 1
    &&& is_decimal(b[0])
    &&& decimal_value(b[0]) <= usize::MAX
    &&& exists|c: char| is_label(t, c)
    &&& is_grid(text_rows(t))
}

/// The pieces a block stands for: its count of copies of its piece, each as
/// label and grid.
pub open spec fn block_minos(b: Seq<Seq<char>>) -> Seq<(char, Seq<Seq<bool>>)> {
    let t = join_lines(b.drop_first());
    Seq::new(decimal_value(b[0]) as nat, |i: int| (choose|c: char| is_label(t, c), text_rows(t)))
}

/// The pieces of all blocks, block after block.
pub open spec fn expand_blocks(bs: Seq<Seq<Seq<char>>>) -> Seq<(char, Seq<Seq<bool>>)>
    decreases bs.len(),
{
    if bs.len() == 0 {
        Seq::empty()
    } else {
        expand_blocks(bs.drop_last()) + block_minos(bs.last())
    }
}

/// The blocks of the piece-list text `s`.
pub open spec fn text_blocks(s: Seq<char>) -> Seq<Seq<Seq<char>>> {
    blocks_of(split_lines(s))
}

/// A text has at most one label character.
pub proof fn lemma_label_unique(s: Seq<char>, a: char, b: char)
    requires
        is_label(s, a),
        is_label(s, b),
    ensures
        a == b,
{
    let i = choose|i: int| 0 <= i < s.len() && s[i] == a;
    assert(s[i] == b);
}

pub open spec fn blocks_view(bs: Vec<Vec<Vec<char>>>) -> Seq<Seq<Seq<char>>> {
    bs@.map_values(|b: Vec<Vec<char>>| lines_view(b))
}

/// Groups the lines into blocks, cutting at each line that holds a `-`.
pub fn blocks_of_lines(ls: &Vec<Vec<char>>) -> (r: Vec<Vec<Vec<char>>>)
    ensures
        blocks_view(r) == blocks_of(lines_view(*ls)),
{
    let ghost lv = lines_view(*ls);
    let mut done: Vec<Vec<Vec<char>>> = Vec::new();
    let mut cur: Vec<Vec<char>> = Vec::new();
    let mut k: usize = 0;
    proof {
        assert(lv.take(0) =~= Seq::<Seq<char>>::empty());
        assert(lines_view(cur) =~= Seq::<Seq<char>>::empty());
        assert(blocks_view(done) =~= Seq::<Seq<Seq<char>>>::empty());
        assert(blocks_view(done).push(lines_view(cur)) =~= seq![Seq::<Seq<char>>::empty()]);
    }
    while k < ls.len()
        invariant
            lv == lines_view(*ls),
            k <= ls@.len(),
            blocks_view(done).push(lines_view(cur)) == blocks_of(lv.take(k as int)),
        decreases ls@.len() - k,
    {
        let line = ls[k].clone();
        proof {
            assert(line@ =~= lv[k as int]);
            assert(lv.take(k + 1).drop_last() =~= lv.take(k as int));
            assert(lv.take(k + 1).last() == line@);
        }
        let ghost before = blocks_view(done).push(lines_view(cur));
        let mut has_dash = false;
        let mut j: usize = 0;
        while j < line.len()
            invariant
                j <= line@.len(),
                has_dash == line@.take(j as int).contains('-'),
            decreases line@.len() - j,
        {
            proof {
                assert(line@.take(j + 1) =~= line@.take(j as int).push(line@[j as int]));
                if line@.take(j as int).contains('-') {
                    let i = choose|i: int| 0 <= i < j && line@.take(j as int)[i] == '-';
                    assert(line@.take(j + 1)[i] == '-');
                }
                if line@[j as int] == '-' {
                    assert(line@.take(j + 1)[j as int] == '-');
                }
            }
            if line[j] == '-' {
                has_dash = true;
            }
            j += 1;
        }
        proof {
            assert(line@.take(j as int) =~= line@);
        }
        if has_dash {
            done.push(cur);
            cur = Vec::new();
            proof {
                assert(blocks_view(done) =~= before);
                assert(lines_view(cur) =~= Seq::<Seq<char>>::empty());
                assert(blocks_view(done).push(lines_view(cur)) =~= before.push(
                    Seq::<Seq<char>>::empty(),
                ));
            }
        } else {
            let ghost d = blocks_view(done);
            cur.push(line);
            proof {
                assert(blocks_view(done) == d);
                assert(lines_view(cur) =~= before.last().push(line@));
                assert(blocks_view(done).push(lines_view(cur)) =~= before.update(
                    before.len() - 1,
                    before.last().push(line@),
                ));
            }
        }
        k += 1;
    }
    proof {
        assert(lv.take(k as int) =~= lv);
    }
    done.push(cur);
    proof {
        assert(blocks_view(done) =~= blocks_of(lv));
    }
    done
}

/// Lines `start..` of `ls` joined with a newline between each two.
pub fn join_lines_from(ls: &Vec<Vec<char>>, start: usize) -> (r: Vec<char>)
    requires
        start <= ls@.len(),
    ensures
        r@ == join_lines(lines_view(*ls).subrange(start as int, ls@.len() as int)),
{
    let ghost lv = lines_view(*ls);
    let mut out: Vec<char> = Vec::new();
    let mut k: usize = start;
    proof {
        assert(lv.subrange(start as int, start as int) =~= Seq::<Seq<char>>::empty());
    }
    while k < ls.len()
        invariant
            lv == lines_view(*ls),
            start <= k <= ls@.len(),
            out@ == join_lines(lv.subrange(start as int, k as int)),
        decreases ls@.len() - k,
    {
        let ghost part = lv.subrange(start as int, k + 1);
        proof {
            assert(part.drop_last() =~= lv.subrange(start as int, k as int));
            assert(part.last() == ls@[k as int]@);
        }
        let ghost prefix = out@;
        if k > start {
            out.push('\n');
        }
        let line = &ls[k];
        let ghost mid = out@;
        let mut j: usize = 0;
        while j < line.len()
            invariant
                j <= line@.len(),
                out@ == mid + line@.take(j as int),
            decreases line@.len() - j,
        {
            out.push(line[j]);
            j += 1;
            proof {
                assert(out@ =~= mid + line@.take(j as int));
            }
        }
        proof {
            assert(line@.take(j as int) =~= line@);
            if k == start {
                assert(part.len() == 1);
                assert(part[0] == line@);
                assert(out@ =~= line@);
            } else {
                assert(mid == prefix.push('\n'));
            }
        }
        k += 1;
    }
    out
}

} // verus!
