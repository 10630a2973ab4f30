//! Row-major blocks of grid cells, and a cursor that walks one.

use crate::coord::Coord;
use vstd::prelude::*;

verus! {

/// The cells of row `y` in the columns `x0 ..= x1`, leftmost first; none when
/// `x0` is right of `x1`.
pub open spec fn row_cells(x0: int, x1: int, y: int) -> Seq<Coord<i16>> {
    Seq::new(
        if x1 >= x0 {
            (x1 - x0 + 1) as nat
        } else {
            0nat
        },
        |k: int| Coord { x: (x0 + k) as i16, y: y as i16 },
    )
}

/// The cells of the rows `y0 ..= y1` in the columns `x0 ..= x1`, row by row.
pub open spec fn block_cells(x0: int, x1: int, y0: int, y1: int) -> Seq<Coord<i16>>
    decreases y1 - y0 + 1,
{
    if y0 > y1 {
        Seq::empty()
    } else {
        row_cells(x0, x1, y0) + block_cells(x0, x1, y0 + 1, y1)
    }
}

/// A sequence of cells with every occurrence of `p` left out.
pub open spec fn without(s: Seq<Coord<i16>>, p: Coord<i16>) -> Seq<Coord<i16>>
    decreases s.len(),
{
    if s.len() == 0 {
        Seq::empty()
    } else if s[0] == p {
        without(s.drop_first(), p)
    } else {
        seq![s[0]] + without(s.drop_first(), p)
    }
}

/// A block holds as many cells as its width times its height.
pub proof fn lemma_block_len(x0: int, x1: int, y0: int, y1: int)
    requires
        x0 <= x1 + 1,
        y0 <= y1 + 1,
    ensures
        block_cells(x0, x1, y0, y1).len() == (x1 - x0 + 1) * (y1 - y0 + 1),
    decreases y1 - y0 + 1,
{
    if y0 > y1 {
        assert((x1 - x0 + 1) * (y1 - y0 + 1) == 0) by (nonlinear_arith)
            requires
                y1 - y0 + 1 == 0,
        ;
    } else {
        lemma_block_len(x0, x1, y0 + 1, y1);
        assert((x1 - x0 + 1) * (y1 - y0 + 1) == (x1 - x0 + 1) + (x1 - x0 + 1) * (y1 - (y0 + 1)
            + 1)) by (nonlinear_arith);
    }
}

/// The cell at position `i` of a block is the one in row `i / width` and
/// column `i % width`: the block is in row-major order.
pub proof fn lemma_block_index(x0: int, x1: int, y0: int, y1: int, i: int)
    requires
        x0 <= x1,
        y0 <= y1 + 1,
        0 <= i < (x1 - x0 + 1) * (y1 - y0 + 1),
    ensures
        i < block_cells(x0, x1, y0, y1).len(),
        block_cells(x0, x1, y0, y1)[i] == (Coord {
            x: (x0 + i % (x1 - x0 + 1)) as i16,
            y: (y0 + i / (x1 - x0 + 1)) as i16,
        }),
    decreases y1 - y0 + 1,
{
    let w = x1 - x0 + 1;
    lemma_block_len(x0, x1, y0, y1);
    if y0 > y1 {
        assert(w * (y1 - y0 + 1) == 0) by (nonlinear_arith)
            requires
                y1 - y0 + 1 == 0,
        ;
    } else if i < w {
        assert(i / w == 0 && i % w == i) by (nonlinear_arith)
            requires
                0 <= i < w,
        ;
    } else {
        assert(w * (y1 - y0 + 1) == w + w * (y1 - (y0 + 1) + 1)) by (nonlinear_arith);
        lemma_block_index(x0, x1, y0 + 1, y1, i - w);
        assert((i - w) / w == i / w - 1 && (i - w) % w == i % w) by (nonlinear_arith)
            requires
                w > 0,
                i >= w,
        ;
    }
}

/// Every cell of a block lies in the block's rows and columns.
pub proof fn lemma_block_bounds(x0: int, x1: int, y0: int, y1: int, i: int)
    requires
        -32768 <= x0,
        x1 <= 32767,
        -32768 <= y0,
        y1 <= 32767,
        0 <= i < block_cells(x0, x1, y0, y1).len(),
    ensures
        x0 <= block_cells(x0, x1, y0, y1)[i].x <= x1,
        y0 <= block_cells(x0, x1, y0, y1)[i].y <= y1,
    decreases y1 - y0 + 1,
{
    if y0 > y1 {
    } else if i < row_cells(x0, x1, y0).len() {
    } else {
        lemma_block_bounds(x0, x1, y0 + 1, y1, i - row_cells(x0, x1, y0).len());
    }
}

/// What is left after taking `p` out holds no `p`, and nothing that the
/// sequence did not hold.
pub proof fn lemma_without(s: Seq<Coord<i16>>, p: Coord<i16>, i: int)
    requires
        0 <= i < without(s, p).len(),
    ensures
        without(s, p)[i] != p,
        s.contains(without(s, p)[i]),
    decreases s.len(),
{
    if s.len() == 0 {
    } else if s[0] == p {
        lemma_without(s.drop_first(), p, i);
        let j = choose|j: int| 0 <= j < s.drop_first().len() && s.drop_first()[j] == without(
            s,
            p,
        )[i];
        assert(s[j + 1] == without(s, p)[i]);
    } else if i == 0 {
        assert(s[0] == without(s, p)[0]);
    } else {
        lemma_without(s.drop_first(), p, i - 1);
        let j = choose|j: int| 0 <= j < s.drop_first().len() && s.drop_first()[j] == without(
            s,
            p,
        )[i];
        assert(s[j + 1] == without(s, p)[i]);
    }
}

/// A cell within the rows and columns of a block is a cell of the block.
pub proof fn lemma_block_contains(x0: int, x1: int, y0: int, y1: int, c: Coord<i16>)
    requires
        x0 <= c.x <= x1,
        y0 <= c.y <= y1,
    ensures
        block_cells(x0, x1, y0, y1).contains(c),
    decreases y1 - y0 + 1,
{
    let first = row_cells(x0, x1, y0);
    let rest = block_cells(x0, x1, y0 + 1, y1);
    if c.y == y0 {
        assert(first[c.x - x0] == c);
        assert((first + rest)[c.x - x0] == c);
    } else {
        lemma_block_contains(x0, x1, y0 + 1, y1, c);
        let j = choose|j: int| 0 <= j < rest.len() && rest[j] == c;
        assert((first + rest)[first.len() + j] == c);
    }
}

/// Taking `p` out of a sequence leaves every other cell of it in.
pub proof fn lemma_without_keeps(s: Seq<Coord<i16>>, p: Coord<i16>, q: Coord<i16>)
    requires
        s.contains(q),
        q != p,
    ensures
        without(s, p).contains(q),
    decreases s.len(),
{
    let j = choose|j: int| 0 <= j < s.len() && s[j] == q;
    let rest = without(s.drop_first(), p);
    if j == 0 {
        assert(without(s, p)[0] == q);
    } else {
        assert(s.drop_first()[j - 1] == q);
        lemma_without_keeps(s.drop_first(), p, q);
        let k = choose|k: int| 0 <= k < rest.len() && rest[k] == q;
        if s[0] == p {
        } else {
            assert(without(s, p)[k + 1] == q);
        }
    }
}

/// A cursor over a block of cells in row-major order.
pub struct BlockCursor {
    x0: i32,
    x1: i32,
    y1: i32,
    x: i32,
    y: i32,
}

impl BlockCursor {
    /// The cursor stands on a cell of its block, or behind the last row.
    pub closed spec fn wf(self) -> bool {
        &&& -32768 <= self.x0 <= self.x1 <= 32767
        &&& -32768 <= self.y <= self.y1 + 1 <= 32768
        &&& self.x0 <= self.x <= self.x1
    }

    /// The cells that are still to come.
    pub closed spec fn view(self) -> Seq<Coord<i16>> {
        if self.y > self.y1 {
            Seq::empty()
        } else {
            row_cells(self.x as int, self.x1 as int, self.y as int) + block_cells(
                self.x0 as int,
                self.x1 as int,
                self.y + 1,
                self.y1 as int,
            )
        }
    }

    /// A cursor at the start of the block of columns `x0 ..= x1` and rows
    /// `y0 ..= y1`; the block is empty when either range is.
    pub fn new(x0: i32, x1: i32, y0: i32, y1: i32) -> (cursor: Self)
        requires
            -32768 <= x0,
            x1 <= 32767,
            -32768 <= y0,
            y1 <= 32767,
        ensures
            cursor.wf(),
            cursor@ == (if x0 <= x1 {
                block_cells(x0 as int, x1 as int, y0 as int, y1 as int)
            } else {
                Seq::empty()
            }),
    {
        if x0 > x1 || y0 > y1 {
            BlockCursor { x0: 0, x1: 0, y1: -1, x: 0, y: 0 }
        } else {
            BlockCursor { x0, x1, y1, x: x0, y: y0 }
        }
    }

    /// The next cell, or `None` behind the last.
    pub fn next(&mut self) -> (cell: Option<Coord<i16>>)
        requires
            old(self).wf(),
        ensures
            final(self).wf(),
            match cell {
                Some(c) => old(self)@.len() > 0 && c == old(self)@[0] && final(self)@ == old(
                    self,
                )@.drop_first(),
                None => old(self)@.len() == 0 && final(self)@.len() == 0,
            },
    {
        if self.y > self.y1 {
            return None;
        }
        let c = Coord { x: self.x as i16, y: self.y as i16 };
        if self.x >= self.x1 {
            self.x = self.x0;
            self.y = self.y + 1;
        } else {
            self.x = self.x + 1;
        }
        assert(self@ =~= old(self)@.drop_first());
        Some(c)
    }
}

} // verus!
