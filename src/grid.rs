//! The grid adapter and its traversals.
use vstd::arithmetic::div_mod::{lemma_div_multiples_vanish, lemma_fundamental_div_mod};
use vstd::prelude::*;
use vstd::std_specs::iter::IteratorSpec;

use crate::bounds::{end_of, fits, start_of, Bound};
use crate::model::{
    bwd_anchor, clones_of, col_band, columns_joined, coords_of, flat_of, fwd_anchor,
    lemma_mul_within, lemma_stepped_len_exact, lemma_stepped_len_next, min_nat, stepped,
    stepped_len, transposed, window,
};

verus! {

/// A flat sequence of elements read as a grid of `columns` columns, in
/// row-major order.
pub struct Grid<T> {
    pub columns: usize,
    inner: Vec<T>,
}

impl<T> View for Grid<T> {
    type V = Seq<T>;

    /// The elements of the grid, in row-major order.
    closed spec fn view(&self) -> Seq<T> {
        self.inner@
    }
}

impl<T> Grid<T> {
    /// The column count that the grid was made with.
    pub closed spec fn width(&self) -> usize {
        self.columns
    }
}

impl<T> IntoIterator for Grid<T> {
    type Item = T;

    type IntoIter = std::vec::IntoIter<T>;

    /// The elements of the grid, in row-major order.
    fn into_iter(self) -> (it: std::vec::IntoIter<T>)
        ensures
            it.remaining() == self@,
    {
        self.inner.into_iter()
    }
}

/// Attaches a column count to a source of elements.
pub trait IntoGrid<T>: Sized {
    /// The elements that the source holds, in order.
    spec fn grid_elements(&self) -> Seq<T>;

    /// A grid of `columns` columns over the elements of the source.
    fn grid(self, columns: usize) -> (g: Grid<T>)
        ensures
            g.width() == columns,
            g@ == self.grid_elements(),
    ;
}

impl<T> IntoGrid<T> for Vec<T> {
    open spec fn grid_elements(&self) -> Seq<T> {
        self@
    }

    fn grid(self, columns: usize) -> (g: Grid<T>) {
        Grid { columns, inner: self }
    }
}

/// A range of integers as a source: the integers it holds, in increasing
/// order.
impl IntoGrid<usize> for core::ops::Range<usize> {
    open spec fn grid_elements(&self) -> Seq<usize> {
        let len: nat = if self.start <= self.end {
            (self.end - self.start) as nat
        } else {
            0
        };
        Seq::new(len, |k: int| (self.start + k) as usize)
    }

    fn grid(self, columns: usize) -> (g: Grid<usize>) {
        let mut inner: Vec<usize> = Vec::new();
        let mut i: usize = self.start;
        while i < self.end
            invariant
                self.start <= i,
                self.start <= self.end ==> i <= self.end,
                self.end < self.start ==> i == self.start,
                inner@ =~= Seq::new((i - self.start) as nat, |k: int| (self.start + k) as usize),
            decreases self.end - i,
        {
            inner.push(i);
            i = i + 1;
        }
        assert(inner@ =~= self.grid_elements());
        Grid { columns, inner }
    }
}

/// The elements of `v` at offsets `start`, `start + step`, ... in order.
fn take_stepped<T>(v: Vec<T>, start: usize, step: usize) -> (r: Vec<T>)
    requires
        step > 0,
    ensures
        r@ == stepped(v@, start as nat, step as nat),
{
    let ghost s = v@;
    let len = v.len();
    let mut r: Vec<T> = Vec::new();
    let mut i: usize = 0;
    for x in it: v.into_iter()
        invariant
            it.seq() == s,
            s.len() == len,
            i == it.index(),
            i <= len,
            step > 0,
            r@.len() == stepped_len(i as nat, start as nat, step as nat),
            forall|k: int| 0 <= k < r@.len() ==> r@[k] == s[start + k * step],
    {
        proof {
            lemma_stepped_len_next(i as nat, start as nat, step as nat);
        }
        if i >= start && (i - start) % step == 0 {
            r.push(x);
        }
        i = i + 1;
    }
    assert(r@ =~= stepped(s, start as nat, step as nat));
    r
}

/// The elements of `v` at offsets `start .. start + count`, as far as `v`
/// reaches.
fn take_window<T>(v: Vec<T>, start: usize, count: usize) -> (r: Vec<T>)
    ensures
        r@ == window(v@, start as nat, count as nat),
{
    let ghost s = v@;
    let mut v = v;
    let len = v.len();
    let lo = if start <= len {
        start
    } else {
        len
    };
    let hi = if count <= len - lo {
        lo + count
    } else {
        len
    };
    v.truncate(hi);
    let r = v.split_off(lo);
    assert(r@ =~= window(s, start as nat, count as nat));
    r
}

/// The flat offset `columns * row + col`, or `len` where that lies beyond it.
fn flat_or_end(columns: usize, col: usize, row: usize, len: usize) -> (r: usize)
    ensures
        r == min_nat((columns * row + col) as nat, len as nat),
{
    if col > len {
        return len;
    }
    let rem = len - col;
    if columns == 0 {
        return col;
    }
    proof {
        lemma_mul_within(row as int, columns as int, rem as int);
    }
    if row <= rem / columns {
        columns * row + col
    } else {
        len
    }
}

/// The elements of `v` whose offset modulo `columns` lies in `lo .. hi`.
fn take_band<T>(v: Vec<T>, columns: usize, lo: usize, hi: usize) -> (r: Vec<T>)
    requires
        columns > 0,
    ensures
        r@ == col_band(v@, columns as nat, lo as nat, hi as nat),
{
    let ghost s = v@;
    let len = v.len();
    let mut r: Vec<T> = Vec::new();
    let mut i: usize = 0;
    for x in it: v.into_iter()
        invariant
            it.seq() == s,
            s.len() == len,
            i == it.index(),
            i <= len,
            columns > 0,
            r@ == col_band(s.subrange(0, i as int), columns as nat, lo as nat, hi as nat),
    {
        assert(s.subrange(0, i + 1).drop_last() =~= s.subrange(0, i as int));
        let col = i % columns;
        if lo <= col && col < hi {
            r.push(x);
        }
        i = i + 1;
    }
    assert(s.subrange(0, len as int) =~= s);
    r
}

impl<T: Clone> Grid<T> {
    /// The elements read column by column: column `0` from top to bottom,
    /// then column `1`, and so on; a clone of each element.
    pub fn iter_transpose(self) -> (r: Vec<T>)
        ensures
            clones_of(transposed(self@, self.width() as nat), r@),
    {
        let ghost s = self@;
        let columns = self.columns;
        let len = self.inner.len();
        let mut r: Vec<T> = Vec::new();
        for col in 0..columns
            invariant
                s == self.inner@,
                len == s.len(),
                columns == self.columns,
                clones_of(columns_joined(s, columns as nat, col as nat), r@),
        {
            let ghost before = r@;
            let ghost joined = columns_joined(s, columns as nat, col as nat);
            let mut pos: usize = col;
            let ghost mut k: nat = 0;
            while pos < len
                invariant
                    s == self.inner@,
                    len == s.len(),
                    columns == self.columns,
                    col < columns,
                    pos <= col + k * columns,
                    pos < len ==> pos == col + k * columns,
                    k > 0 ==> col + (k - 1) * columns < len,
                    clones_of(joined, before),
                    r@.len() == before.len() + k,
                    forall|j: int| 0 <= j < before.len() ==> r@[j] == before[j],
                    forall|j: int|
                        0 <= j < k ==> cloned(s[col + j * columns], #[trigger] r@[before.len() + j]),
                decreases len - pos,
            {
                let x = self.inner[pos].clone();
                r.push(x);
                proof {
                    assert(col + (k + 1) * columns == col + k * columns + columns) by (nonlinear_arith);
                    k = k + 1;
                }
                if len - pos <= columns {
                    pos = len;
                } else {
                    pos = pos + columns;
                }
            }
            proof {
                lemma_stepped_len_exact(len as nat, col as nat, columns as nat, k);
                let column = stepped(s, col as nat, columns as nat);
                let next = joined + column;
                assert(columns_joined(s, columns as nat, (col + 1) as nat) == next);
                assert forall|i: int| 0 <= i < next.len() implies cloned(next[i], #[trigger] r@[i]) by {
                    assert(column.len() == k);
                    assert(joined.len() == before.len());
                    if i < joined.len() {
                        assert(r@[i] == before[i]);
                        assert(next[i] == joined[i]);
                    } else {
                        let j = i - joined.len();
                        assert(next[i] == column[j]);
                        assert(cloned(s[col + j * columns], r@[before.len() + j]));
                    }
                }
            }
        }
        r
    }

    /// The grid read column by column, as a grid of `len / columns` columns
    /// (the former row count); a clone of each element. The length of the
    /// source must be a multiple of `columns`.
    pub fn into_transpose(self) -> (g: Grid<T>)
        requires
            self.width() > 0,
            self@.len() % (self.width() as nat) == 0,
        ensures
            g.width() == self@.len() / (self.width() as nat),
            clones_of(transposed(self@, self.width() as nat), g@),
    {
        let rows = self.inner.len() / self.columns;
        Grid { columns: rows, inner: self.iter_transpose() }
    }
}

impl<T> Grid<T> {
    /// The element at `(col, row)`.
    pub fn get(&self, col: usize, row: usize) -> (r: &T)
        requires
            col < self.width(),
            flat_of(self.width() as int, col as int, row as int) < self@.len(),
        ensures
            *r == self@[flat_of(self.width() as int, col as int, row as int)],
    {
        proof {
            assert(self.inner.len() == self.inner@.len());
        }
        let index = self.index_to_flat(col, row);
        &self.inner[index]
    }

    /// The element at `(col, row)`, to be changed in place.
    pub fn get_mut(&mut self, col: usize, row: usize) -> (r: &mut T)
        requires
            col < old(self).width(),
            flat_of(old(self).width() as int, col as int, row as int) < old(self)@.len(),
        ensures
            *r == old(self)@[flat_of(old(self).width() as int, col as int, row as int)],
            final(self).width() == old(self).width(),
            final(self)@ == old(self)@.update(
                flat_of(old(self).width() as int, col as int, row as int),
                *final(r),
            ),
    {
        proof {
            assert(self.inner.len() == self.inner@.len());
        }
        let index = self.index_to_flat(col, row);
        &mut self.inner[index]
    }

    /// Resolves `bounds` to the interval `start .. end` that it denotes, where
    /// `max` stands for an unbounded end.
    fn extract_range(&self, bounds: (Bound, Bound), max: usize) -> (r: (usize, usize))
        requires
            start_of(bounds.0) <= usize::MAX,
            end_of(bounds.1, max as int) <= max,
        ensures
            r.0 == start_of(bounds.0),
            r.1 == end_of(bounds.1, max as int),
    {
        let start = match bounds.0 {
            Bound::Included(p) => p,
            Bound::Excluded(p) => p + 1,
            Bound::Unbounded => 0,
        };
        let end = match bounds.1 {
            Bound::Included(p) => p + 1,
            Bound::Excluded(p) => p,
            Bound::Unbounded => max,
        };
        (start, end)
    }

    /// The rows `start .. end` that `bounds` denotes, as a grid of the same
    /// width: `(end - start) * columns` elements from offset
    /// `start * columns`, fewer where the source ends first. An unbounded end
    /// reaches to the end of the source.
    pub fn iter_rows(self, bounds: (Bound, Bound)) -> (g: Grid<T>)
        requires
            fits(bounds, usize::MAX as int),
        ensures
            g.width() == self.width(),
            g@ == window(
                self@,
                (start_of(bounds.0) * self.width()) as nat,
                ((end_of(bounds.1, usize::MAX as int) - start_of(bounds.0)) * self.width()) as nat,
            ),
    {
        let (start, end) = self.extract_range(bounds, usize::MAX);
        let columns = self.columns;
        let len = self.inner.len();
        let skip = flat_or_end(columns, 0, start, len);
        let take = flat_or_end(columns, 0, end - start, len);
        proof {
            assert(start * columns == columns * start) by (nonlinear_arith);
            assert((end - start) * columns == columns * (end - start)) by (nonlinear_arith);
        }
        Grid { columns, inner: take_window(self.inner, skip, take) }
    }

    /// The columns `start .. end` that `bounds` denotes, as a grid of
    /// `end - start` columns: the elements whose offset modulo `columns`
    /// lies in that interval, in order.
    pub fn iter_cols(self, bounds: (Bound, Bound)) -> (g: Grid<T>)
        requires
            self.width() > 0,
            fits(bounds, self.width() as int),
        ensures
            g.width() == end_of(bounds.1, self.width() as int) - start_of(bounds.0),
            g@ == col_band(
                self@,
                self.width() as nat,
                start_of(bounds.0) as nat,
                end_of(bounds.1, self.width() as int) as nat,
            ),
    {
        let (start, end) = self.extract_range(bounds, self.columns);
        let columns = self.columns;
        Grid { columns: end - start, inner: take_band(self.inner, columns, start, end) }
    }

    /// The sub-rectangle of the columns `col_bounds` and the rows
    /// `row_bounds`: the rows are cut out first, then the columns.
    pub fn iter_sub(self, col_bounds: (Bound, Bound), row_bounds: (Bound, Bound)) -> (g: Grid<T>)
        requires
            self.width() > 0,
            fits(col_bounds, self.width() as int),
            fits(row_bounds, usize::MAX as int),
        ensures
            g.width() == end_of(col_bounds.1, self.width() as int) - start_of(col_bounds.0),
            g@ == col_band(
                window(
                    self@,
                    (start_of(row_bounds.0) * self.width()) as nat,
                    ((end_of(row_bounds.1, usize::MAX as int) - start_of(row_bounds.0))
                        * self.width()) as nat,
                ),
                self.width() as nat,
                start_of(col_bounds.0) as nat,
                end_of(col_bounds.1, self.width() as int) as nat,
            ),
    {
        self.iter_rows(row_bounds).iter_cols(col_bounds)
    }

    /// The elements of row `row`: `columns` consecutive elements from offset
    /// `row * columns`, fewer where the source ends first.
    pub fn iter_row(self, row: usize) -> (r: Vec<T>)
        ensures
            r@ == window(self@, (row * self.width()) as nat, self.width() as nat),
    {
        let len = self.inner.len();
        let start = flat_or_end(self.columns, 0, row, len);
        proof {
            assert(row * self.width() == self.width() * row) by (nonlinear_arith);
        }
        take_window(self.inner, start, self.columns)
    }

    /// The elements of column `col`: every `columns`-th element from offset
    /// `col`, one for each row present in the source.
    pub fn iter_col(self, col: usize) -> (r: Vec<T>)
        requires
            col < self.width(),
        ensures
            r@ == stepped(self@, col as nat, self.width() as nat),
    {
        take_stepped(self.inner, col, self.columns)
    }

    /// The diagonal from the top left to the bottom right through
    /// `(col, row)`: every `columns + 1`-th element from the point where it
    /// meets the top row or the left column, up to the end of the source.
    pub fn iter_diag_fwd(self, col: usize, row: usize) -> (r: Vec<T>)
        requires
            col < self.width(),
            self.width() < usize::MAX,
        ensures
            r@ == stepped(
                self@,
                fwd_anchor(self.width() as nat, col as nat, row as nat),
                (self.width() + 1) as nat,
            ),
    {
        let len = self.inner.len();
        let skip = if col < row {
            flat_or_end(self.columns, 0, row - col, len)
        } else {
            col - row
        };
        take_stepped(self.inner, skip, self.columns + 1)
    }

    /// The diagonal from the top right to the bottom left through
    /// `(col, row)`: every `columns - 1`-th element from its anchor (see
    /// `bwd_anchor`), up to the end of the source.
    pub fn iter_diag_bwd(self, col: usize, row: usize) -> (r: Vec<T>)
        requires
            col < self.width(),
            self.width() >= 2,
            col > row ==> row + col + 1 >= self.width(),
        ensures
            r@ == stepped(
                self@,
                bwd_anchor(self.width() as nat, col as nat, row as nat),
                (self.width() - 1) as nat,
            ),
    {
        let len = self.inner.len();
        let skip = if col > row {
            flat_or_end(self.columns, self.columns - 1, row - (self.columns - 1 - col), len)
        } else {
            row - col
        };
        take_stepped(self.inner, skip, self.columns - 1)
    }

    /// The coordinates `(col, row)` of a flat offset.
    pub fn index_from_flat(&self, index: usize) -> (r: (usize, usize))
        requires
            self.width() != 0,
        ensures
            (r.0 as int, r.1 as int) == coords_of(self.width() as int, index as int),
    {
        let c = index % self.columns;
        proof {
            lemma_fundamental_div_mod(index as int, self.columns as int);
            lemma_div_multiples_vanish(index as int / self.columns as int, self.columns as int);
        }
        (c, (index - c) / self.columns)
    }

    /// The flat offset of the coordinates `(col, row)`.
    pub fn index_to_flat(&self, col: usize, row: usize) -> (r: usize)
        requires
            flat_of(self.width() as int, col as int, row as int) <= usize::MAX,
        ensures
            r == flat_of(self.width() as int, col as int, row as int),
    {
        self.columns * row + col
    }
}

} // verus!
