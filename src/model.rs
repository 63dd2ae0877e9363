//! Mathematical descriptions of the grid's traversals, over sequences.
use vstd::arithmetic::div_mod::*;
use vstd::prelude::*;

verus! {

/// The flat offset of the coordinates `(col, row)` in a grid of `columns`
/// columns, stored row by row.
pub open spec fn flat_of(columns: int, col: int, row: int) -> int {
    columns * row + col
}

/// The coordinates `(col, row)` of the flat offset `index` in a grid of
/// `columns` columns.
pub open spec fn coords_of(columns: int, index: int) -> (int, int)
    recommends
        columns > 0,
{
    (index % columns, index / columns)
}

/// The smaller of `a` and `b`.
pub open spec fn min_nat(a: nat, b: nat) -> nat {
    if a <= b {
        a
    } else {
        b
    }
}

/// The elements at offsets `start .. start + count` that `s` holds: what
/// skipping `start` elements and then taking `count` yields.
pub open spec fn window<A>(s: Seq<A>, start: nat, count: nat) -> Seq<A> {
    s.subrange(min_nat(start, s.len()) as int, min_nat(start + count, s.len()) as int)
}

/// The elements of `s` whose column, their offset modulo `columns`, lies in
/// `lo .. hi`, in order.
pub open spec fn col_band<A>(s: Seq<A>, columns: nat, lo: nat, hi: nat) -> Seq<A>
    decreases s.len(),
{
    if s.len() == 0 {
        Seq::empty()
    } else {
        let kept = col_band(s.drop_last(), columns, lo, hi);
        let col = (s.len() - 1) as nat % columns;
        if lo <= col < hi {
            kept.push(s.last())
        } else {
            kept
        }
    }
}

/// How many offsets `start + k * step` lie below `len`.
pub open spec fn stepped_len(len: nat, start: nat, step: nat) -> nat
    recommends
        step > 0,
{
    if start < len {
        ((len - 1 - start) as nat / step + 1) as nat
    } else {
        0
    }
}

/// The elements at offsets `start`, `start + step`, `start + 2 * step`, ...
/// that `s` holds: what skipping `start` elements and then taking every
/// `step`-th one yields.
pub open spec fn stepped<A>(s: Seq<A>, start: nat, step: nat) -> Seq<A>
    recommends
        step > 0,
{
    Seq::new(stepped_len(s.len(), start, step), |k: int| s[start + k * step])
}

/// `row` multiples of a positive `c` stay within `rem` exactly when `row` is at
/// most `rem / c`.
pub proof fn lemma_mul_within(row: int, c: int, rem: int)
    requires
        c > 0,
        row >= 0,
        rem >= 0,
    ensures
        (row <= rem / c) == (c * row <= rem),
{
    lemma_fundamental_div_mod(rem, c);
    lemma_mod_bound(rem, c);
    let q = rem / c;
    if row <= q {
        assert(c * row <= c * q) by (nonlinear_arith)
            requires
                c > 0,
                row <= q,
        ;
    } else {
        assert(c * row >= c * q + c) by (nonlinear_arith)
            requires
                c > 0,
                row >= q + 1,
        ;
    }
}

/// Where the diagonal from the top left to the bottom right through
/// `(col, row)` meets the top row or the left column.
pub open spec fn fwd_anchor(columns: nat, col: nat, row: nat) -> nat {
    if col < row {
        columns * (row - col) as nat
    } else {
        (col - row) as nat
    }
}

/// Where the backward diagonal through `(col, row)` starts: on the right
/// column when `col > row`, else at column `row - col` of the top row.
pub open spec fn bwd_anchor(columns: nat, col: nat, row: nat) -> nat
    recommends
        columns >= 1,
        col > row ==> row + col + 1 >= columns,
{
    if col > row {
        (columns * (row + col + 1 - columns) + (columns - 1)) as nat
    } else {
        (row - col) as nat
    }
}

/// The columns `0 .. n` of a grid of `columns` columns over `s`, read one after
/// another.
pub open spec fn columns_joined<A>(s: Seq<A>, columns: nat, n: nat) -> Seq<A>
    decreases n,
{
    if n == 0 {
        Seq::empty()
    } else {
        columns_joined(s, columns, (n - 1) as nat) + stepped(s, (n - 1) as nat, columns)
    }
}

/// The elements of `s` read column by column instead of row by row.
pub open spec fn transposed<A>(s: Seq<A>, columns: nat) -> Seq<A> {
    columns_joined(s, columns, columns)
}

/// `b` holds, in order, a clone of each element of `a`.
pub open spec fn clones_of<A: Clone>(a: Seq<A>, b: Seq<A>) -> bool {
    &&& b.len() == a.len()
    &&& forall|k: int| 0 <= k < a.len() ==> cloned(a[k], #[trigger] b[k])
}

/// The offsets `start + j * step` for `j < k` lie below `len`, and the next one
/// does not: then `k` is how many there are.
pub proof fn lemma_stepped_len_exact(len: nat, start: nat, step: nat, k: nat)
    requires
        step > 0,
        k > 0 ==> start + (k - 1) * step < len,
        start + k * step >= len,
    ensures
        stepped_len(len, start, step) == k,
{
    if start < len {
        let d = (len - 1 - start) as int;
        assert(k > 0) by (nonlinear_arith)
            requires
                start < len,
                start + k * step >= len,
                k == 0 ==> k * step == 0,
        ;
        let r = d - (k - 1) * step;
        assert(d == (k - 1) * step + r);
        assert(r < step) by (nonlinear_arith)
            requires
                r == d - (k - 1) * step,
                d == len - 1 - start,
                start + k * step >= len,
        ;
        lemma_fundamental_div_mod_converse(d, step as int, k - 1, r);
    } else {
        assert(k == 0) by (nonlinear_arith)
            requires
                k > 0 ==> start + (k - 1) * step < len,
                start >= len,
                step > 0,
        ;
    }
}

/// Extending the source by the element at offset `i` adds that element to
/// the stepped sequence exactly when `i` is one of its offsets.
pub proof fn lemma_stepped_len_next(i: nat, start: nat, step: nat)
    requires
        step > 0,
    ensures
        i >= start && (i - start) % (step as int) == 0 ==> {
            &&& stepped_len(i + 1, start, step) == stepped_len(i, start, step) + 1
            &&& start + stepped_len(i, start, step) * step == i
        },
        !(i >= start && (i - start) % (step as int) == 0) ==> stepped_len(i + 1, start, step)
            == stepped_len(i, start, step),
{
    if i > start {
        let d = (i - start) as int;
        let q = (d - 1) / step as int;
        let r = (d - 1) % step as int;
        lemma_fundamental_div_mod(d - 1, step as int);
        lemma_mod_bound(d - 1, step as int);
        if r == step - 1 {
            assert(d == (q + 1) * step + 0) by (nonlinear_arith)
                requires
                    d - 1 == step * q + r,
                    r == step - 1,
            ;
            lemma_fundamental_div_mod_converse(d, step as int, q + 1, 0);
        } else {
            assert(d == q * step + (r + 1)) by (nonlinear_arith)
                requires
                    d - 1 == step * q + r,
            ;
            lemma_fundamental_div_mod_converse(d, step as int, q, r + 1);
        }
    } else if i == start {
        lemma_small_mod(0, step);
        lemma_div_of0(step as int);
    }
}

} // verus!
