//! Laws that relate the grid's traversals to one another and to the flat
//! offsets of its elements.
use vstd::arithmetic::div_mod::{
    lemma_fundamental_div_mod, lemma_fundamental_div_mod_converse, lemma_mod_bound,
};
use vstd::arithmetic::mul::lemma_mul_is_commutative;
use vstd::prelude::*;

use crate::model::{
    columns_joined, coords_of, flat_of, lemma_mul_within, lemma_stepped_len_exact, stepped,
    stepped_len, transposed, window,
};

verus! {

/// Turning a flat offset into coordinates and back gives the offset again,
/// for any positive column count.
pub proof fn lemma_flat_round_trip(columns: int, index: int)
    requires
        columns > 0,
        index >= 0,
    ensures
        flat_of(columns, coords_of(columns, index).0, coords_of(columns, index).1) == index,
{
    lemma_fundamental_div_mod(index, columns);
}

/// In a source of exactly `rows * columns` elements, every row `row < rows`
/// holds exactly the elements at the flat offsets
/// `row * columns .. row * columns + columns`.
pub proof fn lemma_row_is_exact<A>(s: Seq<A>, columns: nat, rows: nat, row: nat)
    requires
        s.len() == rows * columns,
        row < rows,
    ensures
        window(s, row * columns, columns) == s.subrange(
            (row * columns) as int,
            (row * columns + columns) as int,
        ),
        window(s, row * columns, columns).len() == columns,
{
    assert(row * columns + columns <= rows * columns) by (nonlinear_arith)
        requires
            row < rows,
    ;
}

/// A column `col < columns` holds one element for each row in which the
/// offset `flat_of(columns, col, row)` lies in the source, and that element
/// is the one at that offset.
pub proof fn lemma_col_one_per_row<A>(s: Seq<A>, columns: nat, col: nat)
    requires
        col < columns,
    ensures
        forall|row: nat|
            (row < stepped(s, col, columns).len()) == (flat_of(columns as int, col as int, row as int)
                < s.len()),
        forall|row: nat|
            row < stepped(s, col, columns).len() ==> #[trigger] stepped(s, col, columns)[row as int]
                == s[flat_of(columns as int, col as int, row as int)],
{
    assert forall|row: nat|
        (row < stepped(s, col, columns).len()) == (flat_of(columns as int, col as int, row as int)
            < s.len()) by {
        if col < s.len() {
            lemma_mul_within(row as int, columns as int, (s.len() - 1 - col) as int);
        } else {
            assert(columns * row >= 0) by (nonlinear_arith);
        }
    }
    assert forall|row: nat| row < stepped(s, col, columns).len() implies #[trigger] stepped(
        s,
        col,
        columns,
    )[row as int] == s[flat_of(columns as int, col as int, row as int)] by {
        lemma_mul_is_commutative(row as int, columns as int);
    }
}

/// The first `n` columns of a source of `rows` full rows, read one after
/// another: element `k` is the one in row `k % rows` of column `k / rows`.
proof fn lemma_columns_joined_rect<A>(s: Seq<A>, columns: nat, rows: nat, n: nat)
    requires
        columns > 0,
        rows > 0,
        s.len() == rows * columns,
        n <= columns,
    ensures
        columns_joined(s, columns, n) =~= Seq::new(
            n * rows,
            |k: int| s[(k % rows as int) * columns + k / rows as int],
        ),
    decreases n,
{
    if n > 0 {
        let m = (n - 1) as nat;
        lemma_columns_joined_rect(s, columns, rows, m);
        assert(m + (rows - 1) * columns < rows * columns) by (nonlinear_arith)
            requires
                m < columns,
                rows > 0,
        ;
        assert(m + rows * columns >= rows * columns);
        lemma_stepped_len_exact(s.len(), m, columns, rows);
        assert(n * rows == m * rows + rows) by (nonlinear_arith)
            requires
                n == m + 1,
        ;
        let joined = columns_joined(s, columns, m);
        let column = stepped(s, m, columns);
        assert forall|k: int| m * rows <= k < n * rows implies (joined + column)[k] == s[(k
            % rows as int) * columns + k / rows as int] by {
            let j = k - m * rows;
            assert(k == m * rows + j);
            lemma_fundamental_div_mod_converse(k, rows as int, m as int, j);
        }
    }
}

/// Reading a source of full rows column by column, and the result column by
/// column again with the former row count as its width, gives the source
/// back.
pub proof fn lemma_transpose_round_trip<A>(s: Seq<A>, columns: nat)
    requires
        columns > 0,
        s.len() % columns == 0,
    ensures
        transposed(transposed(s, columns), s.len() / columns) == s,
{
    let rows = s.len() / columns;
    lemma_fundamental_div_mod(s.len() as int, columns as int);
    assert(s.len() == rows * columns) by (nonlinear_arith)
        requires
            s.len() == columns * rows,
    ;
    if rows == 0 {
        assert(s.len() == 0) by (nonlinear_arith)
            requires
                s.len() == rows * columns,
                rows == 0,
        ;
        assert(columns_joined(transposed(s, columns), 0, 0) =~= s);
    } else {
        let t = transposed(s, columns);
        lemma_columns_joined_rect(s, columns, rows, columns);
        assert(t.len() == columns * rows);
        lemma_columns_joined_rect(t, rows, columns, rows);
        assert forall|k: int| 0 <= k < s.len() implies transposed(t, rows)[k] == s[k] by {
            let q = k / columns as int;
            let r = k % columns as int;
            lemma_fundamental_div_mod(k, columns as int);
            lemma_mod_bound(k, columns as int);
            assert(q < rows) by (nonlinear_arith)
                requires
                    k == columns * q + r,
                    0 <= r,
                    k < rows * columns,
                    columns > 0,
            ;
            let m = r * rows + q;
            assert(0 <= m < columns * rows) by (nonlinear_arith)
                requires
                    0 <= r < columns,
                    0 <= q < rows,
                    m == r * rows + q,
            ;
            lemma_fundamental_div_mod_converse(m, rows as int, r, q);
            assert(q * columns + r == k) by (nonlinear_arith)
                requires
                    k == columns * q + r,
            ;
        }
        assert(transposed(t, rows) =~= s);
    }
}

} // verus!
