//! Rows of a measure as moments in time.

use super::writer::{lemma_offset, lemma_row_at, measure_of, offset_of, on_row, row_at};
use crate::model::rational::{
    is_lowest, lemma_lowest, lemma_lowest_fixed, lemma_lowest_of_same, lemma_lt_lowest, lowest,
    q_lt, q_same,
};
use vstd::arithmetic::div_mod::{lemma_fundamental_div_mod, lemma_fundamental_div_mod_converse};
use vstd::prelude::*;

verus! {

/// The beat of row `row` in measure `measure` of `rows` rows.
pub open spec fn moment(measure: int, row: int, rows: int) -> (int, int) {
    lowest((measure * rows + row) * 4, rows)
}

/// The row that a beat falls on is the row at its moment.
pub proof fn lemma_on_row_is_moment(q: (int, int), rows: int)
    requires
        is_lowest(q),
        q.0 >= 0,
        rows > 0,
        on_row(offset_of(q), rows),
    ensures
        q == moment(measure_of(q), row_at(offset_of(q), rows), rows),
        0 <= row_at(offset_of(q), rows) < rows,
{
    let (n, d) = q;
    let m = measure_of(q);
    let r = row_at(offset_of(q), rows);
    let (a, b) = offset_of(q);
    lemma_offset(q);
    lemma_row_at((a, b), rows);
    lemma_fundamental_div_mod(a * rows, b * 4);
    let o = n - 4 * m * d;
    assert(a * d == o * b);
    assert(a * rows == (b * 4) * r);
    assert(o * rows == 4 * r * d) by {
        assert((o * rows) * b == (4 * r * d) * b) by (nonlinear_arith)
            requires
                a * d == o * b,
                a * rows == (b * 4) * r,
        ;
        vstd::arithmetic::mul::lemma_mul_equality_converse(b, o * rows, 4 * r * d);
    }
    let x = (m * rows + r) * 4;
    assert(n * rows == x * d) by (nonlinear_arith)
        requires
            o == n - 4 * m * d,
            o * rows == 4 * r * d,
            x == (m * rows + r) * 4,
    ;
    assert(q_same(q, (x, rows)));
    lemma_lowest_of_same(q, (x, rows));
    lemma_lowest_fixed(q);
}

/// The beat at the moment of a row falls on that row.
pub proof fn lemma_moment_is_on_row(q: (int, int), m: int, r: int, rows: int)
    requires
        is_lowest(q),
        rows > 0,
        m >= 0,
        0 <= r < rows,
        q == moment(m, r, rows),
    ensures
        q.0 >= 0,
        measure_of(q) == m,
        on_row(offset_of(q), rows),
        row_at(offset_of(q), rows) == r,
{
    let (n, d) = q;
    let x = (m * rows + r) * 4;
    assert(x >= 0) by (nonlinear_arith)
        requires
            x == (m * rows + r) * 4,
            m >= 0,
            rows > 0,
            r >= 0,
    ;
    lemma_lowest(x, rows);
    assert(n * rows == x * d);
    assert(n >= 0);
    assert(4 * m * d <= n < 4 * (m + 1) * d) by (nonlinear_arith)
        requires
            n * rows == x * d,
            x == (m * rows + r) * 4,
            0 <= r < rows,
            d > 0,
    {
        assert(n * rows - (4 * m * d) * rows == 4 * r * d) by (nonlinear_arith)
            requires
                n * rows == x * d,
                x == (m * rows + r) * 4,
        ;
        assert(0 <= 4 * r * d < 4 * rows * d) by (nonlinear_arith)
            requires
                0 <= r < rows,
                d > 0,
        ;
        let o = n - 4 * m * d;
        assert(o * rows == n * rows - (4 * m * d) * rows) by (nonlinear_arith)
            requires
                o == n - 4 * m * d,
        ;
        assert(0 <= o) by (nonlinear_arith)
            requires
                0 <= o * rows,
                rows > 0,
        ;
        assert(o < 4 * d) by (nonlinear_arith)
            requires
                o * rows < 4 * rows * d,
                rows > 0,
        ;
        assert(4 * (m + 1) * d == 4 * m * d + 4 * d) by (nonlinear_arith);
    }
    let whole = n / d;
    lemma_fundamental_div_mod(n, d);
    vstd::arithmetic::div_mod::lemma_mod_bound(n, d);
    assert(4 * m <= whole < 4 * (m + 1)) by (nonlinear_arith)
        requires
            4 * m * d <= n < 4 * (m + 1) * d,
            n == d * whole + n % d,
            0 <= n % d < d,
            d > 0,
    ;
    assert(measure_of(q) == m);
    lemma_offset(q);
    let (a, b) = offset_of(q);
    let o = n - 4 * m * d;
    assert(a * d == o * b);
    assert(o * rows == 4 * r * d) by (nonlinear_arith)
        requires
            o == n - 4 * m * d,
            n * rows == x * d,
            x == (m * rows + r) * 4,
    ;
    assert(a * rows == r * (b * 4)) by {
        assert((a * rows) * d == (r * (b * 4)) * d) by (nonlinear_arith)
            requires
                a * d == o * b,
                o * rows == 4 * r * d,
        ;
        vstd::arithmetic::mul::lemma_mul_equality_converse(d, a * rows, r * (b * 4));
    }
    lemma_fundamental_div_mod_converse(a * rows, b * 4, r, 0);
}

/// Moments follow each other.
pub proof fn lemma_moments_ordered(m: int, r: int, s: int, rows: int)
    requires
        rows > 0,
    ensures
        is_lowest(moment(m, r, rows)),
        q_lt(moment(m, r, rows), moment(m, s, rows)) <==> r < s,
{
    let x = (m * rows + r) * 4;
    let y = (m * rows + s) * 4;
    lemma_lowest(x, rows);
    lemma_lowest(y, rows);
    let t = moment(m, s, rows);
    lemma_lt_lowest(x, rows, t);
    assert(t.0 * rows == y * t.1);
    assert((x * t.1 < y * t.1) == (x < y)) by (nonlinear_arith)
        requires
            t.1 > 0,
    ;
}

/// Behind the last row of a measure the next measure starts.
pub proof fn lemma_next_measure(m: int, rows: int, next: int)
    requires
        rows > 0,
        next > 0,
    ensures
        moment(m, rows, rows) == moment(m + 1, 0, next),
{
    let a = ((m * rows + rows) * 4, rows);
    let b = (((m + 1) * next + 0) * 4, next);
    assert(a.0 * b.1 == b.0 * a.1) by (nonlinear_arith)
        requires
            a.0 == (m * rows + rows) * 4,
            a.1 == rows,
            b.0 == ((m + 1) * next + 0) * 4,
            b.1 == next,
    ;
    lemma_lowest_of_same(a, b);
}

/// Where every beat of a measure falls on a row, none lies between two rows.
pub proof fn lemma_no_beat_between(q: (int, int), m: int, r: int, rows: int)
    requires
        is_lowest(q),
        q.0 >= 0,
        m >= 0,
        rows > 0,
        0 <= r < rows,
        measure_of(q) == m ==> on_row(offset_of(q), rows),
    ensures
        q_lt(q, moment(m, r + 1, rows)) <==> q_lt(q, moment(m, r, rows)) || q == moment(
            m,
            r,
            rows,
        ),
{
    let t = moment(m, r, rows);
    let u = moment(m, r + 1, rows);
    lemma_moments_ordered(m, r, r + 1, rows);
    lemma_moments_ordered(m, r + 1, r + 1, rows);
    crate::model::rational::law_order_is_total(q, t, u);
    crate::model::rational::law_order_is_total(q, u, t);
    if q_lt(q, u) && q_lt(t, q) {
        let (n, d) = q;
        lemma_lt_lowest((m * rows + r) * 4, rows, q);
        lemma_lt_lowest((m * rows + (r + 1)) * 4, rows, q);
        assert(4 * m * d <= n < 4 * (m + 1) * d) by (nonlinear_arith)
            requires
                ((m * rows + r) * 4) * d < n * rows,
                n * rows < ((m * rows + (r + 1)) * 4) * d,
                0 <= r < rows,
                d > 0,
        {
            assert(((m * rows + r) * 4) * d == (4 * m * d) * rows + 4 * r * d) by (nonlinear_arith);
            assert(((m * rows + (r + 1)) * 4) * d == (4 * m * d) * rows + 4 * (r + 1) * d)
                by (nonlinear_arith);
            assert(0 <= 4 * r * d) by (nonlinear_arith)
                requires
                    0 <= r,
                    d > 0,
            ;
            assert(4 * (r + 1) * d <= 4 * d * rows) by (nonlinear_arith)
                requires
                    r + 1 <= rows,
                    d > 0,
            ;
            assert((4 * m * d) * rows < n * rows);
            assert(4 * m * d < n) by (nonlinear_arith)
                requires
                    (4 * m * d) * rows < n * rows,
                    rows > 0,
            ;
            assert(n * rows < (4 * m * d + 4 * d) * rows) by (nonlinear_arith)
                requires
                    n * rows < (4 * m * d) * rows + 4 * (r + 1) * d,
                    4 * (r + 1) * d <= 4 * d * rows,
            ;
            assert(n < 4 * m * d + 4 * d) by (nonlinear_arith)
                requires
                    n * rows < (4 * m * d + 4 * d) * rows,
                    rows > 0,
            ;
            assert(4 * (m + 1) * d == 4 * m * d + 4 * d) by (nonlinear_arith);
        }
        let whole = n / d;
        lemma_fundamental_div_mod(n, d);
        vstd::arithmetic::div_mod::lemma_mod_bound(n, d);
        assert(4 * m <= whole < 4 * (m + 1)) by (nonlinear_arith)
            requires
                4 * m * d <= n < 4 * (m + 1) * d,
                n == d * whole + n % d,
                0 <= n % d < d,
                d > 0,
        ;
        lemma_on_row_is_moment(q, rows);
        let s = row_at(offset_of(q), rows);
        lemma_moments_ordered(m, r, s, rows);
        lemma_moments_ordered(m, s, r + 1, rows);
    }
}

} // verus!
