//! A note grid written as text reads back as the same grid.

use super::decimal::lemma_trimmed_fixed;
use super::notes::{grid_of, rows_of};
use super::writer::{grid_text, rows_text};
use crate::util::chars::{is_space, split, trimmed};
use vstd::prelude::*;

verus! {

/// Whether `c` does not occur in `s`.
pub open spec fn lacks(s: Seq<char>, c: char) -> bool {
    forall|i: int| 0 <= i < s.len() ==> #[trigger] s[i] != c
}

/// Whether a row can be told from its surroundings: it is not empty, and holds
/// neither white space nor a comma.
pub open spec fn plain_row(row: Seq<char>) -> bool {
    &&& row.len() > 0
    &&& forall|i: int| 0 <= i < row.len() ==> !is_space(#[trigger] row[i]) && row[i] != ','
}

/// Whether every measure of a grid has rows, and plain ones only.
pub open spec fn plain_grid(grid: Seq<Seq<Seq<char>>>) -> bool {
    &&& grid.len() > 0
    &&& forall|m: int|
        0 <= m < grid.len() ==> plain_rows(#[trigger] grid[m])
}

pub open spec fn plain_rows(rows: Seq<Seq<char>>) -> bool {
    forall|r: int| 0 <= r < rows.len() ==> plain_row(#[trigger] rows[r])
}

pub proof fn lemma_split_nonempty(s: Seq<char>, sep: char)
    ensures
        split(s, sep).len() > 0,
    decreases s.len(),
{
    if s.len() > 0 {
        lemma_split_nonempty(s.drop_last(), sep);
    }
}

/// Text without a separator joins the last piece.
pub proof fn lemma_split_joins(a: Seq<char>, b: Seq<char>, sep: char)
    requires
        lacks(b, sep),
    ensures
        split(a + b, sep) == split(a, sep).drop_last().push(split(a, sep).last() + b),
    decreases b.len(),
{
    lemma_split_nonempty(a, sep);
    let pieces = split(a, sep);
    if b.len() == 0 {
        assert(a + b =~= a);
        assert(pieces.last() + b =~= pieces.last());
        assert(pieces.drop_last().push(pieces.last()) =~= pieces);
    } else {
        let c = b.last();
        let s = a + b;
        assert(lacks(b.drop_last(), sep)) by {
            assert forall|i: int| 0 <= i < b.drop_last().len() implies #[trigger] b.drop_last()[i]
                != sep by {
                assert(b.drop_last()[i] == b[i]);
            }
        }
        lemma_split_joins(a, b.drop_last(), sep);
        assert(s.drop_last() =~= a + b.drop_last());
        assert(s.last() == c);
        assert(b[b.len() - 1] != sep);
        let before = split(s.drop_last(), sep);
        assert(before.drop_last() =~= pieces.drop_last());
        assert(before.last() == pieces.last() + b.drop_last());
        assert((pieces.last() + b.drop_last()).push(c) =~= pieces.last() + b);
    }
}

/// Behind a separator a new piece starts.
pub proof fn lemma_split_step(a: Seq<char>, b: Seq<char>, sep: char)
    requires
        lacks(b, sep),
    ensures
        split(a + seq![sep] + b, sep) == split(a, sep).push(b),
{
    let head = a + seq![sep];
    assert(head.drop_last() =~= a);
    assert(head.last() == sep);
    assert(split(head, sep) == split(a, sep).push(Seq::empty()));
    lemma_split_joins(head, b, sep);
    assert(split(a, sep).push(Seq::empty()).drop_last() =~= split(a, sep));
    assert(Seq::<char>::empty() + b =~= b);
}

/// Text without a separator is one piece.
pub proof fn lemma_split_one(b: Seq<char>, sep: char)
    requires
        lacks(b, sep),
    ensures
        split(b, sep) == seq![b],
{
    let none = Seq::<char>::empty();
    lemma_split_joins(none, b, sep);
    assert(none + b =~= b);
    assert(split(none, sep) == seq![none]);
    assert(seq![none].drop_last().push(none + b) =~= seq![b]);
}

/// The rows of a measure hold no comma.
proof fn lemma_rows_lack_comma(rows: Seq<Seq<char>>)
    requires
        plain_rows(rows),
    ensures
        lacks(rows_text(rows), ','),
    decreases rows.len(),
{
    if rows.len() > 0 {
        assert(plain_rows(rows.drop_last())) by {
            assert forall|r: int| 0 <= r < rows.drop_last().len() implies plain_row(
                #[trigger] rows.drop_last()[r],
            ) by {
                assert(rows.drop_last()[r] == rows[r]);
            }
        }
        lemma_rows_lack_comma(rows.drop_last());
        let before = rows_text(rows.drop_last());
        let last = rows.last();
        assert(plain_row(rows[rows.len() - 1]));
        let all = rows_text(rows);
        assert forall|i: int| 0 <= i < all.len() implies #[trigger] all[i] != ',' by {
            if i < before.len() {
                assert(all[i] == before[i]);
            } else if i < before.len() + last.len() {
                assert(all[i] == last[i - before.len()]);
            } else {
                assert(all[i] == '\n');
            }
        }
    }
}

/// The lines of a measure are its rows, one empty line behind them, and
/// whatever stands before them.
proof fn lemma_lines(head: Seq<char>, rows: Seq<Seq<char>>)
    requires
        plain_rows(rows),
        split(head, '\n').last() == Seq::<char>::empty(),
    ensures
        split(head + rows_text(rows), '\n') == split(head, '\n').drop_last() + rows.push(
            Seq::empty(),
        ),
    decreases rows.len(),
{
    lemma_split_nonempty(head, '\n');
    let first = split(head, '\n').drop_last();
    if rows.len() == 0 {
        assert(head + rows_text(rows) =~= head);
        assert(split(head, '\n') =~= first + rows.push(Seq::empty()));
    } else {
        let init = rows.drop_last();
        let row = rows.last();
        assert(plain_rows(init)) by {
            assert forall|r: int| 0 <= r < init.len() implies plain_row(#[trigger] init[r]) by {
                assert(init[r] == rows[r]);
            }
        }
        lemma_lines(head, init);
        assert(plain_row(rows[rows.len() - 1]));
        assert(lacks(row, '\n')) by {
            assert forall|i: int| 0 <= i < row.len() implies #[trigger] row[i] != '\n' by {
                assert(!is_space(row[i]));
            }
        }
        let before = head + rows_text(init);
        lemma_split_joins(before, row, '\n');
        let mid = split(before + row, '\n');
        assert(split(before, '\n').last() == Seq::<char>::empty());
        assert(Seq::<char>::empty() + row =~= row);
        assert(mid == split(before, '\n').drop_last().push(row));
        let none = Seq::<char>::empty();
        assert(lacks(none, '\n'));
        lemma_split_step(before + row, none, '\n');
        assert(before + row + seq!['\n'] + none =~= head + rows_text(rows));
        assert(split(before, '\n').drop_last() =~= first + init);
        assert(mid.push(none) =~= first + rows.push(none));
    }
}

proof fn lemma_no_row(lines: Seq<Seq<char>>, line: Seq<char>)
    requires
        line.len() == 0,
    ensures
        rows_of(lines.push(line)) == rows_of(lines),
{
    assert(lines.push(line).drop_last() =~= lines);
    assert(trimmed(line).len() == 0);
}

proof fn lemma_plain_lines(head: Seq<Seq<char>>, rows: Seq<Seq<char>>)
    requires
        plain_rows(rows),
        rows_of(head).len() == 0,
    ensures
        rows_of(head + rows) == rows,
    decreases rows.len(),
{
    if rows.len() == 0 {
        assert(head + rows =~= head);
        assert(rows_of(head) =~= rows);
    } else {
        let init = rows.drop_last();
        assert(plain_rows(init)) by {
            assert forall|r: int| 0 <= r < init.len() implies plain_row(#[trigger] init[r]) by {
                assert(init[r] == rows[r]);
            }
        }
        lemma_plain_lines(head, init);
        let all = head + rows;
        assert(all.drop_last() =~= head + init);
        let row = rows[rows.len() - 1];
        assert(plain_row(row));
        assert(!is_space(row[0]) && !is_space(row[row.len() - 1]));
        lemma_trimmed_fixed(row);
        assert(init.push(row) =~= rows);
    }
}

/// The rows of a measure read back, with or without an empty line before them.
pub proof fn lemma_measure_back(rows: Seq<Seq<char>>, led: bool)
    requires
        plain_rows(rows),
    ensures
        ({
            let head: Seq<char> = if led {
                seq!['\n']
            } else {
                Seq::empty()
            };
            rows_of(split(head + rows_text(rows), '\n')) == rows
        }),
{
    let none = Seq::<char>::empty();
    let head: Seq<char> = if led {
        seq!['\n']
    } else {
        none
    };
    let lines = split(head, '\n');
    if led {
        assert(lacks(none, '\n'));
        lemma_split_step(none, none, '\n');
        assert(none + seq!['\n'] + none =~= head);
        assert(split(none, '\n') == seq![none]);
        assert(lines == seq![none].push(none));
        assert(lines.drop_last() =~= seq![none]);
        lemma_no_row(Seq::empty(), none);
        assert(Seq::<Seq<char>>::empty().push(none) =~= seq![none]);
    } else {
        assert(lines == seq![none]);
        assert(lines.drop_last() =~= Seq::empty());
    }
    let first = lines.drop_last();
    assert(rows_of(first).len() == 0);
    lemma_lines(head, rows);
    lemma_plain_lines(first, rows);
    lemma_no_row(first + rows, none);
    assert(first + rows.push(none) =~= (first + rows).push(none));
}

/// The text of measure `m`, up to the comma behind it.
spec fn measure_text(grid: Seq<Seq<Seq<char>>>, m: int, led: bool) -> Seq<char> {
    (if m > 0 || led {
        seq!['\n']
    } else {
        Seq::<char>::empty()
    }) + rows_text(grid[m])
}

proof fn lemma_measure_lacks_comma(grid: Seq<Seq<Seq<char>>>, m: int, led: bool)
    requires
        plain_grid(grid),
        0 <= m < grid.len(),
    ensures
        lacks(measure_text(grid, m, led), ','),
{
    lemma_rows_lack_comma(grid[m]);
    let t = measure_text(grid, m, led);
    let r = rows_text(grid[m]);
    assert forall|i: int| 0 <= i < t.len() implies #[trigger] t[i] != ',' by {
        let k = t.len() - r.len();
        if i >= k {
            assert(t[i] == r[i - k]);
        }
    }
}

proof fn lemma_measures(grid: Seq<Seq<Seq<char>>>, led: bool, n: int)
    requires
        plain_grid(grid),
        0 < n <= grid.len(),
    ensures
        ({
            let head: Seq<char> = if led {
                seq!['\n']
            } else {
                Seq::empty()
            };
            split(head + grid_text(grid.subrange(0, n)), ',') == Seq::new(
                n as nat,
                |m: int| measure_text(grid, m, led),
            )
        }),
    decreases n,
{
    let head: Seq<char> = if led {
        seq!['\n']
    } else {
        Seq::empty()
    };
    let now = grid.subrange(0, n);
    let all = Seq::new(n as nat, |m: int| measure_text(grid, m, led));
    let last = measure_text(grid, n - 1, led);
    lemma_measure_lacks_comma(grid, n - 1, led);
    assert(now.last() == grid[n - 1]);
    if n == 1 {
        assert(now.drop_last() =~= Seq::empty());
        assert(grid_text(now.drop_last()) =~= Seq::empty());
        assert(head + grid_text(now) =~= last);
        lemma_split_one(last, ',');
        assert(all =~= seq![last]);
    } else {
        lemma_measures(grid, led, n - 1);
        assert(now.drop_last() =~= grid.subrange(0, n - 1));
        let before = head + grid_text(grid.subrange(0, n - 1));
        lemma_split_step(before, last, ',');
        assert(head + grid_text(now) =~= before + seq![','] + last);
        assert(all =~= Seq::new((n - 1) as nat, |m: int| measure_text(grid, m, led)).push(last));
    }
}

/// A grid of plain rows reads back from its text, with or without a line break
/// before it.
pub proof fn law_grid_text_round_trip(grid: Seq<Seq<Seq<char>>>, led: bool)
    requires
        plain_grid(grid),
    ensures
        ({
            let head: Seq<char> = if led {
                seq!['\n']
            } else {
                Seq::empty()
            };
            grid_of(head + grid_text(grid)) == grid
        }),
{
    let head: Seq<char> = if led {
        seq!['\n']
    } else {
        Seq::empty()
    };
    let n = grid.len() as int;
    lemma_measures(grid, led, n);
    assert(grid.subrange(0, n) =~= grid);
    let back = grid_of(head + grid_text(grid));
    assert forall|m: int| 0 <= m < n implies #[trigger] back[m] == grid[m] by {
        lemma_measure_back(grid[m], m > 0 || led);
    }
    assert(back =~= grid);
}

} // verus!
