//! Rows and freeze-ends, folded by tick and put in order.

use super::writer::{interleaved, tick_masks, TickMask};
use crate::model::has_panel;
use crate::util::bits::lemma_bits_ops;
use crate::util::sort::{
    in_order, law_sort_keeps_values, law_sort_orders, ranks_weakly, stable_sorted, Ranked,
};
use vstd::prelude::*;

verus! {

/// Whether ticks go up from each value to the next.
pub open spec fn ascending(s: Seq<TickMask>) -> bool {
    forall|i: int, j: int| 0 <= i < j < s.len() ==> (#[trigger] s[i]).tick < (#[trigger] s[j]).tick
}

/// Whether some value at `tick` has bit `p`.
pub open spec fn has_bit_at(s: Seq<TickMask>, tick: i32, p: u8) -> bool {
    exists|i: int| 0 <= i < s.len() && (#[trigger] s[i]).tick == tick && has_panel(s[i].mask, p)
}

/// Whether some value is at `tick`.
pub open spec fn has_tick(s: Seq<TickMask>, tick: i32) -> bool {
    exists|i: int| 0 <= i < s.len() && (#[trigger] s[i]).tick == tick
}

/// Whether `m` folds `s`: one value for each tick, with the bits of all.
pub open spec fn folds(m: Seq<TickMask>, s: Seq<TickMask>) -> bool {
    &&& ascending(m)
    &&& forall|t: i32| #[trigger] has_tick(m, t) <==> has_tick(s, t)
    &&& forall|t: i32, p: u8| p < 8 ==> (#[trigger] has_bit_at(m, t, p) <==> has_bit_at(s, t, p))
}

proof fn lemma_push_tick(s: Seq<TickMask>, x: TickMask, t: i32)
    ensures
        has_tick(s.push(x), t) <==> has_tick(s, t) || x.tick == t,
{
    let all = s.push(x);
    if has_tick(s, t) {
        let i = choose|i: int| 0 <= i < s.len() && (#[trigger] s[i]).tick == t;
        assert(all[i].tick == t);
    }
    if x.tick == t {
        assert(all[s.len() as int].tick == t);
    }
    if has_tick(all, t) {
        let i = choose|i: int| 0 <= i < all.len() && (#[trigger] all[i]).tick == t;
        if i < s.len() {
            assert(s[i].tick == t);
        }
    }
}

proof fn lemma_push_bit(s: Seq<TickMask>, x: TickMask, t: i32, p: u8)
    ensures
        has_bit_at(s.push(x), t, p) <==> has_bit_at(s, t, p) || (x.tick == t && has_panel(
            x.mask,
            p,
        )),
{
    let all = s.push(x);
    if has_bit_at(s, t, p) {
        let i = choose|i: int|
            0 <= i < s.len() && (#[trigger] s[i]).tick == t && has_panel(s[i].mask, p);
        assert(all[i].tick == t && has_panel(all[i].mask, p));
    }
    if x.tick == t && has_panel(x.mask, p) {
        let k = s.len() as int;
        assert(all[k].tick == t && has_panel(all[k].mask, p));
    }
    if has_bit_at(all, t, p) {
        let i = choose|i: int|
            0 <= i < all.len() && (#[trigger] all[i]).tick == t && has_panel(all[i].mask, p);
        if i < s.len() {
            assert(s[i].tick == t && has_panel(s[i].mask, p));
        }
    }
}

/// Folding values that are in order.
pub proof fn lemma_tick_masks(s: Seq<TickMask>)
    requires
        in_order(s),
    ensures
        folds(tick_masks(s), s),
        s.len() > 0 ==> tick_masks(s).len() > 0 && tick_masks(s).last().tick == s.last().tick,
    decreases s.len(),
{
    let m = tick_masks(s);
    if s.len() > 0 {
        let init = s.drop_last();
        let x = s.last();
        assert(in_order(init)) by {
            assert forall|i: int, j: int| 0 <= i < j < init.len() implies !(#[trigger] init[j]).precedes(
                #[trigger] init[i],
            ) by {
                assert(init[i] == s[i] && init[j] == s[j]);
            }
        }
        lemma_tick_masks(init);
        let before = tick_masks(init);
        assert(s =~= init.push(x));
        if before.len() > 0 && before.last().tick == x.tick {
            let y = before.last();
            let merged = TickMask { tick: x.tick, mask: y.mask | x.mask };
            let rest = before.drop_last();
            assert(m == rest.push(merged));
            assert(before =~= rest.push(y));
            assert forall|t: i32| #[trigger] has_tick(m, t) <==> has_tick(s, t) by {
                lemma_push_tick(rest, merged, t);
                lemma_push_tick(rest, y, t);
                lemma_push_tick(init, x, t);
                assert(has_tick(before, t) <==> has_tick(init, t));
            }
            assert forall|t: i32, p: u8| p < 8 implies (#[trigger] has_bit_at(m, t, p)
                <==> has_bit_at(s, t, p)) by {
                lemma_push_bit(rest, merged, t, p);
                lemma_push_bit(rest, y, t, p);
                lemma_push_bit(init, x, t, p);
                lemma_bits_ops(y.mask, x.mask, p);
                assert(has_bit_at(before, t, p) <==> has_bit_at(init, t, p));
            }
            assert forall|i: int, j: int| 0 <= i < j < m.len() implies (#[trigger] m[i]).tick < (
            #[trigger] m[j]).tick by {
                assert(before[i].tick < before[j].tick);
            }
        } else {
            assert(m == before.push(x));
            assert forall|t: i32| #[trigger] has_tick(m, t) <==> has_tick(s, t) by {
                lemma_push_tick(before, x, t);
                lemma_push_tick(init, x, t);
                assert(has_tick(before, t) <==> has_tick(init, t));
            }
            assert forall|t: i32, p: u8| p < 8 implies (#[trigger] has_bit_at(m, t, p)
                <==> has_bit_at(s, t, p)) by {
                lemma_push_bit(before, x, t, p);
                lemma_push_bit(init, x, t, p);
                assert(has_bit_at(before, t, p) <==> has_bit_at(init, t, p));
            }
            assert forall|i: int, j: int| 0 <= i < j < m.len() implies (#[trigger] m[i]).tick < (
            #[trigger] m[j]).tick by {
                if j == before.len() {
                    // The last tick so far is that of the value before x.
                    assert(init.len() > 0) by {
                        if init.len() == 0 {
                            assert(before.len() == 0);
                        }
                    }
                    assert(!s[s.len() - 1].precedes(s[s.len() - 2]));
                    assert(before.last().tick == init.last().tick);
                    if i < before.len() - 1 {
                        assert(before[i].tick < before[before.len() - 1].tick);
                    }
                } else {
                    assert(before[i].tick < before[j].tick);
                }
            }
        }
    } else {
        assert(m =~= s);
    }
}

/// Sorting and folding gives one value for each tick, with the bits of all.
pub proof fn lemma_sorted_masks(s: Seq<TickMask>)
    ensures
        folds(tick_masks(stable_sorted(s)), s),
{
    broadcast use vstd::seq_lib::group_to_multiset_ensures;

    let t = stable_sorted(s);
    assert(ranks_weakly(s));
    law_sort_orders(s);
    law_sort_keeps_values(s);
    lemma_tick_masks(t);
    let m = tick_masks(t);
    assert forall|x: TickMask| #[trigger] t.contains(x) <==> s.contains(x) by {
        assert(t.to_multiset().count(x) == s.to_multiset().count(x));
    }
    assert forall|k: i32| #[trigger] has_tick(m, k) <==> has_tick(s, k) by {
        assert(has_tick(m, k) <==> has_tick(t, k));
        if has_tick(t, k) {
            let i = choose|i: int| 0 <= i < t.len() && (#[trigger] t[i]).tick == k;
            assert(t.contains(t[i]));
            assert(s.contains(t[i]));
            let j = choose|j: int| 0 <= j < s.len() && s[j] == t[i];
            assert(s[j].tick == k);
        }
        if has_tick(s, k) {
            let i = choose|i: int| 0 <= i < s.len() && (#[trigger] s[i]).tick == k;
            assert(s.contains(s[i]));
            assert(t.contains(s[i]));
            let j = choose|j: int| 0 <= j < t.len() && t[j] == s[i];
            assert(t[j].tick == k);
        }
    }
    assert forall|k: i32, p: u8| p < 8 implies (#[trigger] has_bit_at(m, k, p) <==> has_bit_at(
        s,
        k,
        p,
    )) by {
        assert(has_bit_at(m, k, p) <==> has_bit_at(t, k, p));
        if has_bit_at(t, k, p) {
            let i = choose|i: int|
                0 <= i < t.len() && (#[trigger] t[i]).tick == k && has_panel(t[i].mask, p);
            assert(t.contains(t[i]));
            assert(s.contains(t[i]));
            let j = choose|j: int| 0 <= j < s.len() && s[j] == t[i];
            assert(s[j].tick == k && has_panel(s[j].mask, p));
        }
        if has_bit_at(s, k, p) {
            let i = choose|i: int|
                0 <= i < s.len() && (#[trigger] s[i]).tick == k && has_panel(s[i].mask, p);
            assert(s.contains(s[i]));
            assert(t.contains(s[i]));
            let j = choose|j: int| 0 <= j < t.len() && t[j] == s[i];
            assert(t[j].tick == k && has_panel(t[j].mask, p));
        }
    }
}

/// Whether the next entry is a row.
pub open spec fn row_next(rows: Seq<TickMask>, ends: Seq<TickMask>, ri: int, fi: int) -> bool {
    ri < rows.len() && (fi >= ends.len() || rows[ri].tick <= ends[fi].tick)
}

/// How many rows and freeze-ends the first `k` entries hold.
pub open spec fn cursor(rows: Seq<TickMask>, ends: Seq<TickMask>, k: nat) -> (int, int)
    decreases k,
{
    if k == 0 {
        (0, 0)
    } else {
        let (ri, fi) = cursor(rows, ends, (k - 1) as nat);
        if row_next(rows, ends, ri, fi) {
            (ri + 1, fi)
        } else {
            (ri, fi + 1)
        }
    }
}

/// The entry at a cursor.
pub open spec fn entry_at(rows: Seq<TickMask>, ends: Seq<TickMask>, ri: int, fi: int) -> TickMask {
    if row_next(rows, ends, ri, fi) {
        rows[ri]
    } else {
        TickMask { tick: ends[fi].tick, mask: 0 }
    }
}

/// The cursor moves by one, within its bounds.
pub proof fn lemma_cursor(rows: Seq<TickMask>, ends: Seq<TickMask>, k: nat)
    requires
        k <= rows.len() + ends.len(),
    ensures
        ({
            let (ri, fi) = cursor(rows, ends, k);
            &&& ri + fi == k
            &&& 0 <= ri <= rows.len()
            &&& 0 <= fi <= ends.len()
        }),
    decreases k,
{
    if k > 0 {
        lemma_cursor(rows, ends, (k - 1) as nat);
    }
}

proof fn lemma_interleaved_from(rows: Seq<TickMask>, ends: Seq<TickMask>, k: nat, j: nat)
    requires
        k + j < rows.len() + ends.len(),
    ensures
        ({
            let (ri, fi) = cursor(rows, ends, k);
            let (rj, fj) = cursor(rows, ends, k + j);
            let rest = interleaved(rows, ends, ri, fi);
            &&& rest.len() == rows.len() - ri + ends.len() - fi
            &&& rest[j as int] == entry_at(rows, ends, rj, fj)
        }),
    decreases rows.len() + ends.len() - k,
{
    let (ri, fi) = cursor(rows, ends, k);
    lemma_cursor(rows, ends, k);
    let (rn, fne) = cursor(rows, ends, k + 1);
    lemma_cursor(rows, ends, k + 1);
    assert(cursor(rows, ends, k + 1) == (if row_next(rows, ends, ri, fi) {
        (ri + 1, fi)
    } else {
        (ri, fi + 1)
    }));
    let rest = interleaved(rows, ends, ri, fi);
    let tail = interleaved(rows, ends, rn, fne);
    assert(rest == seq![entry_at(rows, ends, ri, fi)] + tail);
    if k + 1 < rows.len() + ends.len() {
        lemma_interleaved_from(rows, ends, k + 1, if j > 0 { (j - 1) as nat } else { 0 });
    } else {
        assert(tail.len() == 0);
    }
}

/// The entries of rows and freeze-ends, one by one.
pub proof fn lemma_interleaved(rows: Seq<TickMask>, ends: Seq<TickMask>, k: nat)
    requires
        k < rows.len() + ends.len(),
    ensures
        interleaved(rows, ends, 0, 0).len() == rows.len() + ends.len(),
        ({
            let (ri, fi) = cursor(rows, ends, k);
            interleaved(rows, ends, 0, 0)[k as int] == entry_at(rows, ends, ri, fi)
        }),
{
    lemma_interleaved_from(rows, ends, 0, k);
}

} // verus!
