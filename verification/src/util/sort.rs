//! Stable sorting.

use vstd::prelude::*;

verus! {

/// Values with a strict order that a sort goes by. Values neither of which
/// precedes the other keep their places.
pub trait Ranked: Copy {
    /// Whether `self` must stand before `other`.
    spec fn precedes(self, other: Self) -> bool;

    /// Whether `self` must stand before `other`.
    fn is_before(&self, other: &Self) -> (b: bool)
        ensures
            b == self.precedes(*other),
    ;
}

/// `s` with `x` put in behind every value that `x` does not precede, counting
/// from the end.
pub open spec fn placed<T: Ranked>(s: Seq<T>, x: T) -> Seq<T>
    decreases s.len(),
{
    if s.len() == 0 || !x.precedes(s.last()) {
        s.push(x)
    } else {
        placed(s.drop_last(), x).push(s.last())
    }
}

/// `s` in order, with values of the same rank in their original order.
pub open spec fn stable_sorted<T: Ranked>(s: Seq<T>) -> Seq<T>
    decreases s.len(),
{
    if s.len() == 0 {
        s
    } else {
        placed(stable_sorted(s.drop_last()), s.last())
    }
}

/// Whether no value of `s` precedes one before it.
pub open spec fn in_order<T: Ranked>(s: Seq<T>) -> bool {
    forall|i: int, j: int| 0 <= i < j < s.len() ==> !(#[trigger] s[j]).precedes(#[trigger] s[i])
}

/// Whether not preceding is transitive and preceding is asymmetric on the
/// values of `s`.
pub open spec fn ranks_weakly<T: Ranked>(s: Seq<T>) -> bool {
    &&& forall|i: int, j: int|
        0 <= i < s.len() && 0 <= j < s.len() && (#[trigger] s[i]).precedes(#[trigger] s[j])
            ==> !s[j].precedes(s[i])
    &&& forall|i: int, j: int, k: int|
        0 <= i < s.len() && 0 <= j < s.len() && 0 <= k < s.len() && !(#[trigger] s[i]).precedes(
            #[trigger] s[j],
        ) && !s[j].precedes(#[trigger] s[k]) ==> !s[i].precedes(s[k])
}

pub proof fn lemma_placed_splits<T: Ranked>(s: Seq<T>, x: T, j: int)
    requires
        0 <= j <= s.len(),
        forall|i: int| j <= i < s.len() ==> x.precedes(#[trigger] s[i]),
        j > 0 ==> !x.precedes(s[j - 1]),
    ensures
        placed(s, x) == s.insert(j, x),
    decreases s.len(),
{
    if j == s.len() {
        assert(s.push(x) =~= s.insert(j, x));
    } else {
        assert(x.precedes(s[s.len() - 1]));
        lemma_placed_splits(s.drop_last(), x, j);
        assert(s.drop_last().insert(j, x).push(s.last()) =~= s.insert(j, x));
    }
}

proof fn lemma_placed_facts<T: Ranked>(s: Seq<T>, x: T)
    ensures
        placed(s, x).to_multiset() =~= s.to_multiset().insert(x),
        placed(s, x).len() == s.len() + 1,
        exists|j: int|
            0 <= j <= s.len() && #[trigger] s.insert(j, x) == placed(s, x) && (j > 0
                ==> !x.precedes(s[j - 1])) && (forall|i: int|
                j <= i < s.len() ==> x.precedes(#[trigger] s[i])),
    decreases s.len(),
{
    broadcast use vstd::seq_lib::group_to_multiset_ensures;

    if s.len() == 0 || !x.precedes(s.last()) {
        assert(s.insert(s.len() as int, x) =~= s.push(x));
    } else {
        lemma_placed_facts(s.drop_last(), x);
        let j = choose|j: int|
            0 <= j <= s.drop_last().len() && #[trigger] s.drop_last().insert(j, x) == placed(
                s.drop_last(),
                x,
            ) && (j > 0 ==> !x.precedes(s.drop_last()[j - 1])) && (forall|i: int|
                j <= i < s.drop_last().len() ==> x.precedes(#[trigger] s.drop_last()[i]));
        assert(s.insert(j, x) =~= s.drop_last().insert(j, x).push(s.last()));
        assert forall|i: int| j <= i < s.len() implies x.precedes(#[trigger] s[i]) by {
            if i < s.len() - 1 {
                assert(s.drop_last()[i] == s[i]);
            }
        }
        assert(s =~= s.drop_last().push(s.last()));
    }
}

/// Sorting keeps the values, each as often as it occurs.
pub proof fn law_sort_keeps_values<T: Ranked>(s: Seq<T>)
    ensures
        stable_sorted(s).to_multiset() =~= s.to_multiset(),
        stable_sorted(s).len() == s.len(),
    decreases s.len(),
{
    broadcast use vstd::seq_lib::group_to_multiset_ensures;

    if s.len() > 0 {
        law_sort_keeps_values(s.drop_last());
        lemma_placed_facts(stable_sorted(s.drop_last()), s.last());
        assert(s =~= s.drop_last().push(s.last()));
    }
}

/// Every value of the sorted sequence is one of the input's.
pub proof fn lemma_sorted_from<T: Ranked>(s: Seq<T>, i: int)
    requires
        0 <= i < s.len(),
    ensures
        stable_sorted(s).len() == s.len(),
        exists|k: int| 0 <= k < s.len() && #[trigger] s[k] == stable_sorted(s)[i],
{
    broadcast use vstd::seq_lib::group_to_multiset_ensures;

    law_sort_keeps_values(s);
    let x = stable_sorted(s)[i];
    assert(stable_sorted(s).contains(x));
    assert(stable_sorted(s).to_multiset().count(x) > 0);
    assert(s.contains(x));
}

/// The result is in order.
pub proof fn law_sort_orders<T: Ranked>(s: Seq<T>)
    requires
        ranks_weakly(s),
    ensures
        in_order(stable_sorted(s)),
    decreases s.len(),
{
    if s.len() > 0 {
        let p = s.drop_last();
        assert(ranks_weakly(p)) by {
            assert forall|i: int, j: int|
                0 <= i < p.len() && 0 <= j < p.len() && (#[trigger] p[i]).precedes(
                    #[trigger] p[j],
                ) implies !p[j].precedes(p[i]) by {
                assert(p[i] == s[i] && p[j] == s[j]);
            }
            assert forall|i: int, j: int, k: int|
                0 <= i < p.len() && 0 <= j < p.len() && 0 <= k < p.len()
                    && !(#[trigger] p[i]).precedes(#[trigger] p[j]) && !p[j].precedes(
                    #[trigger] p[k],
                ) implies !p[i].precedes(p[k]) by {
                assert(p[i] == s[i] && p[j] == s[j] && p[k] == s[k]);
            }
        }
        law_sort_orders(p);
        law_sort_keeps_values(p);
        let t = stable_sorted(p);
        let x = s.last();
        lemma_placed_facts(t, x);
        let j = choose|j: int|
            0 <= j <= t.len() && #[trigger] t.insert(j, x) == placed(t, x) && (j > 0
                ==> !x.precedes(t[j - 1])) && (forall|i: int|
                j <= i < t.len() ==> x.precedes(#[trigger] t[i]));
        let r = t.insert(j, x);
        assert forall|a: int, b: int| 0 <= a < b < r.len() implies !(#[trigger] r[b]).precedes(
            #[trigger] r[a],
        ) by {
            if a == j {
                // r[b] is t[b - 1], which x precedes.
                lemma_sorted_from(p, b - 1);
                let k = choose|k: int| 0 <= k < p.len() && #[trigger] p[k] == t[b - 1];
                assert(s[k] == t[b - 1] && s[s.len() - 1] == x);
                assert(x.precedes(t[b - 1]));
            } else if b == j {
                lemma_sorted_from(p, a);
                lemma_sorted_from(p, j - 1);
                let k = choose|k: int| 0 <= k < p.len() && #[trigger] p[k] == t[a];
                let m = choose|m: int| 0 <= m < p.len() && #[trigger] p[m] == t[j - 1];
                assert(s[k] == t[a] && s[m] == t[j - 1] && s[s.len() - 1] == x);
                assert(!t[j - 1].precedes(t[a])) by {
                    if a == j - 1 {
                        if t[a].precedes(t[a]) {
                            assert(s[k].precedes(s[k]));
                        }
                    }
                }
            }
        }
    }
}

/// A sequence that is in order already stays as it is.
pub proof fn law_sort_fixes_sorted<T: Ranked>(s: Seq<T>)
    requires
        in_order(s),
    ensures
        stable_sorted(s) == s,
    decreases s.len(),
{
    if s.len() > 0 {
        let p = s.drop_last();
        assert(in_order(p)) by {
            assert forall|i: int, j: int| 0 <= i < j < p.len() implies !(#[trigger] p[j]).precedes(
                #[trigger] p[i],
            ) by {
                assert(p[i] == s[i] && p[j] == s[j]);
            }
        }
        law_sort_fixes_sorted(p);
        if p.len() > 0 {
            assert(!s[s.len() - 1].precedes(s[p.len() - 1]));
        }
        assert(p.push(s.last()) =~= s);
    }
}

/// Sort, keeping values of the same rank in their order.
pub fn sort_stable<T: Ranked>(v: &Vec<T>) -> (out: Vec<T>)
    ensures
        out@ == stable_sorted(v@),
{
    let mut out: Vec<T> = Vec::new();
    let mut i: usize = 0;
    assert(v@.subrange(0, 0) =~= Seq::<T>::empty());
    while i < v.len()
        invariant
            i <= v@.len(),
            out@ == stable_sorted(v@.subrange(0, i as int)),
        decreases v@.len() - i,
    {
        let x: T = v[i];
        let mut j: usize = out.len();
        while j > 0 && x.is_before(&out[j - 1])
            invariant
                j <= out@.len(),
                forall|k: int| j <= k < out@.len() ==> x.precedes(#[trigger] out@[k]),
            decreases j,
        {
            j = j - 1;
        }
        proof {
            lemma_placed_splits(out@, x, j as int);
            let t = v@.subrange(0, i + 1);
            assert(t.drop_last() =~= v@.subrange(0, i as int));
            assert(t.last() == x);
        }
        out.insert(j, x);
        i = i + 1;
    }
    assert(v@.subrange(0, i as int) =~= v@);
    out
}

} // verus!
