//! The mathematical model of a candidate list: a strictly increasing
//! sequence of values, together with the elimination operation and the
//! facts about it that the cell, grid and solver proofs rely on.

use vstd::prelude::*;

verus! {

/// A candidate list is kept strictly increasing, so it represents a set:
/// no value occurs twice and the representation of a set is unique.
pub open spec fn strictly_sorted(s: Seq<usize>) -> bool {
    forall|i: int, j: int| 0 <= i < j < s.len() ==> s[i] < s[j]
}

/// A well-formed candidate list: at least one value left, strictly
/// increasing.
pub open spec fn wf_candidates(s: Seq<usize>) -> bool {
    s.len() >= 1 && strictly_sorted(s)
}

/// Every candidate lies in the admissible range `1..=max`.
pub open spec fn all_in_range(s: Seq<usize>, max: int) -> bool {
    forall|i: int| 0 <= i < s.len() ==> 1 <= #[trigger] s[i] <= max
}

/// The full candidate range of a fresh cell: `1..=count`.
pub open spec fn full_range(count: usize) -> Seq<usize> {
    Seq::new(count as nat, |i: int| (i + 1) as usize)
}

/// The candidate list `s` with every member of `taken` struck out,
/// order otherwise unchanged.
pub open spec fn without_values(s: Seq<usize>, taken: Seq<usize>) -> Seq<usize>
    decreases s.len(),
{
    if s.len() == 0 {
        Seq::empty()
    } else if taken.contains(s.last()) {
        without_values(s.drop_last(), taken)
    } else {
        without_values(s.drop_last(), taken).push(s.last())
    }
}

/// The candidate list `s` with the single value `value` struck out.
pub open spec fn without_value(s: Seq<usize>, value: usize) -> Seq<usize> {
    without_values(s, seq![value])
}

/// Elimination shrinks the list, keeps exactly the untaken members, and
/// preserves strict ordering; striking out nothing leaves the list as it was.
pub proof fn lemma_without_values_props(s: Seq<usize>, taken: Seq<usize>)
    ensures
        without_values(s, taken).len() <= s.len(),
        forall|v: usize|
            #[trigger] without_values(s, taken).contains(v) <==> s.contains(v)
                && !taken.contains(v),
        strictly_sorted(s) ==> strictly_sorted(without_values(s, taken)),
        (forall|v: usize| s.contains(v) ==> !taken.contains(v)) ==> without_values(s, taken) == s,
    decreases s.len(),
{
    let w = without_values(s, taken);
    if s.len() == 0 {
        assert(s =~= Seq::<usize>::empty());
        assert(w.len() == 0);
        assert forall|v: usize|
            #[trigger] w.contains(v) <==> s.contains(v) && !taken.contains(v) by {
            assert(!w.contains(v));
            assert(!s.contains(v));
        }
        assert(w =~= s);
    } else {
        let t = s.drop_last();
        let x = s.last();
        lemma_without_values_props(t, taken);
        let wt = without_values(t, taken);
        assert(s =~= t.push(x));
        assert(s[s.len() - 1] == x);
        assert(s.contains(x));
        assert forall|v: usize| #[trigger] s.contains(v) implies t.contains(v) || v == x by {
            let i = choose|i: int| 0 <= i < s.len() && s[i] == v;
            if i < s.len() - 1 {
                assert(t[i] == v);
                assert(t.contains(v));
            }
        }
        assert forall|v: usize| #[trigger] t.contains(v) implies s.contains(v) by {
            let i = choose|i: int| 0 <= i < t.len() && t[i] == v;
            assert(s[i] == v);
        }
        if strictly_sorted(s) {
            assert forall|i: int, j: int| 0 <= i < j < t.len() implies t[i] < t[j] by {
                assert(s[i] == t[i] && s[j] == t[j]);
            }
            assert(strictly_sorted(t));
        }
        if taken.contains(x) {
            assert(w == wt);
            assert forall|v: usize|
                #[trigger] w.contains(v) <==> s.contains(v) && !taken.contains(v) by {
                if s.contains(v) && !taken.contains(v) {
                    assert(v != x);
                    assert(t.contains(v));
                }
            }
        } else {
            assert(w == wt.push(x));
            assert(w[w.len() - 1] == x);
            assert(w.contains(x));
            assert forall|v: usize| #[trigger] w.contains(v) implies wt.contains(v) || v == x by {
                let i = choose|i: int| 0 <= i < w.len() && w[i] == v;
                if i < w.len() - 1 {
                    assert(wt[i] == v);
                    assert(wt.contains(v));
                }
            }
            assert forall|v: usize| #[trigger] wt.contains(v) implies w.contains(v) by {
                let i = choose|i: int| 0 <= i < wt.len() && wt[i] == v;
                assert(w[i] == v);
            }
            assert forall|v: usize|
                #[trigger] w.contains(v) <==> s.contains(v) && !taken.contains(v) by {
                if v == x {
                    assert(w.contains(x));
                } else {
                    if w.contains(v) {
                        assert(wt.contains(v));
                    }
                    if s.contains(v) && !taken.contains(v) {
                        assert(t.contains(v));
                        assert(wt.contains(v));
                    }
                }
            }
            if strictly_sorted(s) {
                // every member of `wt` comes from `t`, and `x` is above all of `t`
                assert forall|i: int, j: int| 0 <= i < j < w.len() implies w[i] < w[j] by {
                    if j == w.len() - 1 {
                        assert(w[j] == x);
                        assert(wt.contains(w[i]));
                        assert(t.contains(w[i]));
                        let k = choose|k: int| 0 <= k < t.len() && t[k] == w[i];
                        assert(s[k] == w[i]);
                        assert(s[k] < s[s.len() - 1]);
                    } else {
                        assert(w[i] == wt[i] && w[j] == wt[j]);
                    }
                }
            }
            if forall|v: usize| s.contains(v) ==> !taken.contains(v) {
                assert forall|v: usize| t.contains(v) implies !taken.contains(v) by {
                    assert(s.contains(v));
                }
                assert(wt == t);
                assert(w =~= s);
            }
        }
    }
}

/// Striking one value out of a strictly increasing list removes exactly one
/// entry when the value is present, and nothing otherwise.
pub proof fn lemma_without_value_len(s: Seq<usize>, value: usize)
    requires
        strictly_sorted(s),
    ensures
        s.contains(value) ==> without_value(s, value).len() == s.len() - 1,
        !s.contains(value) ==> without_value(s, value) == s,
    decreases s.len(),
{
    let taken = seq![value];
    assert(taken[0] == value);
    assert forall|v: usize| #[trigger] taken.contains(v) implies v == value by {
        let i = choose|i: int| 0 <= i < taken.len() && taken[i] == v;
        assert(i == 0);
    }
    lemma_without_values_props(s, taken);
    if !s.contains(value) {
        assert forall|v: usize| s.contains(v) implies !taken.contains(v) by {}
    } else {
        let t = s.drop_last();
        let x = s.last();
        assert(s[s.len() - 1] == x);
        assert forall|i: int, j: int| 0 <= i < j < t.len() implies t[i] < t[j] by {
            assert(s[i] == t[i] && s[j] == t[j]);
        }
        lemma_without_value_len(t, value);
        if x == value {
            assert(taken.contains(x));
            // everything in `t` sits strictly below `x == value`
            assert forall|v: usize| t.contains(v) implies !taken.contains(v) by {
                let i = choose|i: int| 0 <= i < t.len() && t[i] == v;
                assert(s[i] == v);
                assert(s[i] < s[s.len() - 1]);
            }
            lemma_without_values_props(t, taken);
            assert(without_values(t, taken) == t);
        } else {
            assert(!taken.contains(x));
            let i = choose|i: int| 0 <= i < s.len() && s[i] == value;
            assert(i < s.len() - 1);
            assert(t[i] == value);
            assert(t.contains(value));
        }
    }
}

/// Linear scan for a value in a candidate list.
pub fn list_contains(values: &Vec<usize>, target: usize) -> (found: bool)
    ensures
        found == values@.contains(target),
{
    let mut k: usize = 0;
    while k < values.len()
        invariant
            k <= values@.len(),
            forall|i: int| 0 <= i < k ==> values@[i] != target,
        decreases values@.len() - k,
    {
        if values[k] == target {
            return true;
        }
        k += 1;
    }
    false
}

} // verus!
