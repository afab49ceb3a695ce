//! Counting how often each element occurs, keeping the order of first occurrence.
use vstd::prelude::*;

verus! {

broadcast use vstd::seq_lib::group_to_multiset_ensures;

/// The elements of `s`, each once, in the order in which they first occur.
pub open spec fn distinct_in_order<A>(s: Seq<A>) -> Seq<A>
    decreases s.len(),
{
    if s.len() == 0 {
        s
    } else {
        let d = distinct_in_order(s.drop_last());
        if d.contains(s.last()) {
            d
        } else {
            d.push(s.last())
        }
    }
}

/// Each distinct element of `s`, in order of first occurrence, with how often it occurs.
pub open spec fn tally<A>(s: Seq<A>) -> Seq<(A, nat)> {
    distinct_in_order(s).map_values(|k: A| (k, s.to_multiset().count(k)))
}

/// The sum of the counts.
pub open spec fn total<A>(t: Seq<(A, nat)>) -> nat
    decreases t.len(),
{
    if t.len() == 0 {
        0
    } else {
        total(t.drop_last()) + t.last().1
    }
}

pub proof fn lemma_distinct_no_duplicates<A>(s: Seq<A>)
    ensures
        distinct_in_order(s).no_duplicates(),
        forall|x: A| distinct_in_order(s).contains(x) <==> s.contains(x),
    decreases s.len(),
{
    if s.len() > 0 {
        let s0 = s.drop_last();
        lemma_distinct_no_duplicates(s0);
        assert forall|x: A| s.contains(x) <==> (s0.contains(x) || x == s.last()) by {
            if s0.contains(x) {
                let k = choose|k: int| 0 <= k < s0.len() && s0[k] == x;
                assert(s[k] == x);
            }
            if s.contains(x) {
                let k = choose|k: int| 0 <= k < s.len() && s[k] == x;
                if k < s.len() - 1 {
                    assert(s0[k] == x);
                }
            }
            if x == s.last() {
                assert(s[s.len() - 1] == x);
            }
        }
        let d0 = distinct_in_order(s0);
        let d = distinct_in_order(s);
        assert forall|x: A| d.contains(x) <==> s.contains(x) by {
            if d0.contains(s.last()) {
                assert(d == d0);
            } else {
                assert(d == d0.push(s.last()));
                if d0.contains(x) {
                    let k = choose|k: int| 0 <= k < d0.len() && d0[k] == x;
                    assert(d[k] == x);
                }
                if d.contains(x) {
                    let k = choose|k: int| 0 <= k < d.len() && d[k] == x;
                    if k < d0.len() {
                        assert(d0[k] == x);
                    }
                }
                assert(d[d.len() - 1] == s.last());
            }
        }
    }
}

pub proof fn lemma_total_update<A>(t: Seq<(A, nat)>, j: int, v: nat)
    requires
        0 <= j < t.len(),
    ensures
        total(t.update(j, (t[j].0, v))) + t[j].1 == total(t) + v,
    decreases t.len(),
{
    if j < t.len() - 1 {
        lemma_total_update(t.drop_last(), j, v);
        assert(t.update(j, (t[j].0, v)).drop_last() =~= t.drop_last().update(j, (t[j].0, v)));
    } else {
        assert(t.update(j, (t[j].0, v)).drop_last() =~= t.drop_last());
    }
}

/// The step of counting: one more element either raises its count or joins at the end.
pub proof fn lemma_tally_push<A>(s: Seq<A>, x: A)
    ensures
        ({
            let t = tally(s);
            let d = distinct_in_order(s);
            if d.contains(x) {
                let j = d.index_of(x);
                tally(s.push(x)) == t.update(j, (x, t[j].1 + 1))
            } else {
                tally(s.push(x)) == t.push((x, 1nat))
            }
        }),
{
    let t = tally(s);
    let d = distinct_in_order(s);
    let s2 = s.push(x);
    assert(s2.drop_last() =~= s);
    lemma_distinct_no_duplicates(s);
    assert(s2.to_multiset() =~= s.to_multiset().insert(x));
    if d.contains(x) {
        let j = d.index_of(x);
        assert forall|k: int| 0 <= k < d.len() && k != j implies d[k] != x by {
        }
        assert(tally(s2) =~= t.update(j, (x, t[j].1 + 1)));
    } else {
        assert(s.to_multiset().count(x) == 0);
        assert(tally(s2) =~= t.push((x, 1nat)));
    }
}


/// The counts of a tally add up to the length of what was counted.
pub proof fn lemma_tally_total<A>(s: Seq<A>)
    ensures
        total(tally(s)) == s.len(),
    decreases s.len(),
{
    if s.len() > 0 {
        let s0 = s.drop_last();
        let x = s.last();
        lemma_tally_total(s0);
        lemma_tally_push(s0, x);
        assert(s0.push(x) =~= s);
        let t = tally(s0);
        let d = distinct_in_order(s0);
        if d.contains(x) {
            let j = d.index_of(x);
            lemma_total_update(t, j, t[j].1 + 1);
        } else {
            assert(t.push((x, 1nat)).drop_last() =~= t);
        }
    } else {
        assert(tally(s) =~= Seq::<(A, nat)>::empty());
    }
}

/// A tally names every counted element once, and nothing else.
pub proof fn lemma_tally_keys<A>(s: Seq<A>)
    ensures
        forall|i: int, j: int|
            0 <= i < j < tally(s).len() ==> (#[trigger] tally(s)[i]).0 != (#[trigger] tally(s)[j]).0,
        forall|i: int| 0 <= i < tally(s).len() ==> s.contains((#[trigger] tally(s)[i]).0),
        forall|x: A| s.contains(x) ==> exists|i: int| 0 <= i < tally(s).len() && (#[trigger] tally(s)[i]).0 == x,
        forall|i: int| 0 <= i < tally(s).len() ==> (#[trigger] tally(s)[i]).1 == s.to_multiset().count(tally(s)[i].0),
{
    lemma_distinct_no_duplicates(s);
    let d = distinct_in_order(s);
    assert forall|x: A| s.contains(x) implies exists|i: int| 0 <= i < tally(s).len() && (#[trigger] tally(s)[i]).0 == x by {
        assert(d.contains(x));
        let i = d.index_of(x);
        assert(tally(s)[i].0 == x);
    }
    assert forall|i: int| 0 <= i < tally(s).len() implies s.contains((#[trigger] tally(s)[i]).0) by {
        assert(d.contains(d[i]));
    }
}


/// The count that a tally gives for `k`, and 0 when it does not name `k`: what
/// `get(k).unwrap_or(0)` reads from the same counts held in a map.
pub open spec fn count_of<A>(t: Seq<(A, nat)>, k: A) -> nat
    decreases t.len(),
{
    if t.len() == 0 {
        0
    } else if t.last().0 == k {
        t.last().1
    } else {
        count_of(t.drop_last(), k)
    }
}

proof fn lemma_count_of_at<A>(t: Seq<(A, nat)>, k: A)
    requires
        forall|i: int, j: int| 0 <= i < j < t.len() ==> (#[trigger] t[i]).0 != (#[trigger] t[j]).0,
    ensures
        forall|i: int| 0 <= i < t.len() && (#[trigger] t[i]).0 == k ==> count_of(t, k) == t[i].1,
        (forall|i: int| 0 <= i < t.len() ==> (#[trigger] t[i]).0 != k) ==> count_of(t, k) == 0,
    decreases t.len(),
{
    if t.len() > 0 {
        let t0 = t.drop_last();
        assert forall|i: int, j: int| 0 <= i < j < t0.len() implies (#[trigger] t0[i]).0 != (#[trigger] t0[j]).0 by {
            assert(t0[i] == t[i] && t0[j] == t[j]);
        }
        lemma_count_of_at(t0, k);
        assert forall|i: int| 0 <= i < t.len() && (#[trigger] t[i]).0 == k implies count_of(t, k) == t[i].1 by {
            if i < t.len() - 1 {
                assert(t0[i] == t[i]);
                assert(t[t.len() - 1].0 != k);
            }
        }
        if forall|i: int| 0 <= i < t.len() ==> (#[trigger] t[i]).0 != k {
            assert(t[t.len() - 1].0 != k);
            assert forall|i: int| 0 <= i < t0.len() implies (#[trigger] t0[i]).0 != k by {
                assert(t0[i] == t[i]);
            }
        }
    }
}

/// What a tally counts for `k` is how often `k` occurs.
pub proof fn lemma_count_of_tally<A>(s: Seq<A>, k: A)
    ensures
        count_of(tally(s), k) == s.to_multiset().count(k),
{
    let t = tally(s);
    lemma_tally_keys(s);
    lemma_count_of_at(t, k);
    if s.contains(k) {
        let i = choose|i: int| 0 <= i < t.len() && (#[trigger] t[i]).0 == k;
        assert(t[i].0 == k);
    } else {
        assert forall|i: int| 0 <= i < t.len() implies (#[trigger] t[i]).0 != k by {
            assert(s.contains(t[i].0));
        }
    }
}

/// Sequences with the same elements, as often each, still have them after mapping.
pub proof fn lemma_map_multiset<A, B>(s1: Seq<A>, s2: Seq<A>, f: spec_fn(A) -> B)
    requires
        s1.to_multiset() == s2.to_multiset(),
    ensures
        s1.map_values(f).to_multiset() == s2.map_values(f).to_multiset(),
    decreases s1.len(),
{
    if s1.len() == 0 {
        assert(s1.to_multiset().len() == s1.len());
        assert(s2.to_multiset().len() == s2.len());
        assert(s2.len() == 0);
        assert(s1.map_values(f) =~= Seq::<B>::empty());
        assert(s2.map_values(f) =~= Seq::<B>::empty());
    } else {
        let s0 = s1.drop_last();
        let x = s1.last();
        assert(s0.push(x) =~= s1);
        assert(s1.to_multiset().count(x) > 0);
        assert(s2.contains(x));
        let j = choose|j: int| 0 <= j < s2.len() && s2[j] == x;
        let s2r = s2.remove(j);
        assert(s2r.to_multiset() == s2.to_multiset().remove(x));
        assert(s0.to_multiset() =~= s1.to_multiset().remove(x));
        lemma_map_multiset(s0, s2r, f);
        let m2 = s2.map_values(f);
        assert(s2r.map_values(f) =~= m2.remove(j));
        assert(m2.remove(j).to_multiset() == m2.to_multiset().remove(f(x)));
        assert(s1.map_values(f) =~= s0.map_values(f).push(f(x)));
        assert(m2.to_multiset().count(f(x)) > 0) by {
            assert(m2[j] == f(x));
        }
        assert(m2.to_multiset() =~= m2.to_multiset().remove(f(x)).insert(f(x)));
    }
}

} // verus!
