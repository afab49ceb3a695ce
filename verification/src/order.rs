//! Ordering of strings and the stable insertion sort that `slice::sort_by` performs.
use vstd::prelude::*;

verus! {

broadcast use vstd::seq_lib::group_to_multiset_ensures;

/// `a` comes strictly before `b` in the lexicographic order of their characters,
/// which is the byte order in which `str`'s `Ord` puts UTF-8 text.
pub open spec fn lex_less(a: Seq<char>, b: Seq<char>) -> bool
    decreases a.len(),
{
    if a.len() == 0 {
        b.len() > 0
    } else if b.len() == 0 {
        false
    } else if a[0] != b[0] {
        a[0] < b[0]
    } else {
        lex_less(a.drop_first(), b.drop_first())
    }
}

/// `a < b` for strings.
pub fn str_less(a: &str, b: &str) -> (r: bool)
    ensures
        r == lex_less(a@, b@),
{
    let x = crate::text::chars_of(a);
    let y = crate::text::chars_of(b);
    let mut i: usize = 0;
    proof {
        assert(a@.skip(0) =~= a@);
        assert(b@.skip(0) =~= b@);
    }
    while i < x.len() && i < y.len() && x[i] == y[i]
        invariant
            i <= x.len(),
            i <= y.len(),
            x@ == a@,
            y@ == b@,
            lex_less(a@, b@) == lex_less(a@.skip(i as int), b@.skip(i as int)),
        decreases x.len() - i,
    {
        proof {
            assert(a@.skip(i as int).drop_first() =~= a@.skip(i + 1));
            assert(b@.skip(i as int).drop_first() =~= b@.skip(i + 1));
        }
        i += 1;
    }
    if i == x.len() {
        i < y.len()
    } else if i == y.len() {
        false
    } else {
        x[i] < y[i]
    }
}

pub proof fn lemma_lex_less_asymmetric(a: Seq<char>, b: Seq<char>)
    ensures
        lex_less(a, b) ==> !lex_less(b, a),
    decreases a.len(),
{
    if a.len() > 0 && b.len() > 0 && a[0] == b[0] {
        lemma_lex_less_asymmetric(a.drop_first(), b.drop_first());
    }
}

pub proof fn lemma_lex_not_less_transitive(a: Seq<char>, b: Seq<char>, c: Seq<char>)
    ensures
        !lex_less(b, a) && !lex_less(c, b) ==> !lex_less(c, a),
    decreases a.len(),
{
    if a.len() > 0 && b.len() > 0 && c.len() > 0 {
        lemma_lex_not_less_transitive(a.drop_first(), b.drop_first(), c.drop_first());
    }
}

/// `x` inserted into `t` behind every element that does not come after it by `gt`:
/// the step of a stable insertion sort.
pub open spec fn insert_stable<A>(t: Seq<A>, x: A, gt: spec_fn(A, A) -> bool) -> Seq<A>
    decreases t.len(),
{
    if t.len() == 0 || !gt(t.last(), x) {
        t.push(x)
    } else {
        insert_stable(t.drop_last(), x, gt).push(t.last())
    }
}

/// `s` sorted stably by `gt`: the order of `slice::sort_by` with a comparison that says
/// `Greater` exactly where `gt` holds.
pub open spec fn stable_sort<A>(s: Seq<A>, gt: spec_fn(A, A) -> bool) -> Seq<A>
    decreases s.len(),
{
    if s.len() == 0 {
        s
    } else {
        insert_stable(stable_sort(s.drop_last(), gt), s.last(), gt)
    }
}

/// No element of `s` comes after a later one by `gt`.
pub open spec fn sorted_by<A>(s: Seq<A>, gt: spec_fn(A, A) -> bool) -> bool {
    forall|i: int, j: int| 0 <= i < j < s.len() ==> !gt(#[trigger] s[i], #[trigger] s[j])
}

/// `gt` is a strict order in which "not after" is transitive.
pub open spec fn is_strict_weak<A>(gt: spec_fn(A, A) -> bool) -> bool {
    &&& forall|a: A, b: A| #[trigger] gt(a, b) ==> !gt(b, a)
    &&& forall|a: A, b: A, c: A|
        !#[trigger] gt(a, b) && !#[trigger] gt(b, c) ==> !gt(a, c)
}

/// Where the insertion step puts `x`: behind position `p` exactly when everything from
/// `p` on comes after `x` and the element before `p` does not.
pub proof fn lemma_insert_stable_at<A>(t: Seq<A>, x: A, gt: spec_fn(A, A) -> bool, p: int)
    requires
        0 <= p <= t.len(),
        forall|k: int| p <= k < t.len() ==> gt(#[trigger] t[k], x),
        p == 0 || !gt(t[p - 1], x),
    ensures
        insert_stable(t, x, gt) == t.take(p).push(x) + t.skip(p),
    decreases t.len(),
{
    if t.len() == p {
        assert(t.take(p) =~= t);
        assert(t.take(p).push(x) + t.skip(p) =~= t.push(x));
    } else {
        assert(gt(t[t.len() - 1], x));
        lemma_insert_stable_at(t.drop_last(), x, gt, p);
        assert(t.drop_last().take(p) =~= t.take(p));
        assert((t.take(p).push(x) + t.drop_last().skip(p)).push(t.last()) =~= t.take(p).push(x)
            + t.skip(p));
    }
}

pub proof fn lemma_insert_stable_multiset<A>(t: Seq<A>, x: A, gt: spec_fn(A, A) -> bool)
    ensures
        insert_stable(t, x, gt).to_multiset() == t.to_multiset().insert(x),
    decreases t.len(),
{
    if t.len() == 0 || !gt(t.last(), x) {
    } else {
        lemma_insert_stable_multiset(t.drop_last(), x, gt);
        assert(t.drop_last().push(t.last()) =~= t);
        assert(t.drop_last().to_multiset().insert(t.last()) == t.to_multiset());
        assert(t.to_multiset().insert(x) =~= t.drop_last().to_multiset().insert(x).insert(t.last()));
    }
}

/// Sorting keeps every element, as often as it occurs.
pub proof fn lemma_stable_sort_multiset<A>(s: Seq<A>, gt: spec_fn(A, A) -> bool)
    ensures
        stable_sort(s, gt).to_multiset() == s.to_multiset(),
    decreases s.len(),
{
    if s.len() > 0 {
        lemma_stable_sort_multiset(s.drop_last(), gt);
        lemma_insert_stable_multiset(stable_sort(s.drop_last(), gt), s.last(), gt);
        assert(s.drop_last().push(s.last()) =~= s);
    }
}

pub proof fn lemma_insert_stable_sorted<A>(t: Seq<A>, x: A, gt: spec_fn(A, A) -> bool)
    requires
        is_strict_weak(gt),
        sorted_by(t, gt),
    ensures
        sorted_by(insert_stable(t, x, gt), gt),
    decreases t.len(),
{
    if t.len() == 0 || !gt(t.last(), x) {
        let r = t.push(x);
        assert forall|i: int, j: int| 0 <= i < j < r.len() implies !gt(#[trigger] r[i], #[trigger] r[j]) by {
            if j == t.len() {
                if i < t.len() - 1 {
                    assert(!gt(t[i], t[t.len() - 1]));
                }
            }
        }
    } else {
        let u = insert_stable(t.drop_last(), x, gt);
        lemma_insert_stable_sorted(t.drop_last(), x, gt);
        lemma_insert_stable_multiset(t.drop_last(), x, gt);
        let r = u.push(t.last());
        assert forall|i: int, j: int| 0 <= i < j < r.len() implies !gt(#[trigger] r[i], #[trigger] r[j]) by {
            if j == u.len() {
                // every element of u is an element of t.drop_last() or x
                assert(u.to_multiset().count(u[i]) > 0);
                assert(t.drop_last().to_multiset().insert(x).count(u[i]) > 0);
                if u[i] == x {
                } else {
                    assert(t.drop_last().to_multiset().count(u[i]) > 0);
                    assert(t.drop_last().contains(u[i]));
                    let k = choose|k: int| 0 <= k < t.len() - 1 && t.drop_last()[k] == u[i];
                    assert(t[k] == u[i]);
                    assert(!gt(t[k], t[t.len() - 1]));
                }
            }
        }
    }
}

/// Sorting puts no element after one that comes after it by `gt`.
pub proof fn lemma_stable_sort_sorted<A>(s: Seq<A>, gt: spec_fn(A, A) -> bool)
    requires
        is_strict_weak(gt),
    ensures
        sorted_by(stable_sort(s, gt), gt),
    decreases s.len(),
{
    if s.len() > 0 {
        lemma_stable_sort_sorted(s.drop_last(), gt);
        lemma_insert_stable_sorted(stable_sort(s.drop_last(), gt), s.last(), gt);
    }
}

} // verus!
