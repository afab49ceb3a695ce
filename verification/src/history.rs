//! The commit history: which branch to walk, how many commits it has, how they fall
//! into years, and when each tag was made.
use vstd::prelude::*;
use std::collections::HashMap;
use crate::reports::{keep_some, lemma_keep_some_step};
use crate::counting::{lemma_tally_keys, lemma_tally_total, tally, total};

verus! {

broadcast use {vstd::std_specs::hash::group_hash_axioms, vstd::seq_lib::group_to_multiset_ensures};

/// The first value in `s`, if any.
pub open spec fn first_some<R>(s: Seq<Option<R>>) -> Option<R>
    decreases s.len(),
{
    if s.len() == 0 {
        None
    } else if s[0] is Some {
        s[0]
    } else {
        first_some(s.drop_first())
    }
}

/// The branch chosen is the first candidate that resolved, wherever it stands in the
/// list, and there is none only when no candidate resolved.
pub proof fn lemma_first_resolved_is_first<R>(s: Seq<Option<R>>)
    ensures
        forall|k: int|
            0 <= k < s.len() && (#[trigger] s[k]) is Some && (forall|j: int| 0 <= j < k ==> s[j] is None)
                ==> first_some(s) == s[k],
        (forall|j: int| 0 <= j < s.len() ==> s[j] is None) ==> first_some(s) is None,
    decreases s.len(),
{
    if s.len() > 0 {
        let t = s.drop_first();
        lemma_first_resolved_is_first(t);
        assert forall|k: int|
            0 <= k < s.len() && (#[trigger] s[k]) is Some && (forall|j: int| 0 <= j < k ==> s[j] is None)
                implies first_some(s) == s[k] by {
            if k > 0 {
                assert(s[0] is None);
                assert(t[k - 1] == s[k]);
                assert forall|j: int| 0 <= j < k - 1 implies t[j] is None by {
                    assert(t[j] == s[j + 1]);
                }
            }
        }
        if forall|j: int| 0 <= j < s.len() ==> s[j] is None {
            assert(s[0] is None);
            assert forall|j: int| 0 <= j < t.len() implies t[j] is None by {
                assert(t[j] == s[j + 1]);
            }
        }
    }
}

/// The branches that are walked, in order of preference: the remote's `master`, then
/// `main`, then `dev`.
pub open spec fn mainline_ref_names() -> Seq<Seq<char>> {
    seq!["origin/master"@, "origin/main"@, "origin/dev"@]
}

/// The short names of the branches that are tried for the history, most preferred first.
pub fn mainline_refs() -> (r: Vec<String>)
    ensures
        crate::text::views(r@) == mainline_ref_names(),
{
    let mut r: Vec<String> = Vec::new();
    r.push("origin/master".to_owned());
    r.push("origin/main".to_owned());
    r.push("origin/dev".to_owned());
    proof {
        assert(crate::text::views(r@) =~= mainline_ref_names());
    }
    r
}

/// The first of the lookups that found something: the branch to walk, taken from the
/// results of looking up `mainline_refs` in order.
pub fn first_resolved<R>(candidates: Vec<Option<R>>) -> (r: Option<R>)
    ensures
        r == first_some(candidates@),
{
    let ghost all = candidates@;
    let mut rest = candidates;
    let mut found: Option<R> = None;
    proof {
        assert(all.skip(all.len() as int) =~= Seq::<Option<R>>::empty());
    }
    while rest.len() > 0
        invariant
            all.take(rest.len() as int) == rest@,
            rest.len() <= all.len(),
            found == first_some(all.skip(rest.len() as int)),
        decreases rest.len(),
    {
        let n = rest.len();
        let ghost before = rest@;
        let item = rest.pop().unwrap();
        proof {
            assert(all[n - 1] == before[n - 1]);
            assert(all.skip(n - 1).drop_first() =~= all.skip(n as int));
            assert(all.skip(n - 1)[0] == all[n - 1]);
            assert(all.take(n - 1) =~= before.drop_last());
        }
        if item.is_some() {
            found = item;
        }
    }
    proof {
        assert(all.skip(0) =~= all);
    }
    found
}

/// The commit times in a walk of the history, where each object the walk meets is
/// `Some(seconds)` for a commit made at that time and `None` for anything else.
pub open spec fn commit_times(objects: Seq<Option<i64>>) -> Seq<i64> {
    keep_some(objects)
}

/// The times of the commits among the objects of a walk, in walk order.
pub fn walk_commits(objects: &Vec<Option<i64>>) -> (r: Vec<i64>)
    ensures
        r@ == commit_times(objects@),
{
    let mut r: Vec<i64> = Vec::new();
    let mut i: usize = 0;
    while i < objects.len()
        invariant
            i <= objects.len(),
            r@ == keep_some(objects@.take(i as int)),
        decreases objects.len() - i,
    {
        proof {
            lemma_keep_some_step(objects@, i as int);
        }
        match objects[i] {
            Some(t) => r.push(t),
            None => {},
        }
        i += 1;
    }
    proof {
        assert(objects@.take(objects.len() as int) =~= objects@);
    }
    r
}

/// The number of commits among the objects of a walk.
pub fn count_commits(objects: &Vec<Option<i64>>) -> (r: usize)
    ensures
        r == commit_times(objects@).len(),
{
    let mut count: usize = 0;
    let mut i: usize = 0;
    while i < objects.len()
        invariant
            i <= objects.len(),
            count == keep_some(objects@.take(i as int)).len(),
            count <= i,
        decreases objects.len() - i,
    {
        proof {
            lemma_keep_some_step(objects@, i as int);
        }
        if objects[i].is_some() {
            count += 1;
        }
        i += 1;
    }
    proof {
        assert(objects@.take(objects.len() as int) =~= objects@);
    }
    count
}

/// The length of a year as the history counts it: 365.2425 days, in seconds.
pub open spec fn year_seconds() -> int {
    31_556_952
}

/// The year in which a commit at `t` seconds after the epoch falls, roughly: 1970 plus
/// the whole years that have passed, rounded towards zero as integer division does.
pub open spec fn approx_year(t: i64) -> i64 {
    let a = t as int;
    let q = if a >= 0 {
        a / year_seconds()
    } else {
        -((-a) / year_seconds())
    };
    (1970 + q) as i64
}

/// The rough year of a commit time.
pub fn commit_year(t: i64) -> (r: i64)
    ensures
        r == approx_year(t),
{
    1970 + t / 31_556_952
}

/// The rough years of the commit times, in order.
pub open spec fn commit_years(times: Seq<i64>) -> Seq<i64> {
    times.map_values(|t: i64| approx_year(t))
}

/// How many commits fall in each year: the years of the commits, each with its count.
pub open spec fn commits_per_year(times: Seq<i64>) -> Map<i64, i32> {
    Map::new(
        |y: i64| commit_years(times).contains(y),
        |y: i64| commit_years(times).to_multiset().count(y) as i32,
    )
}

/// No year holds more commits than an `i32` counts.
pub open spec fn year_counts_fit(times: Seq<i64>) -> bool {
    forall|y: i64| #[trigger] commit_years(times).to_multiset().count(y) <= i32::MAX
}

/// How many commits among the objects of a walk fall in each rough year.
pub fn count_commits_by_year_slow(objects: &Vec<Option<i64>>) -> (r: HashMap<i64, i32>)
    requires
        year_counts_fit(commit_times(objects@)),
    ensures
        r@ == commits_per_year(commit_times(objects@)),
{
    let times = walk_commits(objects);
    let ghost years = commit_years(times@);
    let mut count: HashMap<i64, i32> = HashMap::new();
    let mut i: usize = 0;
    proof {
        assert(years.take(0) =~= Seq::<i64>::empty());
        assert(count@ =~= commits_per_year(times@.take(0)));
    }
    while i < times.len()
        invariant
            i <= times.len(),
            years == commit_years(times@),
            year_counts_fit(times@),
            count@ == commits_per_year(times@.take(i as int)),
        decreases times.len() - i,
    {
        let y = commit_year(times[i]);
        let ghost before = years.take(i as int);
        proof {
            assert(commit_years(times@.take(i as int)) =~= before);
            assert(commit_years(times@.take(i + 1)) =~= before.push(y));
            assert(before.push(y).to_multiset() =~= before.to_multiset().insert(y));
            assert(years.take(i + 1) =~= before.push(y));
            assert(years.take(i + 1).to_multiset().count(y) <= years.to_multiset().count(y)) by {
                vstd::seq_lib::lemma_multiset_commutative(years.take(i + 1), years.skip(i + 1));
                assert(years.take(i + 1) + years.skip(i + 1) =~= years);
            }
            assert(years.to_multiset().count(y) <= i32::MAX);
        }
        let prev: i32 = match count.get(&y) {
            Some(c) => *c,
            None => 0,
        };
        count.insert(y, prev + 1);
        proof {
            assert forall|z: i64| before.push(y).contains(z) <==> (before.contains(z) || z == y) by {
                if before.push(y).contains(z) && z != y {
                    let k = choose|k: int| 0 <= k < before.len() + 1 && before.push(y)[k] == z;
                    assert(before[k] == z);
                }
                if before.contains(z) {
                    let k = choose|k: int| 0 <= k < before.len() && before[k] == z;
                    assert(before.push(y)[k] == z);
                }
                if z == y {
                    assert(before.push(y)[before.len() as int] == z);
                }
            }
            assert(count@ =~= commits_per_year(times@.take(i + 1)));
        }
        i += 1;
    }
    proof {
        assert(times@.take(times.len() as int) =~= times@);
    }
    count
}

/// Listed once per year, the counts of `count_commits_by_year_slow` add up to the number
/// of commits that `count_commits` gives.
pub proof fn lemma_years_add_up(objects: Seq<Option<i64>>)
    requires
        year_counts_fit(commit_times(objects)),
    ensures
        ({
            let times = commit_times(objects);
            let t = tally(commit_years(times));
            &&& total(t) == times.len()
            &&& forall|i: int|
                0 <= i < t.len() ==> commits_per_year(times).contains_key((#[trigger] t[i]).0)
                    && commits_per_year(times)[t[i].0] as int == t[i].1 as int
            &&& forall|y: i64|
                #[trigger] commits_per_year(times).contains_key(y) ==> exists|i: int|
                    0 <= i < t.len() && (#[trigger] t[i]).0 == y
        }),
{
    let times = commit_times(objects);
    let years = commit_years(times);
    lemma_tally_total(years);
    lemma_tally_keys(years);
    assert(years.len() == times.len());
    let t = tally(years);
    assert forall|i: int| 0 <= i < t.len() implies commits_per_year(times).contains_key(
        (#[trigger] t[i]).0,
    ) && commits_per_year(times)[t[i].0] as int == t[i].1 as int by {
        assert(years.to_multiset().count(t[i].0) <= i32::MAX);
    }
}

/// What a tag points at, as plain values: a commit made at `time`; an annotated tag whose
/// target is a commit made at `commit_time`, or `None` when its target is not a commit;
/// or anything else.
pub enum TagTarget {
    Commit { time: i64 },
    Annotated { commit_time: Option<i64> },
    Other,
}

/// The time of the commit that a tag marks, when it marks one.
pub open spec fn tag_time(t: TagTarget) -> Option<i64> {
    match t {
        TagTarget::Commit { time } => Some(time),
        TagTarget::Annotated { commit_time } => commit_time,
        TagTarget::Other => None,
    }
}

/// A tag with the time of its commit, when it marks one.
pub open spec fn tag_entry(p: (Seq<char>, TagTarget)) -> Option<(Seq<char>, i64)> {
    match tag_time(p.1) {
        Some(t) => Some((p.0, t)),
        None => None,
    }
}

pub open spec fn tag_input_views(v: Seq<(String, TagTarget)>) -> Seq<(Seq<char>, TagTarget)> {
    v.map_values(|p: (String, TagTarget)| (p.0@, p.1))
}

pub open spec fn tag_views(v: Seq<(String, i64)>) -> Seq<(Seq<char>, i64)> {
    v.map_values(|p: (String, i64)| (p.0@, p.1))
}

/// The names of a table of tags.
pub open spec fn tag_names(t: Seq<(Seq<char>, i64)>) -> Seq<Seq<char>> {
    t.map_values(|p: (Seq<char>, i64)| p.0)
}

/// The table with the tag `k` set to `v`, as `HashMap::insert` sets it: an entry already
/// called `k` takes the new time in its place; otherwise the tag is added at the end.
pub open spec fn insert_tag(t: Seq<(Seq<char>, i64)>, k: Seq<char>, v: i64) -> Seq<(Seq<char>, i64)> {
    if tag_names(t).contains(k) {
        t.update(tag_names(t).index_of(k), (k, v))
    } else {
        t.push((k, v))
    }
}

/// The table made by setting, in order, each tag of `s` to its time.
pub open spec fn tag_table(s: Seq<(Seq<char>, i64)>) -> Seq<(Seq<char>, i64)>
    decreases s.len(),
{
    if s.len() == 0 {
        Seq::empty()
    } else {
        insert_tag(tag_table(s.drop_last()), s.last().0, s.last().1)
    }
}

/// The tags that mark a commit, each once with the time of its commit in seconds since
/// the epoch, in the order in which each name first comes; where a name comes again,
/// the later time replaces the earlier one. The other tags are passed over.
pub fn get_tags_ordered_by_date(tags: Vec<(String, TagTarget)>) -> (r: Vec<(String, i64)>)
    ensures
        tag_views(r@) == tag_table(
            keep_some(tag_input_views(tags@).map_values(|p: (Seq<char>, TagTarget)| tag_entry(p))),
        ),
        forall|i: int, j: int| 0 <= i < j < r.len() ==> (#[trigger] r@[i]).0@ != (#[trigger] r@[j]).0@,
{
    let ghost entries = tag_input_views(tags@).map_values(|p: (Seq<char>, TagTarget)| tag_entry(p));
    let mut r: Vec<(String, i64)> = Vec::new();
    let mut i: usize = 0;
    while i < tags.len()
        invariant
            i <= tags.len(),
            entries == tag_input_views(tags@).map_values(|p: (Seq<char>, TagTarget)| tag_entry(p)),
            tag_views(r@) == tag_table(keep_some(entries.take(i as int))),
            forall|a: int, b: int| 0 <= a < b < r.len() ==> (#[trigger] r@[a]).0@ != (#[trigger] r@[b]).0@,
        decreases tags.len() - i,
    {
        let ghost before = keep_some(entries.take(i as int));
        proof {
            lemma_keep_some_step(entries, i as int);
        }
        let time: Option<i64> = match &tags[i].1 {
            TagTarget::Commit { time } => Some(*time),
            TagTarget::Annotated { commit_time } => *commit_time,
            TagTarget::Other => None,
        };
        match time {
            Some(t) => {
                let name = &tags[i].0;
                let ghost tv = tag_views(r@);
                proof {
                    assert(entries[i as int] == Some((name@, t)));
                    assert(keep_some(entries.take(i + 1)) == before.push((name@, t)));
                    assert(before.push((name@, t)).drop_last() =~= before);
                    assert(tag_table(keep_some(entries.take(i + 1))) == insert_tag(tv, name@, t));
                }
                let mut j: usize = 0;
                while j < r.len() && r[j].0 != *name
                    invariant
                        j <= r.len(),
                        tv == tag_views(r@),
                        forall|a: int| 0 <= a < j ==> (#[trigger] r@[a]).0@ != name@,
                    decreases r.len() - j,
                {
                    j += 1;
                }
                if j < r.len() {
                    proof {
                        assert(tag_names(tv)[j as int] == name@);
                        assert(tag_names(tv).contains(name@));
                        let q = tag_names(tv).index_of(name@);
                        assert(tag_names(tv)[q] == name@);
                        assert(r@[q].0@ == name@);
                        assert(q == j);
                    }
                    let key = r[j].0.clone();
                    r.set(j, (key, t));
                    proof {
                        assert(tag_views(r@) =~= tv.update(j as int, (name@, t)));
                    }
                } else {
                    proof {
                        assert(!tag_names(tv).contains(name@)) by {
                            if tag_names(tv).contains(name@) {
                                let q = choose|q: int| 0 <= q < tag_names(tv).len() && #[trigger] tag_names(tv)[q] == name@;
                                assert(r@[q].0@ == name@);
                            }
                        }
                    }
                    let item = (name.clone(), t);
                    r.push(item);
                    proof {
                        assert(tag_views(r@) =~= tv.push((name@, t)));
                    }
                }
            },
            None => {},
        }
        i += 1;
    }
    proof {
        assert(entries.take(tags.len() as int) =~= entries);
    }
    r
}


/// The tag table of the tags of `tags` that mark a commit.
pub open spec fn tags_table(tags: Seq<(Seq<char>, TagTarget)>) -> Seq<(Seq<char>, i64)> {
    tag_table(keep_some(tags.map_values(|p: (Seq<char>, TagTarget)| tag_entry(p))))
}

proof fn lemma_insert_tag(t: Seq<(Seq<char>, i64)>, k: Seq<char>, v: i64)
    requires
        forall|a: int, b: int| 0 <= a < b < t.len() ==> (#[trigger] t[a]).0 != (#[trigger] t[b]).0,
    ensures
        ({
            let u = insert_tag(t, k, v);
            &&& forall|a: int, b: int| 0 <= a < b < u.len() ==> (#[trigger] u[a]).0 != (#[trigger] u[b]).0
            &&& exists|j: int| 0 <= j < u.len() && (#[trigger] u[j]) == (k, v)
            &&& forall|a: int| 0 <= a < t.len() ==> exists|j: int| 0 <= j < u.len() && (#[trigger] u[j]).0 == (#[trigger] t[a]).0
            &&& forall|j: int| 0 <= j < u.len() ==> (#[trigger] u[j]) == (k, v) || (u[j].0 != k && exists|a: int| 0 <= a < t.len() && #[trigger] t[a] == u[j])
        }),
{
    let u = insert_tag(t, k, v);
    let names = tag_names(t);
    if names.contains(k) {
        let q = names.index_of(k);
        assert(names[q] == k);
        assert(t[q].0 == k);
        assert(u[q] == (k, v));
        assert forall|a: int| 0 <= a < t.len() implies exists|j: int| 0 <= j < u.len() && (#[trigger] u[j]).0 == (#[trigger] t[a]).0 by {
            assert(u[a].0 == t[a].0);
        }
        assert forall|j: int| 0 <= j < u.len() implies (#[trigger] u[j]) == (k, v) || (u[j].0 != k && exists|a: int| 0 <= a < t.len() && #[trigger] t[a] == u[j]) by {
            if j != q {
                assert(u[j] == t[j]);
                assert(t[j].0 != t[q].0);
            }
        }
    } else {
        assert(u[t.len() as int] == (k, v));
        assert forall|a: int| 0 <= a < t.len() implies t[a].0 != k by {
            assert(names[a] == t[a].0);
        }
        assert forall|a: int| 0 <= a < t.len() implies exists|j: int| 0 <= j < u.len() && (#[trigger] u[j]).0 == (#[trigger] t[a]).0 by {
            assert(u[a] == t[a]);
        }
        assert forall|j: int| 0 <= j < u.len() implies (#[trigger] u[j]) == (k, v) || (u[j].0 != k && exists|a: int| 0 <= a < t.len() && #[trigger] t[a] == u[j]) by {
            if j < t.len() {
                assert(u[j] == t[j]);
            }
        }
    }
}

/// Every tag that marks a commit is in the table, each name once; and each entry of the
/// table is a tag that marks a commit, with the time of the last tag of that name that
/// marks one.
pub proof fn lemma_every_tag_kept(tags: Seq<(Seq<char>, TagTarget)>)
    ensures
        forall|k: int|
            0 <= k < tags.len() && (match #[trigger] tags[k].1 {
                TagTarget::Commit { .. } => true,
                TagTarget::Annotated { commit_time } => commit_time is Some,
                TagTarget::Other => false,
            }) ==> exists|j: int| 0 <= j < tags_table(tags).len() && (#[trigger] tags_table(tags)[j]).0 == tags[k].0,
        forall|a: int, b: int|
            0 <= a < b < tags_table(tags).len() ==> (#[trigger] tags_table(tags)[a]).0 != (
            #[trigger] tags_table(tags)[b]).0,
        forall|j: int|
            0 <= j < tags_table(tags).len() ==> exists|k: int|
                0 <= k < tags.len() && (#[trigger] tags[k]).0 == (#[trigger] tags_table(tags)[j]).0 && (match tags[k].1 {
                    TagTarget::Commit { time } => Some(time),
                    TagTarget::Annotated { commit_time } => commit_time,
                    TagTarget::Other => None,
                }) == Some(tags_table(tags)[j].1) && forall|m: int|
                    k < m < tags.len() && tags[m].0 == tags[k].0 ==> (match tags[m].1 {
                        TagTarget::Commit { .. } => false,
                        TagTarget::Annotated { commit_time } => commit_time is None,
                        TagTarget::Other => true,
                    }),
    decreases tags.len(),
{
    if tags.len() == 0 {
        assert(tags_table(tags) =~= Seq::<(Seq<char>, i64)>::empty()) by {
            assert(tags.map_values(|p: (Seq<char>, TagTarget)| tag_entry(p)) =~= Seq::<Option<(Seq<char>, i64)>>::empty());
        }
    } else {
        let t0 = tags.drop_last();
        let y = tags[tags.len() - 1];
        lemma_every_tag_kept(t0);
        let f = |p: (Seq<char>, TagTarget)| tag_entry(p);
        let e = tag_entry(y);
        let m0 = t0.map_values(f);
        assert(tags.map_values(f) =~= m0.push(e));
        assert(m0.push(e).drop_last() =~= m0);
        let prev = tags_table(t0);
        let cur = tags_table(tags);
        let s0 = keep_some(m0);
        assert forall|k: int| 0 <= k < t0.len() implies #[trigger] t0[k] == tags[k] by {}
        match e {
            Some(x) => {
                assert(keep_some(m0.push(e)) == s0.push(x));
                assert(s0.push(x).drop_last() =~= s0);
                assert(cur == insert_tag(prev, x.0, x.1));
                lemma_insert_tag(prev, x.0, x.1);
                assert(x.0 == y.0);
                assert forall|k: int|
                    0 <= k < tags.len() && (match #[trigger] tags[k].1 {
                        TagTarget::Commit { .. } => true,
                        TagTarget::Annotated { commit_time } => commit_time is Some,
                        TagTarget::Other => false,
                    }) implies exists|j: int| 0 <= j < cur.len() && (#[trigger] cur[j]).0 == tags[k].0 by {
                    if k < t0.len() {
                        assert(t0[k] == tags[k]);
                        let j0 = choose|j0: int| 0 <= j0 < prev.len() && (#[trigger] prev[j0]).0 == t0[k].0;
                        let j = choose|j: int| 0 <= j < cur.len() && (#[trigger] cur[j]).0 == (#[trigger] prev[j0]).0;
                    } else {
                        let j = choose|j: int| 0 <= j < cur.len() && (#[trigger] cur[j]) == (x.0, x.1);
                    }
                }
                assert forall|j: int| 0 <= j < cur.len() implies exists|k: int|
                    0 <= k < tags.len() && (#[trigger] tags[k]).0 == (#[trigger] cur[j]).0 && (match tags[k].1 {
                        TagTarget::Commit { time } => Some(time),
                        TagTarget::Annotated { commit_time } => commit_time,
                        TagTarget::Other => None,
                    }) == Some(cur[j].1) && forall|m: int|
                        k < m < tags.len() && tags[m].0 == tags[k].0 ==> (match tags[m].1 {
                            TagTarget::Commit { .. } => false,
                            TagTarget::Annotated { commit_time } => commit_time is None,
                            TagTarget::Other => true,
                        }) by {
                    if cur[j] == (x.0, x.1) {
                        let k = tags.len() - 1;
                        assert(tags[k] == y);
                    } else {
                        let a = choose|a: int| 0 <= a < prev.len() && #[trigger] prev[a] == cur[j];
                        assert(prev[a] == cur[j]);
                        let k = choose|k: int|
                            0 <= k < t0.len() && (#[trigger] t0[k]).0 == (#[trigger] prev[a]).0 && (match t0[k].1 {
                                TagTarget::Commit { time } => Some(time),
                                TagTarget::Annotated { commit_time } => commit_time,
                                TagTarget::Other => None,
                            }) == Some(prev[a].1) && forall|m: int|
                                k < m < t0.len() && t0[m].0 == t0[k].0 ==> (match t0[m].1 {
                                    TagTarget::Commit { .. } => false,
                                    TagTarget::Annotated { commit_time } => commit_time is None,
                                    TagTarget::Other => true,
                                });
                        assert(tags[k] == t0[k]);
                        assert forall|m: int| k < m < tags.len() && tags[m].0 == tags[k].0 implies (match tags[m].1 {
                            TagTarget::Commit { .. } => false,
                            TagTarget::Annotated { commit_time } => commit_time is None,
                            TagTarget::Other => true,
                        }) by {
                            if m < t0.len() {
                                assert(tags[m] == t0[m]);
                            } else {
                                assert(tags[m] == y);
                                assert(cur[j].0 != x.0);
                            }
                        }
                    }
                }
            },
            None => {
                assert(keep_some(m0.push(e)) == s0);
                assert(cur == prev);
                assert forall|k: int|
                    0 <= k < tags.len() && (match #[trigger] tags[k].1 {
                        TagTarget::Commit { .. } => true,
                        TagTarget::Annotated { commit_time } => commit_time is Some,
                        TagTarget::Other => false,
                    }) implies exists|j: int| 0 <= j < cur.len() && (#[trigger] cur[j]).0 == tags[k].0 by {
                    if k < t0.len() {
                        assert(t0[k] == tags[k]);
                    } else {
                        assert(tags[k] == y);
                    }
                }
                assert forall|j: int| 0 <= j < cur.len() implies exists|k: int|
                    0 <= k < tags.len() && (#[trigger] tags[k]).0 == (#[trigger] cur[j]).0 && (match tags[k].1 {
                        TagTarget::Commit { time } => Some(time),
                        TagTarget::Annotated { commit_time } => commit_time,
                        TagTarget::Other => None,
                    }) == Some(cur[j].1) && forall|m: int|
                        k < m < tags.len() && tags[m].0 == tags[k].0 ==> (match tags[m].1 {
                            TagTarget::Commit { .. } => false,
                            TagTarget::Annotated { commit_time } => commit_time is None,
                            TagTarget::Other => true,
                        }) by {
                    assert(prev[j] == cur[j]);
                    let k = choose|k: int|
                        0 <= k < t0.len() && (#[trigger] t0[k]).0 == (#[trigger] prev[j]).0 && (match t0[k].1 {
                            TagTarget::Commit { time } => Some(time),
                            TagTarget::Annotated { commit_time } => commit_time,
                            TagTarget::Other => None,
                        }) == Some(prev[j].1) && forall|m: int|
                            k < m < t0.len() && t0[m].0 == t0[k].0 ==> (match t0[m].1 {
                                TagTarget::Commit { .. } => false,
                                TagTarget::Annotated { commit_time } => commit_time is None,
                                TagTarget::Other => true,
                            });
                    assert(tags[k] == t0[k]);
                    assert forall|m: int| k < m < tags.len() && tags[m].0 == tags[k].0 implies (match tags[m].1 {
                        TagTarget::Commit { .. } => false,
                        TagTarget::Annotated { commit_time } => commit_time is None,
                        TagTarget::Other => true,
                    }) by {
                        if m < t0.len() {
                            assert(tags[m] == t0[m]);
                        } else {
                            assert(tags[m] == y);
                        }
                    }
                }
            },
        }
    }
}


/// Every commit met in the walk is counted, with its time, and nothing else: the count is
/// the number of commits among the objects.
pub proof fn lemma_walk_keeps_commits(objects: Seq<Option<i64>>)
    ensures
        forall|i: int| 0 <= i < objects.len() && #[trigger] objects[i] is Some ==> commit_times(objects).contains(objects[i]->0),
        forall|j: int| 0 <= j < commit_times(objects).len() ==> objects.contains(Some(#[trigger] commit_times(objects)[j])),
        commit_times(objects).len() == objects.len() - objects.filter(|o: Option<i64>| o is None).len(),
    decreases objects.len(),
{
    assert forall|i: int| 0 <= i < objects.len() && #[trigger] objects[i] is Some implies commit_times(objects).contains(objects[i]->0) by {
        crate::reports::lemma_keep_some_has(objects, i, objects[i]->0);
    }
    assert forall|j: int| 0 <= j < commit_times(objects).len() implies objects.contains(Some(#[trigger] commit_times(objects)[j])) by {
        assert(commit_times(objects).contains(commit_times(objects)[j]));
        crate::reports::lemma_keep_some_from(objects, commit_times(objects)[j]);
    }
    let p = |o: Option<i64>| o is None;
    if objects.len() > 0 {
        let o0 = objects.drop_last();
        lemma_walk_keeps_commits(o0);
        assert(objects =~= o0.push(objects.last()));
        o0.lemma_filter_push(objects.last(), p);
    } else {
        assert(objects =~= Seq::<Option<i64>>::empty());
        Seq::<Option<i64>>::empty().lemma_filter_push(None, p);
        assert(Seq::<Option<i64>>::empty().filter(p) =~= Seq::<Option<i64>>::empty()) by {
            reveal(Seq::filter);
        }
    }
}

} // verus!
