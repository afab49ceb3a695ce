//! The files and directories of a commit's tree, and what they add up to.
use vstd::prelude::*;
use crate::counting::{
    count_of, distinct_in_order, lemma_count_of_tally, lemma_distinct_no_duplicates, lemma_map_multiset, lemma_tally_keys, lemma_tally_push, lemma_tally_total,
    lemma_total_update, tally, total,
};
use crate::reports::keep_some;
use crate::text::{last_piece, lemma_views_push, push_all, push_decimal, split_char, split_pieces, views, decimal};

verus! {

/// One entry of a git tree, as plain values: a file, a directory with its own entries,
/// or anything else that a tree can hold (such as a submodule).
pub enum TreeEntry {
    Blob { name: String },
    Tree { name: String, entries: Vec<TreeEntry> },
    Other { name: String },
}

/// The name of an entry.
pub open spec fn entry_name(e: TreeEntry) -> Seq<char> {
    match e {
        TreeEntry::Blob { name } => name@,
        TreeEntry::Tree { name, .. } => name@,
        TreeEntry::Other { name } => name@,
    }
}

/// `path/name`.
pub open spec fn joined(path: Seq<char>, name: Seq<char>) -> Seq<char> {
    path + seq!['/'] + name
}

/// `s` without one leading `'/'`.
pub open spec fn without_leading_slash(s: Seq<char>) -> Seq<char> {
    if s.len() > 0 && s[0] == '/' {
        s.drop_first()
    } else {
        s
    }
}

/// The paths that listing `entries` under `path` yields, entry after entry: files only,
/// or directories only, each directory followed by what lies in it.
pub open spec fn listing(entries: Seq<TreeEntry>, path: Seq<char>, only_dirs: bool) -> Seq<Seq<char>>
    decreases entries, 0nat,
{
    if entries.len() == 0 {
        Seq::empty()
    } else {
        listing(entries.drop_last(), path, only_dirs) + entry_listing(
            entries[entries.len() - 1],
            path,
            only_dirs,
        )
    }
}

/// The paths that one entry under `path` yields.
pub open spec fn entry_listing(e: TreeEntry, path: Seq<char>, only_dirs: bool) -> Seq<Seq<char>>
    decreases e, 1nat,
{
    match e {
        TreeEntry::Blob { name } => if only_dirs {
            Seq::empty()
        } else {
            seq![without_leading_slash(joined(path, name@))]
        },
        TreeEntry::Tree { name, entries } => {
            let d = joined(path, name@);
            (if only_dirs {
                seq![without_leading_slash(d)]
            } else {
                Seq::empty()
            }) + listing(entries@, d, only_dirs)
        },
        TreeEntry::Other { .. } => Seq::empty(),
    }
}


/// `path + "/" + name`.
fn join_path(path: &String, name: &String) -> (r: String)
    ensures
        r@ == joined(path@, name@),
{
    let mut r = String::new();
    push_all(&mut r, path.as_str());
    r.push('/');
    push_all(&mut r, name.as_str());
    proof {
        assert(Seq::<char>::empty() + path@ =~= path@);
    }
    r
}

/// `s` with one leading `'/'` taken off, if it has one.
fn strip_leading_slash(s: String) -> (r: String)
    ensures
        r@ == without_leading_slash(s@),
{
    let cs = crate::text::chars_of(s.as_str());
    if cs.len() > 0 && cs[0] == '/' {
        crate::text::string_of(&cs, 1, cs.len())
    } else {
        s
    }
}

/// Where listing under `path` may start: directories are listed by cutting the `'/'`
/// in front, so with `only_dirs` the path is empty or begins with `'/'`.
pub open spec fn listable(path: Seq<char>, only_dirs: bool) -> bool {
    only_dirs ==> (path.len() == 0 || path[0] == '/')
}

/// Whether `entries` holds no directory.
pub open spec fn has_no_dirs(entries: Seq<TreeEntry>) -> bool {
    forall|i: int| 0 <= i < entries.len() ==> !(#[trigger] entries[i] is Tree)
}

/// The paths under `path` of the files in `tree` and its subdirectories, or, with
/// `only_dirs`, of the directories; each path is `path/name` without a leading `'/'`, and
/// a directory's contents follow it in the order of its entries. A directory is listed by
/// cutting the `'/'` in front of its path, so a directory listing under a path that
/// neither is empty nor begins with `'/'` is asked only of entries without directories.
pub fn print_tree_entries(tree: &Vec<TreeEntry>, path: String, only_dirs: bool) -> (r: Vec<String>)
    requires
        listable(path@, only_dirs) || has_no_dirs(tree@),
    ensures
        views(r@) == listing(tree@, path@, only_dirs),
    decreases tree@, 0nat,
{
    let mut files: Vec<String> = Vec::new();
    let mut i: usize = 0;
    while i < tree.len()
        invariant
            i <= tree.len(),
            listable(path@, only_dirs) || has_no_dirs(tree@),
            views(files@) == listing(tree@.take(i as int), path@, only_dirs),
        decreases tree.len() - i,
    {
        proof {
            assert(tree@.take(i + 1).drop_last() =~= tree@.take(i as int));
            assert(tree@.take(i + 1)[i as int] == tree@[i as int]);
        }
        match &tree[i] {
            TreeEntry::Blob { name } => {
                if !only_dirs {
                    let f = strip_leading_slash(join_path(&path, name));
                    proof {
                        lemma_views_push(files@, f);
                    }
                    files.push(f);
                }
                proof {
                    assert(views(files@) =~= listing(tree@.take(i as int), path@, only_dirs)
                        + entry_listing(tree@[i as int], path@, only_dirs));
                }
            },
            TreeEntry::Tree { name, entries } => {
                let ghost before = views(files@);
                let dir_name = join_path(&path, name);
                if only_dirs {
                    let d = strip_leading_slash(dir_name.clone());
                    proof {
                        lemma_views_push(files@, d);
                    }
                    files.push(d);
                }
                proof {
                    assert(decreases_to!(tree@ => tree@[i as int]));
                }
                let mut sub = print_tree_entries(entries, dir_name, only_dirs);
                let ghost mid = files@;
                let ghost subv = sub@;
                files.append(&mut sub);
                proof {
                    assert(views(files@) =~= views(mid) + views(subv));
                    assert(views(files@) =~= before + entry_listing(tree@[i as int], path@, only_dirs));
                }
            },
            TreeEntry::Other { .. } => {
                proof {
                    assert(views(files@) =~= listing(tree@.take(i as int), path@, only_dirs)
                        + entry_listing(tree@[i as int], path@, only_dirs));
                }
            },
        }
        i += 1;
    }
    proof {
        assert(tree@.take(tree.len() as int) =~= tree@);
    }
    files
}


/// The extension of a file: what follows its last `'.'`, or the whole name when it has
/// none (`file.split(".").last()`).
pub open spec fn extension(file: Seq<char>) -> Seq<char> {
    split_pieces(file, '.').last()
}

/// How many files of each extension `files` holds.
pub open spec fn file_type_counts(files: Seq<Seq<char>>) -> Seq<(Seq<char>, nat)> {
    tally(files.map_values(|f: Seq<char>| extension(f)))
}

pub open spec fn count_view(p: (String, usize)) -> (Seq<char>, nat) {
    (p.0@, p.1 as nat)
}

pub open spec fn count_views(v: Seq<(String, usize)>) -> Seq<(Seq<char>, nat)> {
    v.map_values(|p: (String, usize)| count_view(p))
}

/// Counts the files of `files` by extension, each extension once, in the order in which
/// its first file comes.
fn tally_extensions(files: &Vec<String>) -> (r: Vec<(String, usize)>)
    ensures
        count_views(r@) == file_type_counts(views(files@)),
        total(count_views(r@)) == files.len(),
{
    let ghost exts = views(files@).map_values(|f: Seq<char>| extension(f));
    let mut r: Vec<(String, usize)> = Vec::new();
    let mut i: usize = 0;
    proof {
        assert(exts.take(0) =~= Seq::<Seq<char>>::empty());
        assert(count_views(r@) =~= tally(exts.take(0)));
    }
    while i < files.len()
        invariant
            i <= files.len(),
            exts == views(files@).map_values(|f: Seq<char>| extension(f)),
            count_views(r@) == tally(exts.take(i as int)),
            total(count_views(r@)) == i,
            forall|k: int| 0 <= k < r.len() ==> #[trigger] r@[k].1 <= i,
        decreases files.len() - i,
    {
        let ext = last_piece(files[i].as_str(), '.');
        let ghost s = exts.take(i as int);
        let ghost t = count_views(r@);
        proof {
            assert(exts[i as int] == ext@);
            assert(exts.take(i + 1) =~= s.push(ext@));
            lemma_tally_push(s, ext@);
            lemma_distinct_no_duplicates(s);
        }
        let mut j: usize = 0;
        while j < r.len() && r[j].0 != ext
            invariant
                j <= r.len(),
                t == count_views(r@),
                forall|k: int| 0 <= k < j ==> (#[trigger] t[k]).0 != ext@,
            decreases r.len() - j,
        {
            j += 1;
        }
        let ghost d = distinct_in_order(s);
        proof {
            assert(d.len() == t.len());
            assert forall|k: int| 0 <= k < d.len() implies #[trigger] d[k] == t[k].0 by {}
        }
        if j < r.len() {
            proof {
                assert(d[j as int] == ext@);
                assert(d.contains(ext@));
                assert(d.index_of(ext@) == j) by {
                    let q = d.index_of(ext@);
                    assert(d[q] == ext@);
                }
            }
            let c = r[j].1;
            let key = r[j].0.clone();
            r.set(j, (key, c + 1));
            proof {
                assert(count_views(r@) =~= t.update(j as int, (ext@, t[j as int].1 + 1)));
                lemma_total_update(t, j as int, t[j as int].1 + 1);
            }
        } else {
            proof {
                assert(!d.contains(ext@)) by {
                    if d.contains(ext@) {
                        let q = d.index_of(ext@);
                        assert(t[q].0 == ext@);
                    }
                }
            }
            r.push((ext, 1));
            proof {
                assert(count_views(r@) =~= t.push((ext@, 1nat)));
                assert(count_views(r@).drop_last() =~= t);
            }
        }
        i += 1;
    }
    proof {
        assert(exts.take(files.len() as int) =~= exts);
    }
    r
}

/// How many files there are of each extension (what follows the last `'.'` of a path, or
/// the whole path when it has none): each extension once, in the order in which its first
/// file comes; the counts add up to the number of files.
pub fn summarize_file_types(files: Vec<String>) -> (r: Vec<(String, usize)>)
    ensures
        count_views(r@) == file_type_counts(views(files@)),
        total(count_views(r@)) == files.len(),
        forall|i: int, j: int| 0 <= i < j < r.len() ==> (#[trigger] r@[i]).0@ != (#[trigger] r@[j]).0@,
        forall|k: int|
            0 <= k < files.len() ==> exists|i: int|
                0 <= i < r.len() && (#[trigger] r@[i]).0@ == extension(#[trigger] files@[k]@),
{
    let r = tally_extensions(&files);
    proof {
        let exts = views(files@).map_values(|f: Seq<char>| extension(f));
        lemma_tally_keys(exts);
        assert forall|i: int, j: int| 0 <= i < j < r.len() implies (#[trigger] r@[i]).0@ != (
        #[trigger] r@[j]).0@ by {
            assert(count_views(r@)[i].0 == r@[i].0@);
            assert(count_views(r@)[j].0 == r@[j].0@);
        }
        assert forall|k: int| 0 <= k < files.len() implies exists|i: int|
            0 <= i < r.len() && (#[trigger] r@[i]).0@ == extension(#[trigger] files@[k]@) by {
            assert(exts[k] == extension(files@[k]@));
            assert(exts.contains(exts[k]));
            let i = choose|i: int| 0 <= i < tally(exts).len() && (#[trigger] tally(exts)[i]).0 == exts[k];
            assert(count_views(r@)[i].0 == r@[i].0@);
        }
    }
    r
}


/// The first entry of `entries` called `name`.
pub open spec fn named(entries: Seq<TreeEntry>, name: Seq<char>) -> Option<TreeEntry>
    decreases entries.len(),
{
    if entries.len() == 0 {
        None
    } else if entry_name(entries[0]) == name {
        Some(entries[0])
    } else {
        named(entries.drop_first(), name)
    }
}

/// The names along a path, as `Tree::get_path` reads it: the pieces between `'/'`, where a
/// single `'/'` at the end adds nothing.
pub open spec fn path_components(dir: Seq<char>) -> Seq<Seq<char>> {
    let p = split_pieces(dir, '/');
    if p.len() >= 2 && p.last().len() == 0 {
        p.drop_last()
    } else {
        p
    }
}

/// The entries of the directory reached from `entries` through the names `comps`; an
/// empty name, or a name that is missing or not a directory, reaches nothing.
pub open spec fn descend(entries: Seq<TreeEntry>, comps: Seq<Seq<char>>) -> Option<Seq<TreeEntry>>
    decreases comps.len(),
{
    if comps.len() == 0 {
        Some(entries)
    } else if comps[0].len() == 0 {
        None
    } else {
        match named(entries, comps[0]) {
            Some(TreeEntry::Tree { entries: sub, .. }) => descend(sub@, comps.drop_first()),
            _ => None,
        }
    }
}

/// The entries of the directory at `dir` in `tree`, if there is one.
pub open spec fn subtree(tree: Seq<TreeEntry>, dir: Seq<char>) -> Option<Seq<TreeEntry>> {
    descend(tree, path_components(dir))
}

/// The first entry of `entries` whose name is `name`.
fn find_named<'a>(entries: &'a Vec<TreeEntry>, name: &String) -> (r: Option<&'a TreeEntry>)
    ensures
        match r {
            Some(e) => named(entries@, name@) == Some(*e),
            None => named(entries@, name@) is None,
        },
{
    let mut i: usize = 0;
    proof {
        assert(entries@.skip(0) =~= entries@);
    }
    while i < entries.len()
        invariant
            i <= entries.len(),
            named(entries@, name@) == named(entries@.skip(i as int), name@),
        decreases entries.len() - i,
    {
        let e = &entries[i];
        let n = match e {
            TreeEntry::Blob { name } => name,
            TreeEntry::Tree { name, .. } => name,
            TreeEntry::Other { name } => name,
        };
        proof {
            assert(entries@.skip(i as int)[0] == entries@[i as int]);
            assert(entries@.skip(i as int).drop_first() =~= entries@.skip(i + 1));
        }
        if *n == *name {
            return Some(e);
        }
        i += 1;
    }
    None
}

/// The directory at `dir` in `tree`: `tree.get_path(dir)` when that is a directory.
pub fn find_subtree<'a>(tree: &'a Vec<TreeEntry>, dir: &str) -> (r: Option<&'a Vec<TreeEntry>>)
    ensures
        match r {
            Some(t) => subtree(tree@, dir@) == Some(t@),
            None => subtree(tree@, dir@) is None,
        },
{
    let mut comps = split_char(dir, '/');
    proof {
        crate::text::lemma_split_nonempty(dir@, '/');
    }
    let n0 = comps.len();
    if n0 >= 2 && comps[n0 - 1].as_str().unicode_len() == 0 {
        let ghost before = comps@;
        comps.pop();
        proof {
            assert(views(comps@) =~= views(before).drop_last());
        }
    }
    let ghost cv = views(comps@);
    let mut cur: &'a Vec<TreeEntry> = tree;
    let mut k: usize = 0;
    proof {
        assert(cv.skip(0) =~= cv);
    }
    while k < comps.len()
        invariant
            k <= comps.len(),
            cv == views(comps@),
            cv == path_components(dir@),
            subtree(tree@, dir@) == descend(cur@, cv.skip(k as int)),
        decreases comps.len() - k,
    {
        proof {
            assert(cv.skip(k as int)[0] == comps@[k as int]@);
            assert(cv.skip(k as int).drop_first() =~= cv.skip(k + 1));
        }
        if comps[k].as_str().unicode_len() == 0 {
            return None;
        }
        match find_named(cur, &comps[k]) {
            Some(TreeEntry::Tree { entries, .. }) => {
                cur = entries;
            },
            _ => {
                return None;
            },
        }
        k += 1;
    }
    Some(cur)
}

/// The summary text of extension counts: `"<ext>: <count> "` for each.
pub open spec fn type_summary_text(t: Seq<(Seq<char>, nat)>) -> Seq<char>
    decreases t.len(),
{
    if t.len() == 0 {
        Seq::empty()
    } else {
        type_summary_text(t.drop_last()) + t.last().0 + ": "@ + decimal(t.last().1) + " "@
    }
}

fn type_summary(counts: &Vec<(String, usize)>) -> (r: String)
    ensures
        r@ == type_summary_text(count_views(counts@)),
{
    let mut s = String::new();
    let mut i: usize = 0;
    while i < counts.len()
        invariant
            i <= counts.len(),
            s@ == type_summary_text(count_views(counts@).take(i as int)),
        decreases counts.len() - i,
    {
        proof {
            assert(count_views(counts@).take(i + 1).drop_last() =~= count_views(counts@).take(i as int));
        }
        push_all(&mut s, counts[i].0.as_str());
        push_all(&mut s, ": ");
        push_decimal(&mut s, counts[i].1);
        push_all(&mut s, " ");
        i += 1;
    }
    proof {
        assert(count_views(counts@).take(counts.len() as int) =~= count_views(counts@));
    }
    s
}

/// What is reported of one directory: how many files lie under it, and the text that
/// counts them by extension.
pub open spec fn dir_report(tree: Seq<TreeEntry>, dir: Seq<char>) -> (nat, Seq<char>) {
    let files = listing(subtree(tree, dir).unwrap(), dir, false);
    (files.len(), type_summary_text(file_type_counts(files)))
}

/// A directory whose name starts with `'.'`, which is passed over.
pub open spec fn is_dot_dir(dir: Seq<char>) -> bool {
    dir.len() > 0 && dir[0] == '.'
}

/// The report of the directory at position `i` of `dirs`, unless it is passed over: its
/// name starts with `'.'`, or it was named before (it is reported once, at its first place).
pub open spec fn dir_entry(tree: Seq<TreeEntry>, dirs: Seq<Seq<char>>, i: int) -> Option<
    (Seq<char>, (nat, Seq<char>)),
> {
    if is_dot_dir(dirs[i]) || dirs.take(i).contains(dirs[i]) {
        None
    } else {
        Some((dirs[i], dir_report(tree, dirs[i])))
    }
}

/// The reports of the directories of `dirs`, in order.
pub open spec fn dir_entries(tree: Seq<TreeEntry>, dirs: Seq<Seq<char>>) -> Seq<
    Option<(Seq<char>, (nat, Seq<char>))>,
> {
    Seq::new(dirs.len(), |i: int| dir_entry(tree, dirs, i))
}

pub open spec fn dir_view(p: (String, (usize, String))) -> (Seq<char>, (nat, Seq<char>)) {
    (p.0@, (p.1.0 as nat, p.1.1@))
}

pub open spec fn dir_views(v: Seq<(String, (usize, String))>) -> Seq<(Seq<char>, (nat, Seq<char>))> {
    v.map_values(|p: (String, (usize, String))| dir_view(p))
}

/// Every directory of `dirs` that is not passed over is a directory of `tree`.
pub open spec fn dirs_resolve(dirs: Seq<Seq<char>>, tree: Seq<TreeEntry>) -> bool {
    forall|i: int| 0 <= i < dirs.len() && !is_dot_dir(#[trigger] dirs[i]) ==> subtree(tree, dirs[i]) is Some
}

/// For each directory of `dirs` whose name does not start with `'.'`, in the order in
/// which each first comes, once: the directory, the number of files under it, and
/// `"<ext>: <count> "` for each extension of those files, in the order in which the
/// extensions first come. No directory is reported twice.
pub fn count_files_in_dirs(dirs: Vec<String>, tree: &Vec<TreeEntry>) -> (r: Vec<(String, (usize, String))>)
    requires
        dirs_resolve(views(dirs@), tree@),
    ensures
        dir_views(r@) == crate::reports::keep_some(dir_entries(tree@, views(dirs@))),
        forall|i: int, j: int| 0 <= i < j < r.len() ==> (#[trigger] r@[i]).0@ != (#[trigger] r@[j]).0@,
{
    let ghost dv = views(dirs@);
    let ghost entries = dir_entries(tree@, dv);
    let mut out: Vec<(String, (usize, String))> = Vec::new();
    let mut i: usize = 0;
    while i < dirs.len()
        invariant
            i <= dirs.len(),
            dv == views(dirs@),
            dirs_resolve(dv, tree@),
            entries == dir_entries(tree@, dv),
            dir_views(out@) == crate::reports::keep_some(entries.take(i as int)),
            forall|j: int, k: int| 0 <= j < k < out.len() ==> (#[trigger] out@[j]).0@ != (#[trigger] out@[k]).0@,
            forall|j: int| 0 <= j < out.len() ==> dv.take(i as int).contains(#[trigger] out@[j].0@),
        decreases dirs.len() - i,
    {
        proof {
            crate::reports::lemma_keep_some_step(entries, i as int);
            assert(dv[i as int] == dirs@[i as int]@);
            assert(entries[i as int] == dir_entry(tree@, dv, i as int));
            assert forall|j: int| 0 <= j < out.len() implies dv.take(i + 1).contains(#[trigger] out@[j].0@) by {
                let k = choose|k: int| 0 <= k < i && #[trigger] dv.take(i as int)[k] == out@[j].0@;
                assert(dv.take(i + 1)[k] == out@[j].0@);
            }
        }
        let dir = &dirs[i];
        let cs = crate::text::chars_of(dir.as_str());
        let mut seen = false;
        let mut k: usize = 0;
        while k < i
            invariant
                k <= i < dirs.len(),
                dv == views(dirs@),
                seen == dv.take(k as int).contains(dv[i as int]),
                dir@ == dv[i as int],
            decreases i - k,
        {
            proof {
                assert(dv.take(k + 1) =~= dv.take(k as int).push(dv[k as int]));
                if dv.take(k as int).contains(dv[i as int]) {
                    let t = choose|t: int| 0 <= t < k && #[trigger] dv.take(k as int)[t] == dv[i as int];
                    assert(dv.take(k + 1)[t] == dv[i as int]);
                }
                if dv.take(k + 1).contains(dv[i as int]) && dv[k as int] != dv[i as int] {
                    let t = choose|t: int| 0 <= t < k + 1 && #[trigger] dv.take(k + 1)[t] == dv[i as int];
                    assert(dv.take(k as int)[t] == dv[i as int]);
                }
                assert(dv.take(k + 1)[k as int] == dv[k as int]);
                assert(dv[k as int] == dirs@[k as int]@);
                if dv[k as int] == dv[i as int] {
                    assert(dv.take(k + 1).contains(dv[i as int]));
                }
            }
            if dirs[k] == *dir {
                seen = true;
            }
            k += 1;
        }
        if (cs.len() > 0 && cs[0] == '.') || seen {
        } else {
            let sub = find_subtree(tree, dir.as_str());
            let sub = sub.unwrap();
            let files = print_tree_entries(sub, dir.clone(), false);
            let counts = tally_extensions(&files);
            let s = type_summary(&counts);
            let item = (dir.clone(), (files.len(), s));
            proof {
                assert(dir_views(out@.push(item)) =~= dir_views(out@).push(dir_view(item)));
                assert forall|j: int| 0 <= j < out.len() implies out@[j].0@ != item.0@ by {
                    assert(dv.take(i as int).contains(out@[j].0@));
                }
                assert(dv.take(i + 1)[i as int] == item.0@);
            }
            out.push(item);
        }
        i += 1;
    }
    proof {
        assert(entries.take(dirs.len() as int) =~= entries);
    }
    out
}

/// The number of files reported for a directory is the sum of its counts by extension.
pub proof fn lemma_dir_report_adds_up(tree: Seq<TreeEntry>, dir: Seq<char>)
    ensures
        dir_report(tree, dir).0 == total(
            file_type_counts(listing(subtree(tree, dir).unwrap(), dir, false)),
        ),
{
    let files = listing(subtree(tree, dir).unwrap(), dir, false);
    lemma_tally_total(files.map_values(|f: Seq<char>| extension(f)));
}


/// The paths of the files in `entries`, relative to the directory that holds them.
pub open spec fn relative_files(entries: Seq<TreeEntry>) -> Seq<Seq<char>>
    decreases entries, 0nat,
{
    if entries.len() == 0 {
        Seq::empty()
    } else {
        relative_files(entries.drop_last()) + entry_files(entries[entries.len() - 1])
    }
}

/// The paths of the files that one entry holds, relative to the directory that holds it.
pub open spec fn entry_files(e: TreeEntry) -> Seq<Seq<char>>
    decreases e, 1nat,
{
    match e {
        TreeEntry::Blob { name } => seq![name@],
        TreeEntry::Tree { name, entries } => relative_files(entries@).map_values(
            |r: Seq<char>| name@ + seq!['/'] + r,
        ),
        TreeEntry::Other { .. } => Seq::empty(),
    }
}

/// The file listing under `path` is the relative file paths, each put under `path`.
proof fn lemma_listing_files(entries: Seq<TreeEntry>, path: Seq<char>)
    ensures
        listing(entries, path, false) == relative_files(entries).map_values(
            |r: Seq<char>| without_leading_slash(joined(path, r)),
        ),
    decreases entries, 0nat,
{
    if entries.len() > 0 {
        let e = entries[entries.len() - 1];
        assert(decreases_to!(entries => e));
        lemma_listing_files(entries.drop_last(), path);
        lemma_entry_listing_files(e, path);
        assert(listing(entries, path, false) =~= relative_files(entries).map_values(
            |r: Seq<char>| without_leading_slash(joined(path, r)),
        ));
    } else {
        assert(listing(entries, path, false) =~= relative_files(entries).map_values(
            |r: Seq<char>| without_leading_slash(joined(path, r)),
        ));
    }
}

proof fn lemma_entry_listing_files(e: TreeEntry, path: Seq<char>)
    ensures
        entry_listing(e, path, false) == entry_files(e).map_values(
            |r: Seq<char>| without_leading_slash(joined(path, r)),
        ),
    decreases e, 1nat,
{
    match e {
        TreeEntry::Blob { name } => {
            assert(entry_listing(e, path, false) =~= entry_files(e).map_values(
                |r: Seq<char>| without_leading_slash(joined(path, r)),
            ));
        },
        TreeEntry::Tree { name, entries } => {
            let d = joined(path, name@);
            lemma_listing_files(entries@, d);
            assert forall|r: Seq<char>| #[trigger] joined(d, r) == joined(path, name@ + seq!['/'] + r) by {
                assert(joined(d, r) =~= joined(path, name@ + seq!['/'] + r));
            }
            assert(entry_listing(e, path, false) =~= entry_files(e).map_values(
                |r: Seq<char>| without_leading_slash(joined(path, r)),
            ));
        },
        TreeEntry::Other { .. } => {
            assert(entry_listing(e, path, false) =~= entry_files(e).map_values(
                |r: Seq<char>| without_leading_slash(joined(path, r)),
            ));
        },
    }
}


/// Whether `p` begins with `q`.
pub open spec fn has_prefix(p: Seq<char>, q: Seq<char>) -> bool {
    q.len() <= p.len() && p.take(q.len() as int) == q
}

/// The paths of `paths` that begin with `q`, in order.
pub open spec fn with_prefix(paths: Seq<Seq<char>>, q: Seq<char>) -> Seq<Seq<char>> {
    keep_some(paths.map_values(|p: Seq<char>| if has_prefix(p, q) { Some(p) } else { None }))
}

/// What follows `q` in the paths of `paths` that begin with it, in order.
pub open spec fn after_prefix(paths: Seq<Seq<char>>, q: Seq<char>) -> Seq<Seq<char>> {
    keep_some(
        paths.map_values(
            |p: Seq<char>| if has_prefix(p, q) { Some(p.skip(q.len() as int)) } else { None },
        ),
    )
}

/// `keep_some` of a sequence with one more element.
proof fn lemma_keep_some_push<A>(s: Seq<Option<A>>, x: Option<A>)
    ensures
        keep_some(s.push(x)) == (match x {
            Some(a) => keep_some(s).push(a),
            None => keep_some(s),
        }),
{
    assert(s.push(x).drop_last() =~= s);
}

proof fn lemma_with_prefix_push(paths: Seq<Seq<char>>, p: Seq<char>, q: Seq<char>)
    ensures
        with_prefix(paths.push(p), q) == if has_prefix(p, q) {
            with_prefix(paths, q).push(p)
        } else {
            with_prefix(paths, q)
        },
        after_prefix(paths.push(p), q) == if has_prefix(p, q) {
            after_prefix(paths, q).push(p.skip(q.len() as int))
        } else {
            after_prefix(paths, q)
        },
{
    let f = |p: Seq<char>| if has_prefix(p, q) { Some(p) } else { None };
    let g = |p: Seq<char>| if has_prefix(p, q) { Some(p.skip(q.len() as int)) } else { None };
    assert(paths.push(p).map_values(f) =~= paths.map_values(f).push(f(p)));
    assert(paths.push(p).map_values(g) =~= paths.map_values(g).push(g(p)));
    lemma_keep_some_push(paths.map_values(f), f(p));
    lemma_keep_some_push(paths.map_values(g), g(p));
}

/// Keeping what begins with `q` splits over a concatenation.
proof fn lemma_prefix_concat(a: Seq<Seq<char>>, b: Seq<Seq<char>>, q: Seq<char>)
    ensures
        with_prefix(a + b, q) == with_prefix(a, q) + with_prefix(b, q),
        after_prefix(a + b, q) == after_prefix(a, q) + after_prefix(b, q),
    decreases b.len(),
{
    if b.len() == 0 {
        assert(a + b =~= a);
        assert(with_prefix(b, q) =~= Seq::<Seq<char>>::empty());
        assert(after_prefix(b, q) =~= Seq::<Seq<char>>::empty());
        assert(with_prefix(a, q) + with_prefix(b, q) =~= with_prefix(a, q));
        assert(after_prefix(a, q) + after_prefix(b, q) =~= after_prefix(a, q));
    } else {
        let b0 = b.drop_last();
        let x = b.last();
        lemma_prefix_concat(a, b0, q);
        assert(a + b =~= (a + b0).push(x));
        assert(b =~= b0.push(x));
        lemma_with_prefix_push(a + b0, x, q);
        lemma_with_prefix_push(b0, x, q);
        if has_prefix(x, q) {
            assert(with_prefix(a, q) + with_prefix(b0, q).push(x) =~= (with_prefix(a, q) + with_prefix(
                b0,
                q,
            )).push(x));
            assert(after_prefix(a, q) + after_prefix(b0, q).push(x.skip(q.len() as int)) =~= (
            after_prefix(a, q) + after_prefix(b0, q)).push(x.skip(q.len() as int)));
        }
    }
}

/// The paths under `q` are `q` followed by what comes after it.
proof fn lemma_with_after(paths: Seq<Seq<char>>, q: Seq<char>)
    ensures
        with_prefix(paths, q) == after_prefix(paths, q).map_values(|r: Seq<char>| q + r),
    decreases paths.len(),
{
    if paths.len() == 0 {
        assert(with_prefix(paths, q) =~= after_prefix(paths, q).map_values(|r: Seq<char>| q + r));
    } else {
        let p0 = paths.drop_last();
        let x = paths.last();
        assert(paths =~= p0.push(x));
        lemma_with_after(p0, q);
        lemma_with_prefix_push(p0, x, q);
        if has_prefix(x, q) {
            assert(q + x.skip(q.len() as int) =~= x);
            assert(after_prefix(p0, q).push(x.skip(q.len() as int)).map_values(|r: Seq<char>| q + r)
                =~= after_prefix(p0, q).map_values(|r: Seq<char>| q + r).push(q + x.skip(q.len() as int)));
        }
    }
}

/// Putting `a` in front of every path shifts the prefixes by `a`.
proof fn lemma_prefix_shift(paths: Seq<Seq<char>>, a: Seq<char>, q: Seq<char>)
    ensures
        with_prefix(paths.map_values(|r: Seq<char>| a + r), a + q) == with_prefix(paths, q).map_values(
            |r: Seq<char>| a + r,
        ),
        after_prefix(paths.map_values(|r: Seq<char>| a + r), a + q) == after_prefix(paths, q),
    decreases paths.len(),
{
    let m = paths.map_values(|r: Seq<char>| a + r);
    if paths.len() == 0 {
        assert(with_prefix(m, a + q) =~= with_prefix(paths, q).map_values(|r: Seq<char>| a + r));
        assert(after_prefix(m, a + q) =~= after_prefix(paths, q));
    } else {
        let p0 = paths.drop_last();
        let x = paths.last();
        assert(paths =~= p0.push(x));
        assert(m =~= p0.map_values(|r: Seq<char>| a + r).push(a + x));
        lemma_prefix_shift(p0, a, q);
        lemma_with_prefix_push(p0.map_values(|r: Seq<char>| a + r), a + x, a + q);
        lemma_with_prefix_push(p0, x, q);
        assert(has_prefix(a + x, a + q) == has_prefix(x, q)) by {
            if has_prefix(x, q) {
                assert((a + x).take((a + q).len() as int) =~= a + q);
            }
            if has_prefix(a + x, a + q) {
                assert((a + x).take((a + q).len() as int) == a + q);
                assert(x.take(q.len() as int) =~= (a + x).take((a + q).len() as int).skip(a.len() as int));
                assert((a + q).skip(a.len() as int) =~= q);
            }
        }
        if has_prefix(x, q) {
            assert((a + x).skip((a + q).len() as int) =~= x.skip(q.len() as int));
            assert(with_prefix(p0, q).push(x).map_values(|r: Seq<char>| a + r) =~= with_prefix(
                p0,
                q,
            ).map_values(|r: Seq<char>| a + r).push(a + x));
        }
    }
}

/// Keeping what begins with `a + q` after keeping what begins with `a` keeps the same.
proof fn lemma_prefix_nested(paths: Seq<Seq<char>>, a: Seq<char>, q: Seq<char>)
    ensures
        with_prefix(with_prefix(paths, a), a + q) == with_prefix(paths, a + q),
    decreases paths.len(),
{
    if paths.len() == 0 {
        assert(with_prefix(with_prefix(paths, a), a + q) =~= with_prefix(paths, a + q));
    } else {
        let p0 = paths.drop_last();
        let x = paths.last();
        assert(paths =~= p0.push(x));
        lemma_prefix_nested(p0, a, q);
        lemma_with_prefix_push(p0, x, a);
        lemma_with_prefix_push(p0, x, a + q);
        if has_prefix(x, a) {
            lemma_with_prefix_push(with_prefix(p0, a), x, a + q);
        } else {
            assert(!has_prefix(x, a + q)) by {
                if has_prefix(x, a + q) {
                    assert(x.take((a + q).len() as int) == a + q);
                    assert(x.take(a.len() as int) =~= x.take((a + q).len() as int).take(a.len() as int));
                    assert((a + q).take(a.len() as int) =~= a);
                }
            }
        }
    }
}


/// A name as git gives it: not empty, and without `'/'`.
pub open spec fn valid_name(n: Seq<char>) -> bool {
    n.len() > 0 && !n.contains('/')
}

/// A tree as git gives it: in every directory the names are valid and no two are equal.
pub open spec fn well_formed(entries: Seq<TreeEntry>) -> bool
    decreases entries, 0nat,
{
    if entries.len() == 0 {
        true
    } else {
        let e = entries[entries.len() - 1];
        &&& well_formed(entries.drop_last())
        &&& entry_well_formed(e)
        &&& named(entries.drop_last(), entry_name(e)) is None
    }
}

/// An entry as git gives it: a valid name and, for a directory, well-formed contents.
pub open spec fn entry_well_formed(e: TreeEntry) -> bool
    decreases e, 1nat,
{
    &&& valid_name(entry_name(e))
    &&& match e {
        TreeEntry::Tree { entries, .. } => well_formed(entries@),
        _ => true,
    }
}

proof fn lemma_named_push(entries: Seq<TreeEntry>, e: TreeEntry, c: Seq<char>)
    ensures
        named(entries.push(e), c) == if named(entries, c) is Some {
            named(entries, c)
        } else if entry_name(e) == c {
            Some(e)
        } else {
            None
        },
    decreases entries.len(),
{
    let s = entries.push(e);
    if entries.len() > 0 {
        assert(s.drop_first() =~= entries.drop_first().push(e));
        assert(s[0] == entries[0]);
        lemma_named_push(entries.drop_first(), e, c);
        if entry_name(entries[0]) != c {
            assert(named(s, c) == named(s.drop_first(), c));
            assert(named(entries, c) == named(entries.drop_first(), c));
        }
    } else {
        assert(s.drop_first() =~= Seq::<TreeEntry>::empty());
        assert(s[0] == e);
        assert(named(s.drop_first(), c) is None);
    }
}

proof fn lemma_after_prefix_none(paths: Seq<Seq<char>>, q: Seq<char>)
    requires
        forall|i: int| 0 <= i < paths.len() ==> !has_prefix(#[trigger] paths[i], q),
    ensures
        after_prefix(paths, q) == Seq::<Seq<char>>::empty(),
    decreases paths.len(),
{
    if paths.len() > 0 {
        let p0 = paths.drop_last();
        assert(paths =~= p0.push(paths.last()));
        assert(!has_prefix(paths[paths.len() - 1], q));
        lemma_after_prefix_none(p0, q);
        lemma_with_prefix_push(p0, paths.last(), q);
    } else {
        assert(after_prefix(paths, q) =~= Seq::<Seq<char>>::empty());
    }
}

proof fn lemma_after_empty_prefix(paths: Seq<Seq<char>>)
    ensures
        after_prefix(paths, Seq::<char>::empty()) == paths,
    decreases paths.len(),
{
    let q = Seq::<char>::empty();
    if paths.len() > 0 {
        let p0 = paths.drop_last();
        let x = paths.last();
        assert(paths =~= p0.push(x));
        lemma_after_empty_prefix(p0);
        lemma_with_prefix_push(p0, x, q);
        assert(has_prefix(x, q)) by {
            assert(x.take(0) =~= q);
        }
        assert(x.skip(0) =~= x);
    } else {
        assert(after_prefix(paths, q) =~= paths);
    }
}

/// A path that starts with another valid name does not start with `c/`.
proof fn lemma_names_disjoint(n: Seq<char>, c: Seq<char>, r: Seq<char>)
    requires
        valid_name(n),
        valid_name(c),
        n != c,
    ensures
        !has_prefix(n + seq!['/'] + r, c + seq!['/']),
        !has_prefix(n, c + seq!['/']),
{
    let q = c + seq!['/'];
    let x = n + seq!['/'] + r;
    if has_prefix(x, q) {
        assert(x.take(q.len() as int) == q);
        if n.len() > c.len() {
            assert(x[c.len() as int] == n[c.len() as int]);
            assert(x.take(q.len() as int)[c.len() as int] == '/');
            assert(n.contains('/'));
        } else if n.len() < c.len() {
            assert(x[n.len() as int] == '/');
            assert(x.take(q.len() as int)[n.len() as int] == c[n.len() as int]);
            assert(c.contains('/'));
        } else {
            assert forall|i: int| 0 <= i < n.len() implies n[i] == c[i] by {
                assert(x[i] == n[i]);
                assert(x.take(q.len() as int)[i] == q[i]);
            }
            assert(n =~= c);
        }
    }
    if has_prefix(n, q) {
        assert(n.take(q.len() as int) == q);
        assert(n.take(q.len() as int)[c.len() as int] == '/');
        assert(n.contains('/'));
    }
}

/// In a well-formed tree, the files under the name `c`, without `c/` in front, are the
/// files of the directory called `c`, and there are none when it is not a directory.
proof fn lemma_files_under_name(entries: Seq<TreeEntry>, c: Seq<char>)
    requires
        well_formed(entries),
        valid_name(c),
    ensures
        after_prefix(relative_files(entries), c + seq!['/']) == match named(entries, c) {
            Some(TreeEntry::Tree { entries: sub, .. }) => relative_files(sub@),
            _ => Seq::<Seq<char>>::empty(),
        },
    decreases entries.len(),
{
    let q = c + seq!['/'];
    if entries.len() == 0 {
        assert(after_prefix(relative_files(entries), q) =~= Seq::<Seq<char>>::empty());
    } else {
        let e0 = entries.drop_last();
        let e = entries[entries.len() - 1];
        assert(entries =~= e0.push(e));
        lemma_files_under_name(e0, c);
        lemma_prefix_concat(relative_files(e0), entry_files(e), q);
        lemma_named_push(e0, e, c);
        let n = entry_name(e);
        assert(entry_well_formed(e));
        assert(valid_name(n));
        if n == c {
            match e {
                TreeEntry::Tree { name, entries: sub } => {
                    lemma_prefix_shift(relative_files(sub@), q, Seq::<char>::empty());
                    lemma_after_empty_prefix(relative_files(sub@));
                    assert(q + Seq::<char>::empty() =~= q);
                    assert(entry_files(e) =~= relative_files(sub@).map_values(|r: Seq<char>| q + r));
                    assert(relative_files(sub@) =~= Seq::<Seq<char>>::empty() + relative_files(sub@));
                },
                TreeEntry::Blob { name } => {
                    lemma_with_prefix_push(Seq::<Seq<char>>::empty(), c, q);
                    assert(entry_files(e) =~= Seq::<Seq<char>>::empty().push(c));
                    assert(after_prefix(Seq::<Seq<char>>::empty(), q) =~= Seq::<Seq<char>>::empty());
                    assert(Seq::<Seq<char>>::empty() + Seq::<Seq<char>>::empty() =~= Seq::<Seq<char>>::empty());
                },
                TreeEntry::Other { .. } => {
                    assert(after_prefix(entry_files(e), q) =~= Seq::<Seq<char>>::empty());
                    assert(Seq::<Seq<char>>::empty() + Seq::<Seq<char>>::empty() =~= Seq::<Seq<char>>::empty());
                },
            }
        } else {
            assert(after_prefix(entry_files(e), q) == Seq::<Seq<char>>::empty()) by {
                match e {
                    TreeEntry::Tree { name, entries: sub } => {
                        assert forall|i: int| 0 <= i < entry_files(e).len() implies !has_prefix(
                            #[trigger] entry_files(e)[i],
                            q,
                        ) by {
                            lemma_names_disjoint(n, c, relative_files(sub@)[i]);
                        }
                        lemma_after_prefix_none(entry_files(e), q);
                    },
                    TreeEntry::Blob { name } => {
                        lemma_names_disjoint(n, c, Seq::<char>::empty());
                        assert forall|i: int| 0 <= i < entry_files(e).len() implies !has_prefix(
                            #[trigger] entry_files(e)[i],
                            q,
                        ) by {}
                        lemma_after_prefix_none(entry_files(e), q);
                    },
                    TreeEntry::Other { .. } => {
                        assert(after_prefix(entry_files(e), q) =~= Seq::<Seq<char>>::empty());
                    },
                }
            }
            assert(after_prefix(relative_files(e0), q) + Seq::<Seq<char>>::empty() =~= after_prefix(
                relative_files(e0),
                q,
            ));
        }
    }
}


/// The path made of the names `comps`, with `'/'` between them.
pub open spec fn join_names(comps: Seq<Seq<char>>) -> Seq<char>
    decreases comps.len(),
{
    if comps.len() == 0 {
        Seq::empty()
    } else if comps.len() == 1 {
        comps[0]
    } else {
        join_names(comps.drop_last()) + seq!['/'] + comps.last()
    }
}

pub proof fn lemma_split_single(b: Seq<char>, sep: char)
    requires
        !b.contains(sep),
    ensures
        split_pieces(b, sep) == seq![b],
    decreases b.len(),
{
    if b.len() > 0 {
        let b0 = b.drop_last();
        assert(!b0.contains(sep)) by {
            if b0.contains(sep) {
                let k = choose|k: int| 0 <= k < b0.len() && b0[k] == sep;
                assert(b[k] == sep);
            }
        }
        assert(b[b.len() - 1] != sep);
        lemma_split_single(b0, sep);
        assert(b0.push(b.last()) =~= b);
        assert(seq![b0].update(0, b0.push(b.last())) =~= seq![b]);
    } else {
        assert(b =~= Seq::<char>::empty());
    }
}

proof fn lemma_split_join(a: Seq<char>, b: Seq<char>, sep: char)
    requires
        !b.contains(sep),
    ensures
        split_pieces(a + seq![sep] + b, sep) == split_pieces(a, sep).push(b),
    decreases b.len(),
{
    if b.len() == 0 {
        assert(a + seq![sep] + b =~= a.push(sep));
        assert((a + seq![sep] + b).drop_last() =~= a);
        assert(b =~= Seq::<char>::empty());
    } else {
        let b0 = b.drop_last();
        assert(!b0.contains(sep)) by {
            if b0.contains(sep) {
                let k = choose|k: int| 0 <= k < b0.len() && b0[k] == sep;
                assert(b[k] == sep);
            }
        }
        assert(b[b.len() - 1] != sep);
        lemma_split_join(a, b0, sep);
        assert((a + seq![sep] + b).drop_last() =~= a + seq![sep] + b0);
        assert((a + seq![sep] + b).last() == b.last());
        let p = split_pieces(a, sep);
        assert(b0.push(b.last()) =~= b);
        assert(p.push(b0).update(p.len() as int, b0.push(b.last())) =~= p.push(b));
    }
}

proof fn lemma_join_names_pieces(comps: Seq<Seq<char>>)
    requires
        comps.len() >= 1,
        forall|i: int| 0 <= i < comps.len() ==> valid_name(#[trigger] comps[i]),
    ensures
        split_pieces(join_names(comps), '/') == comps,
        path_components(join_names(comps)) == comps,
        has_prefix(join_names(comps), comps[0]),
    decreases comps.len(),
{
    if comps.len() == 1 {
        assert(valid_name(comps[0]));
        lemma_split_single(comps[0], '/');
        assert(seq![comps[0]] =~= comps);
        assert(comps[0].take(comps[0].len() as int) =~= comps[0]);
    } else {
        let c0 = comps.drop_last();
        assert(forall|i: int| 0 <= i < c0.len() ==> valid_name(#[trigger] c0[i]) ) by {
            assert forall|i: int| 0 <= i < c0.len() implies valid_name(#[trigger] c0[i]) by {
                assert(c0[i] == comps[i]);
            }
        }
        lemma_join_names_pieces(c0);
        assert(valid_name(comps[comps.len() - 1]));
        lemma_split_join(join_names(c0), comps.last(), '/');
        assert(c0.push(comps.last()) =~= comps);
        let d0 = join_names(c0);
        let d = join_names(comps);
        assert(d == d0 + seq!['/'] + comps.last());
        assert(d.take(comps[0].len() as int) =~= d0.take(comps[0].len() as int));
    }
}

proof fn lemma_descend_push(entries: Seq<TreeEntry>, comps: Seq<Seq<char>>, c: Seq<char>)
    ensures
        descend(entries, comps.push(c)) == match descend(entries, comps) {
            Some(s) => descend(s, seq![c]),
            None => None,
        },
    decreases comps.len(),
{
    if comps.len() == 0 {
        assert(comps.push(c) =~= seq![c]);
    } else {
        assert(comps.push(c).drop_first() =~= comps.drop_first().push(c));
        assert(comps.push(c)[0] == comps[0]);
        match named(entries, comps[0]) {
            Some(TreeEntry::Tree { entries: sub, .. }) => {
                lemma_descend_push(sub@, comps.drop_first(), c);
            },
            _ => {},
        }
    }
}

proof fn lemma_named_well_formed(entries: Seq<TreeEntry>, c: Seq<char>)
    requires
        well_formed(entries),
        named(entries, c) is Some,
    ensures
        entry_well_formed(named(entries, c).unwrap()),
    decreases entries.len(),
{
    let e0 = entries.drop_last();
    let e = entries[entries.len() - 1];
    assert(entries =~= e0.push(e));
    lemma_named_push(e0, e, c);
    if named(e0, c) is Some {
        lemma_named_well_formed(e0, c);
    }
}

/// The files of a well-formed tree that lie under the directory reached by `comps` are
/// that directory's files, under its path.
proof fn lemma_files_within(tree: Seq<TreeEntry>, comps: Seq<Seq<char>>)
    requires
        well_formed(tree),
        comps.len() >= 1,
        forall|i: int| 0 <= i < comps.len() ==> valid_name(#[trigger] comps[i]),
        descend(tree, comps) is Some,
    ensures
        with_prefix(relative_files(tree), join_names(comps) + seq!['/']) == relative_files(
            descend(tree, comps).unwrap(),
        ).map_values(|r: Seq<char>| join_names(comps) + seq!['/'] + r),
        well_formed(descend(tree, comps).unwrap()),
    decreases comps.len(),
{
    let d = join_names(comps);
    let q = d + seq!['/'];
    if comps.len() == 1 {
        let c = comps[0];
        assert(valid_name(c));
        lemma_with_after(relative_files(tree), q);
        lemma_files_under_name(tree, c);
        lemma_named_well_formed(tree, c);
        match named(tree, c) {
            Some(TreeEntry::Tree { entries: sub, .. }) => {
                assert(comps.drop_first() =~= Seq::<Seq<char>>::empty());
                assert(descend(sub@, Seq::<Seq<char>>::empty()) == Some(sub@));
                assert(descend(tree, comps) == descend(sub@, comps.drop_first()));
                assert(descend(tree, comps) == Some(sub@));
            },
            _ => {},
        }
    } else {
        let c0 = comps.drop_last();
        let c = comps.last();
        assert(c0.push(c) =~= comps);
        assert(forall|i: int| 0 <= i < c0.len() ==> valid_name(#[trigger] c0[i])) by {
            assert forall|i: int| 0 <= i < c0.len() implies valid_name(#[trigger] c0[i]) by {
                assert(c0[i] == comps[i]);
            }
        }
        assert(valid_name(comps[comps.len() - 1]));
        lemma_descend_push(tree, c0, c);
        let s0 = descend(tree, c0).unwrap();
        lemma_files_within(tree, c0);
        let d0 = join_names(c0);
        let a = d0 + seq!['/'];
        let cq = c + seq!['/'];
        assert(q =~= a + cq);
        lemma_prefix_nested(relative_files(tree), a, cq);
        lemma_prefix_shift(relative_files(s0), a, cq);
        lemma_with_after(relative_files(s0), cq);
        lemma_files_under_name(s0, c);
        lemma_named_well_formed(s0, c);
        match named(s0, c) {
            Some(TreeEntry::Tree { entries: sub, .. }) => {
                let one = seq![c];
                assert(one.drop_first() =~= Seq::<Seq<char>>::empty());
                assert(one[0] == c);
                assert(descend(sub@, Seq::<Seq<char>>::empty()) == Some(sub@));
                assert(descend(s0, one) == descend(sub@, one.drop_first()));
                assert(descend(s0, one) == Some(sub@));
                assert(descend(tree, comps) == Some(sub@));
                let rf = relative_files(sub@);
                let m1 = rf.map_values(|r: Seq<char>| cq + r).map_values(|r: Seq<char>| a + r);
                let m2 = rf.map_values(|r: Seq<char>| q + r);
                assert forall|i: int| 0 <= i < m1.len() implies m1[i] == m2[i] by {
                    assert(a + (cq + rf[i]) =~= q + rf[i]);
                }
                assert(m1 =~= m2);
            },
            _ => {},
        }
    }
}

/// In a well-formed tree, the files that `count_files_in_dirs` counts for the directory
/// at a path of valid names are exactly the files of the whole listing that lie under
/// that path, in the same order.
pub proof fn lemma_dir_files_in_listing(tree: Seq<TreeEntry>, comps: Seq<Seq<char>>)
    requires
        well_formed(tree),
        comps.len() >= 1,
        forall|i: int| 0 <= i < comps.len() ==> valid_name(#[trigger] comps[i]),
        descend(tree, comps) is Some,
    ensures
        ({
            let d = join_names(comps);
            let under = with_prefix(listing(tree, Seq::empty(), false), d + seq!['/']);
            &&& subtree(tree, d) == descend(tree, comps)
            &&& listing(subtree(tree, d).unwrap(), d, false) == under
            &&& dir_report(tree, d).0 == under.len()
        }),
{
    let d = join_names(comps);
    lemma_join_names_pieces(comps);
    lemma_files_within(tree, comps);
    lemma_listing_files(tree, Seq::empty());
    let s = descend(tree, comps).unwrap();
    lemma_listing_files(s, d);
    assert(valid_name(comps[0]));
    assert(d[0] == comps[0][0]) by {
        assert(d.take(comps[0].len() as int)[0] == comps[0][0]);
    }
    assert(d[0] != '/') by {
        if d[0] == '/' {
            assert(comps[0].contains('/'));
        }
    }
    assert forall|r: Seq<char>| without_leading_slash(#[trigger] joined(Seq::<char>::empty(), r)) == r by {
        assert(joined(Seq::<char>::empty(), r).drop_first() =~= r);
    }
    assert(listing(tree, Seq::empty(), false) =~= relative_files(tree));
    assert forall|r: Seq<char>| without_leading_slash(#[trigger] joined(d, r)) == d + seq!['/'] + r by {
    }
    assert(listing(s, d, false) =~= relative_files(s).map_values(|r: Seq<char>| d + seq!['/'] + r));
}


/// The paths of the directories in `entries`, relative to the directory that holds them.
pub open spec fn relative_dirs(entries: Seq<TreeEntry>) -> Seq<Seq<char>>
    decreases entries, 0nat,
{
    if entries.len() == 0 {
        Seq::empty()
    } else {
        relative_dirs(entries.drop_last()) + entry_dirs(entries[entries.len() - 1])
    }
}

/// The paths of the directories that one entry holds, itself first, relative to the
/// directory that holds it.
pub open spec fn entry_dirs(e: TreeEntry) -> Seq<Seq<char>>
    decreases e, 1nat,
{
    match e {
        TreeEntry::Tree { name, entries } => seq![name@] + relative_dirs(entries@).map_values(
            |r: Seq<char>| name@ + seq!['/'] + r,
        ),
        _ => Seq::empty(),
    }
}

proof fn lemma_listing_dirs(entries: Seq<TreeEntry>, path: Seq<char>)
    ensures
        listing(entries, path, true) == relative_dirs(entries).map_values(
            |r: Seq<char>| without_leading_slash(joined(path, r)),
        ),
    decreases entries, 0nat,
{
    if entries.len() > 0 {
        let e = entries[entries.len() - 1];
        assert(decreases_to!(entries => e));
        lemma_listing_dirs(entries.drop_last(), path);
        lemma_entry_listing_dirs(e, path);
    }
    assert(listing(entries, path, true) =~= relative_dirs(entries).map_values(
        |r: Seq<char>| without_leading_slash(joined(path, r)),
    ));
}

proof fn lemma_entry_listing_dirs(e: TreeEntry, path: Seq<char>)
    ensures
        entry_listing(e, path, true) == entry_dirs(e).map_values(
            |r: Seq<char>| without_leading_slash(joined(path, r)),
        ),
    decreases e, 1nat,
{
    match e {
        TreeEntry::Tree { name, entries } => {
            let d = joined(path, name@);
            lemma_listing_dirs(entries@, d);
            assert forall|r: Seq<char>| #[trigger] joined(d, r) == joined(path, name@ + seq!['/'] + r) by {
                assert(joined(d, r) =~= joined(path, name@ + seq!['/'] + r));
            }
        },
        _ => {},
    }
    assert(entry_listing(e, path, true) =~= entry_dirs(e).map_values(
        |r: Seq<char>| without_leading_slash(joined(path, r)),
    ));
}

proof fn lemma_split_prepend(n: Seq<char>, x: Seq<char>)
    requires
        !n.contains('/'),
    ensures
        split_pieces(n + seq!['/'] + x, '/') == seq![n] + split_pieces(x, '/'),
    decreases x.len(),
{
    lemma_split_single(n, '/');
    if x.len() == 0 {
        lemma_split_join(n, x, '/');
        assert(seq![n].push(x) =~= seq![n] + split_pieces(x, '/'));
    } else {
        let y = x.drop_last();
        lemma_split_prepend(n, y);
        assert((n + seq!['/'] + x).drop_last() =~= n + seq!['/'] + y);
        assert((n + seq!['/'] + x).last() == x.last());
        crate::text::lemma_split_nonempty(y, '/');
        let py = split_pieces(y, '/');
        if x.last() == '/' {
            assert((seq![n] + py).push(Seq::<char>::empty()) =~= seq![n] + py.push(Seq::<char>::empty()));
        } else {
            assert((seq![n] + py).update(py.len() as int, py.last().push(x.last())) =~= seq![n] + py.update(
                py.len() - 1,
                py.last().push(x.last()),
            ));
        }
    }
}

/// Whether `x` is a path of valid names that leads to a directory of `entries`.
pub open spec fn reaches_dir(entries: Seq<TreeEntry>, x: Seq<char>) -> bool {
    &&& forall|i: int| 0 <= i < split_pieces(x, '/').len() ==> valid_name(#[trigger] split_pieces(x, '/')[i])
    &&& descend(entries, split_pieces(x, '/')) is Some
}

proof fn lemma_descend_push_entry(entries: Seq<TreeEntry>, e: TreeEntry, comps: Seq<Seq<char>>)
    requires
        comps.len() >= 1,
        named(entries, comps[0]) is Some,
    ensures
        descend(entries.push(e), comps) == descend(entries, comps),
{
    lemma_named_push(entries, e, comps[0]);
}

proof fn lemma_reach_kept(e0: Seq<TreeEntry>, e: TreeEntry, x: Seq<char>)
    requires
        reaches_dir(e0, x),
    ensures
        reaches_dir(e0.push(e), x),
{
    let comps = split_pieces(x, '/');
    crate::text::lemma_split_nonempty(x, '/');
    assert(valid_name(comps[0]));
    assert(named(e0, comps[0]) is Some);
    lemma_descend_push_entry(e0, e, comps);
}

proof fn lemma_reach_new_dir(e0: Seq<TreeEntry>, e: TreeEntry)
    requires
        well_formed(e0.push(e)),
        e is Tree,
    ensures
        reaches_dir(e0.push(e), entry_name(e)),
{
    let entries = e0.push(e);
    assert(entries.drop_last() =~= e0);
    assert(entries[entries.len() - 1] == e);
    assert(entry_well_formed(e));
    let n = entry_name(e);
    lemma_named_push(e0, e, n);
    lemma_split_single(n, '/');
    let one = seq![n];
    assert(one.drop_first() =~= Seq::<Seq<char>>::empty());
    assert(one[0] == n);
    match e {
        TreeEntry::Tree { entries: sub, .. } => {
            assert(descend(sub@, Seq::<Seq<char>>::empty()) is Some);
            assert(descend(entries, one) == descend(sub@, one.drop_first()));
        },
        _ => {},
    }
}

proof fn lemma_reach_inner_dir(e0: Seq<TreeEntry>, e: TreeEntry, r: Seq<char>)
    requires
        well_formed(e0.push(e)),
        e is Tree,
        reaches_dir(e->Tree_entries@, r),
    ensures
        reaches_dir(e0.push(e), entry_name(e) + seq!['/'] + r),
{
    let entries = e0.push(e);
    assert(entries.drop_last() =~= e0);
    assert(entries[entries.len() - 1] == e);
    assert(entry_well_formed(e));
    let n = entry_name(e);
    lemma_named_push(e0, e, n);
    lemma_split_prepend(n, r);
    let rest = split_pieces(r, '/');
    let comps = seq![n] + rest;
    assert(comps.drop_first() =~= rest);
    assert(comps[0] == n);
    assert(descend(entries, comps) == descend(e->Tree_entries@, comps.drop_first()));
    assert forall|j: int| 0 <= j < comps.len() implies valid_name(#[trigger] comps[j]) by {
        if j > 0 {
            assert(comps[j] == rest[j - 1]);
        }
    }
}

proof fn lemma_relative_dirs_reach(entries: Seq<TreeEntry>)
    requires
        well_formed(entries),
    ensures
        forall|i: int|
            0 <= i < relative_dirs(entries).len() ==> reaches_dir(
                entries,
                #[trigger] relative_dirs(entries)[i],
            ),
    decreases entries,
{
    if entries.len() > 0 {
        let e0 = entries.drop_last();
        let e = entries[entries.len() - 1];
        assert(entries =~= e0.push(e));
        assert(decreases_to!(entries => e0));
        lemma_relative_dirs_reach(e0);
        let rd = relative_dirs(entries);
        let rd0 = relative_dirs(e0);
        let ed = entry_dirs(e);
        assert(rd =~= rd0 + ed);
        assert(entry_well_formed(e));
        if e is Tree {
            let sub = e->Tree_entries@;
            assert(decreases_to!(entries => e));
            assert(decreases_to!(e => e->Tree_entries));
            assert(decreases_to!(e->Tree_entries => sub));
            assert(decreases_to!(entries => sub));
            lemma_relative_dirs_reach(sub);
        }
        assert forall|i: int| 0 <= i < rd.len() implies reaches_dir(entries, #[trigger] rd[i]) by {
            if i < rd0.len() {
                assert(rd[i] == rd0[i]);
                lemma_reach_kept(e0, e, rd0[i]);
            } else {
                let k = i - rd0.len();
                assert(rd[i] == ed[k]);
                if k == 0 {
                    lemma_reach_new_dir(e0, e);
                } else {
                    let r = relative_dirs(e->Tree_entries@)[k - 1];
                    assert(ed[k] == entry_name(e) + seq!['/'] + r);
                    lemma_reach_inner_dir(e0, e, r);
                }
            }
        }
    }
}

/// In a well-formed tree, every directory that the listing of directories names can be
/// looked up: the directory listing always meets what `count_files_in_dirs` asks.
pub proof fn lemma_listed_dirs_resolve(tree: Seq<TreeEntry>)
    requires
        well_formed(tree),
    ensures
        dirs_resolve(listing(tree, Seq::empty(), true), tree),
{
    lemma_listing_dirs(tree, Seq::empty());
    assert forall|r: Seq<char>| without_leading_slash(#[trigger] joined(Seq::<char>::empty(), r)) == r by {
        assert(joined(Seq::<char>::empty(), r).drop_first() =~= r);
    }
    assert(listing(tree, Seq::empty(), true) =~= relative_dirs(tree));
    lemma_relative_dirs_reach(tree);
    let rd = relative_dirs(tree);
    assert forall|i: int| 0 <= i < rd.len() && !is_dot_dir(#[trigger] rd[i]) implies subtree(tree, rd[i]) is Some by {
        assert(reaches_dir(tree, rd[i]));
        let p = split_pieces(rd[i], '/');
        crate::text::lemma_split_nonempty(rd[i], '/');
        assert(valid_name(p[p.len() - 1]));
        assert(path_components(rd[i]) == p);
    }
}


/// The whole listing, under the empty path, is the relative listing.
proof fn lemma_root_listing(tree: Seq<TreeEntry>)
    ensures
        listing(tree, Seq::empty(), false) == relative_files(tree),
        listing(tree, Seq::empty(), true) == relative_dirs(tree),
{
    lemma_listing_files(tree, Seq::empty());
    lemma_listing_dirs(tree, Seq::empty());
    assert forall|r: Seq<char>| without_leading_slash(#[trigger] joined(Seq::<char>::empty(), r)) == r by {
        assert(joined(Seq::<char>::empty(), r).drop_first() =~= r);
    }
    assert(listing(tree, Seq::empty(), false) =~= relative_files(tree));
    assert(listing(tree, Seq::empty(), true) =~= relative_dirs(tree));
}

/// Listing files under a path `p` that does not begin with `'/'` gives the listing under
/// the empty path with `p/` in front of each path, in the same order.
pub proof fn lemma_listing_under_prefix(tree: Seq<TreeEntry>, p: Seq<char>)
    requires
        p.len() > 0,
        p[0] != '/',
    ensures
        listing(tree, p, false) == listing(tree, Seq::empty(), false).map_values(
            |r: Seq<char>| p + seq!['/'] + r,
        ),
{
    lemma_root_listing(tree);
    lemma_listing_files(tree, p);
    assert forall|r: Seq<char>| without_leading_slash(#[trigger] joined(p, r)) == p + seq!['/'] + r by {}
    assert(listing(tree, p, false) =~= relative_files(tree).map_values(|r: Seq<char>| p + seq!['/'] + r));
}

proof fn lemma_join_split(d: Seq<char>)
    ensures
        join_names(split_pieces(d, '/')) == d,
    decreases d.len(),
{
    if d.len() > 0 {
        let d0 = d.drop_last();
        let c = d.last();
        lemma_join_split(d0);
        crate::text::lemma_split_nonempty(d0, '/');
        let p0 = split_pieces(d0, '/');
        if c == '/' {
            assert(p0.push(Seq::<char>::empty()).drop_last() =~= p0);
            assert(d0 + seq!['/'] + Seq::<char>::empty() =~= d);
        } else {
            let p = p0.update(p0.len() - 1, p0.last().push(c));
            if p0.len() == 1 {
                assert(p[0] =~= d);
            } else {
                assert(p.drop_last() =~= p0.drop_last());
                assert(join_names(p0.drop_last()) + seq!['/'] + p0.last().push(c) =~= (join_names(
                    p0.drop_last(),
                ) + seq!['/'] + p0.last()).push(c));
                assert(d0.push(c) =~= d);
            }
        }
    } else {
        assert(d =~= Seq::<char>::empty());
    }
}

/// A path of valid names.
pub open spec fn is_dir_path(d: Seq<char>) -> bool {
    forall|i: int| 0 <= i < split_pieces(d, '/').len() ==> valid_name(#[trigger] split_pieces(d, '/')[i])
}

proof fn lemma_with_prefix_len(paths: Seq<Seq<char>>, q: Seq<char>)
    ensures
        with_prefix(paths, q).len() <= paths.len(),
    decreases paths.len(),
{
    if paths.len() > 0 {
        let p0 = paths.drop_last();
        assert(paths =~= p0.push(paths.last()));
        lemma_with_prefix_len(p0, q);
        lemma_with_prefix_push(p0, paths.last(), q);
    } else {
        assert(with_prefix(paths, q) =~= Seq::<Seq<char>>::empty());
    }
}

/// The number of files reported for a directory at a path of valid names is the number
/// of files in the whole listing that lie under it.
pub proof fn lemma_dir_count_in_listing(tree: Seq<TreeEntry>, d: Seq<char>)
    requires
        well_formed(tree),
        is_dir_path(d),
        subtree(tree, d) is Some,
    ensures
        dir_report(tree, d).0 == with_prefix(listing(tree, Seq::empty(), false), d + seq!['/']).len(),
{
    let comps = split_pieces(d, '/');
    crate::text::lemma_split_nonempty(d, '/');
    lemma_join_split(d);
    assert(valid_name(comps[comps.len() - 1]));
    assert(path_components(d) == comps);
    lemma_dir_files_in_listing(tree, comps);
}

pub proof fn lemma_split_concat(a: Seq<char>, b: Seq<char>, sep: char)
    ensures
        split_pieces(a + seq![sep] + b, sep) == split_pieces(a, sep) + split_pieces(b, sep),
    decreases b.len(),
{
    crate::text::lemma_split_nonempty(a, sep);
    if b.len() == 0 {
        assert(a + seq![sep] + b =~= a.push(sep));
        assert((a + seq![sep] + b).drop_last() =~= a);
        assert(split_pieces(a, sep).push(Seq::<char>::empty()) =~= split_pieces(a, sep) + split_pieces(b, sep));
    } else {
        let b0 = b.drop_last();
        let x = b.last();
        lemma_split_concat(a, b0, sep);
        crate::text::lemma_split_nonempty(b0, sep);
        assert((a + seq![sep] + b).drop_last() =~= a + seq![sep] + b0);
        assert((a + seq![sep] + b).last() == x);
        let pa = split_pieces(a, sep);
        let pb = split_pieces(b0, sep);
        if x == sep {
            assert((pa + pb).push(Seq::<char>::empty()) =~= pa + pb.push(Seq::<char>::empty()));
        } else {
            assert((pa + pb).update((pa + pb).len() - 1, (pa + pb).last().push(x)) =~= pa + pb.update(
                pb.len() - 1,
                pb.last().push(x),
            ));
        }
    }
}

pub proof fn lemma_split_no_sep(s: Seq<char>, sep: char)
    ensures
        forall|i: int| 0 <= i < split_pieces(s, sep).len() ==> !(#[trigger] split_pieces(s, sep)[i]).contains(sep),
    decreases s.len(),
{
    if s.len() > 0 {
        let s0 = s.drop_last();
        lemma_split_no_sep(s0, sep);
        crate::text::lemma_split_nonempty(s0, sep);
        let p0 = split_pieces(s0, sep);
        let p = split_pieces(s, sep);
        assert forall|i: int| 0 <= i < p.len() implies !(#[trigger] p[i]).contains(sep) by {
            if s.last() != sep && i == p0.len() - 1 {
                let q = p0[i];
                assert(p[i] == q.push(s.last()));
                if p[i].contains(sep) {
                    let k = choose|k: int| 0 <= k < p[i].len() && p[i][k] == sep;
                    assert(k < q.len());
                    assert(q[k] == sep);
                }
            } else if i < p0.len() {
                assert(p[i] == p0[i]);
            } else {
                assert(p[i] =~= Seq::<char>::empty());
            }
        }
    } else {
        assert(split_pieces(s, sep)[0] =~= Seq::<char>::empty());
    }
}

proof fn lemma_descend_concat(entries: Seq<TreeEntry>, c1: Seq<Seq<char>>, c2: Seq<Seq<char>>)
    ensures
        descend(entries, c1 + c2) == match descend(entries, c1) {
            Some(s) => descend(s, c2),
            None => None,
        },
    decreases c1.len(),
{
    if c1.len() == 0 {
        assert(c1 + c2 =~= c2);
    } else {
        assert((c1 + c2).drop_first() =~= c1.drop_first() + c2);
        assert((c1 + c2)[0] == c1[0]);
        match named(entries, c1[0]) {
            Some(TreeEntry::Tree { entries: sub, .. }) => {
                lemma_descend_concat(sub@, c1.drop_first(), c2);
            },
            _ => {},
        }
    }
}

proof fn lemma_descend_names_nonempty(entries: Seq<TreeEntry>, comps: Seq<Seq<char>>)
    requires
        descend(entries, comps) is Some,
    ensures
        forall|i: int| 0 <= i < comps.len() ==> (#[trigger] comps[i]).len() > 0,
    decreases comps.len(),
{
    if comps.len() > 0 {
        match named(entries, comps[0]) {
            Some(TreeEntry::Tree { entries: sub, .. }) => {
                lemma_descend_names_nonempty(sub@, comps.drop_first());
                assert forall|i: int| 0 <= i < comps.len() implies (#[trigger] comps[i]).len() > 0 by {
                    if i > 0 {
                        assert(comps[i] == comps.drop_first()[i - 1]);
                    }
                }
            },
            _ => {},
        }
    }
}

/// The number of files reported for a directory is the number of files it holds.
proof fn lemma_report_count(tree: Seq<TreeEntry>, d: Seq<char>)
    requires
        subtree(tree, d) is Some,
    ensures
        dir_report(tree, d).0 == relative_files(subtree(tree, d).unwrap()).len(),
{
    lemma_listing_files(subtree(tree, d).unwrap(), d);
}

/// A directory reached from a well-formed tree holds no more files than the tree.
proof fn lemma_descend_fewer_files(entries: Seq<TreeEntry>, comps: Seq<Seq<char>>)
    requires
        well_formed(entries),
        forall|i: int| 0 <= i < comps.len() ==> valid_name(#[trigger] comps[i]),
        descend(entries, comps) is Some,
    ensures
        relative_files(descend(entries, comps).unwrap()).len() <= relative_files(entries).len(),
{
    if comps.len() == 0 {
    } else {
        lemma_files_within(entries, comps);
        lemma_with_prefix_len(relative_files(entries), join_names(comps) + seq!['/']);
    }
}

/// In a well-formed tree, a subdirectory never holds more files than the directory it
/// lies in: for any two directories that both resolve, where the path of the second
/// begins with the path of the first and a `'/'`.
pub proof fn lemma_subdir_not_larger(tree: Seq<TreeEntry>, d1: Seq<char>, d2: Seq<char>)
    requires
        well_formed(tree),
        subtree(tree, d1) is Some,
        subtree(tree, d2) is Some,
        has_prefix(d2, d1 + seq!['/']),
    ensures
        dir_report(tree, d2).0 <= dir_report(tree, d1).0,
{
    lemma_report_count(tree, d1);
    lemma_report_count(tree, d2);
    let a = d1 + seq!['/'];
    let rest = d2.skip(a.len() as int);
    assert(d2.take(a.len() as int) == a);
    assert(d2 =~= d1 + seq!['/'] + rest);
    let p1 = split_pieces(d1, '/');
    let pr = split_pieces(rest, '/');
    lemma_split_concat(d1, rest, '/');
    crate::text::lemma_split_nonempty(d1, '/');
    crate::text::lemma_split_nonempty(rest, '/');
    lemma_split_no_sep(d1, '/');
    lemma_split_no_sep(rest, '/');
    let s2 = p1 + pr;
    assert(split_pieces(d2, '/') == s2);
    let comps2 = path_components(d2);
    lemma_descend_names_nonempty(tree, comps2);
    // the first path cannot end in '/': its empty last piece would stay inside the second
    assert(p1.last().len() > 0) by {
        let k = p1.len() - 1;
        assert(s2[k] == p1.last());
        assert(k < comps2.len());
        assert(comps2[k] == s2[k]);
    }
    let comps1 = path_components(d1);
    assert(comps1 == p1);
    lemma_descend_names_nonempty(tree, comps1);
    assert forall|i: int| 0 <= i < p1.len() implies valid_name(#[trigger] p1[i]) by {
        assert(p1[i].len() > 0);
    }
    let c2 = if pr.last().len() == 0 {
        pr.drop_last()
    } else {
        pr
    };
    assert(comps2 =~= p1 + c2);
    lemma_descend_concat(tree, p1, c2);
    let s1 = descend(tree, p1).unwrap();
    assert(forall|i: int| 0 <= i < c2.len() ==> (#[trigger] c2[i]).len() > 0) by {
        assert forall|i: int| 0 <= i < c2.len() implies (#[trigger] c2[i]).len() > 0 by {
            assert(comps2[p1.len() + i] == c2[i]);
        }
    }
    assert forall|i: int| 0 <= i < c2.len() implies valid_name(#[trigger] c2[i]) by {
        assert(c2[i] == pr[i]);
    }
    lemma_files_within(tree, p1);
    lemma_descend_fewer_files(s1, c2);
}

/// The directory part of a path: what comes before its last `'/'`.
pub open spec fn parent_dir(f: Seq<char>) -> Seq<char>
    decreases f.len(),
{
    if f.len() == 0 {
        f
    } else if f.last() == '/' {
        f.drop_last()
    } else {
        parent_dir(f.drop_last())
    }
}

proof fn lemma_parent_prepend(n: Seq<char>, r: Seq<char>)
    requires
        !n.contains('/'),
    ensures
        parent_dir(n + seq!['/'] + r) == if r.contains('/') {
            n + seq!['/'] + parent_dir(r)
        } else {
            n
        },
    decreases r.len(),
{
    let x = n + seq!['/'] + r;
    if r.len() == 0 {
        assert(x.drop_last() =~= n);
        assert(!r.contains('/'));
    } else {
        let r0 = r.drop_last();
        lemma_parent_prepend(n, r0);
        assert(x.drop_last() =~= n + seq!['/'] + r0);
        assert(x.last() == r.last());
        assert(r.contains('/') == (r0.contains('/') || r.last() == '/')) by {
            if r0.contains('/') {
                let k = choose|k: int| 0 <= k < r0.len() && r0[k] == '/';
                assert(r[k] == '/');
            }
            if r.contains('/') && r.last() != '/' {
                let k = choose|k: int| 0 <= k < r.len() && r[k] == '/';
                assert(r0[k] == '/');
            }
            if r.last() == '/' {
                assert(r[r.len() - 1] == '/');
            }
        }
        if r.last() == '/' {
            assert(n + seq!['/'] + r0 =~= n + seq!['/'] + r.drop_last());
        }
    }
}

proof fn lemma_file_parents_listed(entries: Seq<TreeEntry>)
    requires
        well_formed(entries),
    ensures
        forall|i: int|
            0 <= i < relative_files(entries).len() && (#[trigger] relative_files(entries)[i]).contains('/')
                ==> relative_dirs(entries).contains(parent_dir(relative_files(entries)[i])),
    decreases entries,
{
    if entries.len() > 0 {
        let e0 = entries.drop_last();
        let e = entries[entries.len() - 1];
        assert(entries =~= e0.push(e));
        assert(decreases_to!(entries => e0));
        lemma_file_parents_listed(e0);
        let rf = relative_files(entries);
        let rf0 = relative_files(e0);
        let rd = relative_dirs(entries);
        let rd0 = relative_dirs(e0);
        assert(rf =~= rf0 + entry_files(e));
        assert(rd =~= rd0 + entry_dirs(e));
        assert(entry_well_formed(e));
        if e is Tree {
            let sub = e->Tree_entries@;
            assert(decreases_to!(entries => e));
            assert(decreases_to!(e => e->Tree_entries));
            assert(decreases_to!(e->Tree_entries => sub));
            assert(decreases_to!(entries => sub));
            lemma_file_parents_listed(sub);
        }
        assert forall|i: int| 0 <= i < rf.len() && (#[trigger] rf[i]).contains('/') implies rd.contains(
            parent_dir(rf[i]),
        ) by {
            if i < rf0.len() {
                assert(rf[i] == rf0[i]);
                let k = choose|k: int| 0 <= k < rd0.len() && rd0[k] == parent_dir(rf0[i]);
                assert(rd[k] == rd0[k]);
            } else {
                let k = i - rf0.len();
                let n = entry_name(e);
                assert(valid_name(n));
                match e {
                    TreeEntry::Tree { name, entries: sub } => {
                        let r = relative_files(sub@)[k];
                        assert(rf[i] == n + seq!['/'] + r);
                        lemma_parent_prepend(n, r);
                        if r.contains('/') {
                            let j = choose|j: int| 0 <= j < relative_dirs(sub@).len() && relative_dirs(sub@)[j]
                                == parent_dir(r);
                            assert(entry_dirs(e)[j + 1] == n + seq!['/'] + parent_dir(r));
                            assert(rd[rd0.len() + j + 1] == entry_dirs(e)[j + 1]);
                        } else {
                            assert(rd[rd0.len() as int] == entry_dirs(e)[0]);
                        }
                    },
                    TreeEntry::Blob { name } => {
                        assert(rf[i] == n);
                    },
                    TreeEntry::Other { .. } => {},
                }
            }
        }
    }
}

/// In a well-formed tree, the directory of every listed file that lies in a directory is
/// itself in the listing of directories.
pub proof fn lemma_file_dirs_listed(tree: Seq<TreeEntry>)
    requires
        well_formed(tree),
    ensures
        forall|i: int|
            0 <= i < listing(tree, Seq::empty(), false).len() && (#[trigger] listing(
                tree,
                Seq::empty(),
                false,
            )[i]).contains('/') ==> listing(tree, Seq::empty(), true).contains(
                parent_dir(listing(tree, Seq::empty(), false)[i]),
            ),
{
    lemma_root_listing(tree);
    lemma_file_parents_listed(tree);
}


/// The first name of a path.
pub open spec fn first_name(p: Seq<char>) -> Seq<char> {
    split_pieces(p, '/')[0]
}

proof fn lemma_first_name(n: Seq<char>, r: Seq<char>)
    requires
        !n.contains('/'),
    ensures
        first_name(n) == n,
        first_name(n + seq!['/'] + r) == n,
{
    lemma_split_single(n, '/');
    lemma_split_prepend(n, r);
}

/// Every relative path of a well-formed tree begins with the name of one of its entries.
proof fn lemma_first_names_named(entries: Seq<TreeEntry>)
    requires
        well_formed(entries),
    ensures
        forall|i: int|
            0 <= i < relative_files(entries).len() ==> named(
                entries,
                first_name(#[trigger] relative_files(entries)[i]),
            ) is Some,
        forall|i: int|
            0 <= i < relative_dirs(entries).len() ==> named(
                entries,
                first_name(#[trigger] relative_dirs(entries)[i]),
            ) is Some,
    decreases entries.len(),
{
    if entries.len() > 0 {
        let e0 = entries.drop_last();
        let e = entries[entries.len() - 1];
        assert(entries =~= e0.push(e));
        lemma_first_names_named(e0);
        let rf = relative_files(entries);
        let rf0 = relative_files(e0);
        let rd = relative_dirs(entries);
        let rd0 = relative_dirs(e0);
        assert(rf =~= rf0 + entry_files(e));
        assert(rd =~= rd0 + entry_dirs(e));
        assert(entry_well_formed(e));
        let n = entry_name(e);
        lemma_named_push(e0, e, n);
        assert(named(entries, n) is Some);
        assert forall|i: int| 0 <= i < rf.len() implies named(entries, first_name(#[trigger] rf[i])) is Some by {
            if i < rf0.len() {
                assert(rf[i] == rf0[i]);
                lemma_named_push(e0, e, first_name(rf0[i]));
            } else {
                let k = i - rf0.len();
                match e {
                    TreeEntry::Tree { name, entries: sub } => {
                        lemma_first_name(n, relative_files(sub@)[k]);
                    },
                    TreeEntry::Blob { name } => {
                        lemma_first_name(n, Seq::<char>::empty());
                    },
                    TreeEntry::Other { .. } => {},
                }
            }
        }
        assert forall|i: int| 0 <= i < rd.len() implies named(entries, first_name(#[trigger] rd[i])) is Some by {
            if i < rd0.len() {
                assert(rd[i] == rd0[i]);
                lemma_named_push(e0, e, first_name(rd0[i]));
            } else {
                let k = i - rd0.len();
                match e {
                    TreeEntry::Tree { name, entries: sub } => {
                        if k == 0 {
                            lemma_first_name(n, Seq::<char>::empty());
                        } else {
                            lemma_first_name(n, relative_dirs(sub@)[k - 1]);
                        }
                    },
                    _ => {},
                }
            }
        }
    }
}

/// Each path of `s` put under the name `n`.
pub open spec fn under_name(n: Seq<char>, s: Seq<Seq<char>>) -> Seq<Seq<char>> {
    s.map_values(|r: Seq<char>| n + seq!['/'] + r)
}

proof fn lemma_prefixed_distinct(n: Seq<char>, s: Seq<Seq<char>>)
    requires
        s.no_duplicates(),
    ensures
        under_name(n, s).no_duplicates(),
        forall|i: int| 0 <= i < s.len() ==> #[trigger] under_name(n, s)[i] != n,
{
    let m = under_name(n, s);
    assert forall|i: int, j: int| 0 <= i < m.len() && 0 <= j < m.len() && i != j implies m[i] != m[j] by {
        if m[i] == m[j] {
            assert(m[i].skip(n.len() + 1int) =~= s[i]);
            assert(m[j].skip(n.len() + 1int) =~= s[j]);
        }
    }
    assert forall|i: int| 0 <= i < s.len() implies #[trigger] m[i] != n by {
        assert(m[i].len() > n.len());
    }
}

proof fn lemma_relative_distinct(entries: Seq<TreeEntry>)
    requires
        well_formed(entries),
    ensures
        relative_files(entries).no_duplicates(),
        relative_dirs(entries).no_duplicates(),
    decreases entries,
{
    if entries.len() > 0 {
        let e0 = entries.drop_last();
        let e = entries[entries.len() - 1];
        assert(entries =~= e0.push(e));
        assert(decreases_to!(entries => e0));
        lemma_relative_distinct(e0);
        lemma_first_names_named(e0);
        let rf = relative_files(entries);
        let rf0 = relative_files(e0);
        let rd = relative_dirs(entries);
        let rd0 = relative_dirs(e0);
        let ef = entry_files(e);
        let ed = entry_dirs(e);
        assert(rf =~= rf0 + ef);
        assert(rd =~= rd0 + ed);
        assert(entry_well_formed(e));
        let n = entry_name(e);
        assert(named(e0, n) is None);
        // everything the entry adds begins with its own name
        assert forall|k: int| 0 <= k < ef.len() implies first_name(#[trigger] ef[k]) == n by {
            match e {
                TreeEntry::Tree { name, entries: sub } => {
                    lemma_first_name(n, relative_files(sub@)[k]);
                },
                TreeEntry::Blob { name } => {
                    lemma_first_name(n, Seq::<char>::empty());
                },
                TreeEntry::Other { .. } => {},
            }
        }
        assert forall|k: int| 0 <= k < ed.len() implies first_name(#[trigger] ed[k]) == n by {
            match e {
                TreeEntry::Tree { name, entries: sub } => {
                    if k == 0 {
                        lemma_first_name(n, Seq::<char>::empty());
                    } else {
                        lemma_first_name(n, relative_dirs(sub@)[k - 1]);
                    }
                },
                _ => {},
            }
        }
        // the entry's own paths are distinct
        match e {
            TreeEntry::Tree { name, entries: sub } => {
                assert(decreases_to!(entries => e));
                assert(decreases_to!(e => e->Tree_entries));
                assert(decreases_to!(e->Tree_entries => sub@));
                assert(decreases_to!(entries => sub@));
                lemma_relative_distinct(sub@);
                lemma_prefixed_distinct(n, relative_files(sub@));
                lemma_prefixed_distinct(n, relative_dirs(sub@));
                let m = under_name(n, relative_dirs(sub@));
                assert(ed =~= seq![n] + m);
                assert forall|i: int, j: int| 0 <= i < ed.len() && 0 <= j < ed.len() && i != j implies ed[i]
                    != ed[j] by {
                    if i > 0 && j > 0 {
                        assert(ed[i] == m[i - 1]);
                        assert(ed[j] == m[j - 1]);
                    } else if i == 0 {
                        assert(ed[j] == m[j - 1]);
                    } else {
                        assert(ed[i] == m[i - 1]);
                    }
                }
            },
            _ => {},
        }
        assert forall|i: int, j: int| 0 <= i < rf.len() && 0 <= j < rf.len() && i != j implies rf[i] != rf[j] by {
            if i < rf0.len() && j >= rf0.len() {
                assert(named(e0, first_name(rf0[i])) is Some);
                assert(first_name(ef[j - rf0.len()]) == n);
            } else if j < rf0.len() && i >= rf0.len() {
                assert(named(e0, first_name(rf0[j])) is Some);
                assert(first_name(ef[i - rf0.len()]) == n);
            } else if i >= rf0.len() {
                assert(rf[i] == ef[i - rf0.len()]);
                assert(rf[j] == ef[j - rf0.len()]);
            }
        }
        assert forall|i: int, j: int| 0 <= i < rd.len() && 0 <= j < rd.len() && i != j implies rd[i] != rd[j] by {
            if i < rd0.len() && j >= rd0.len() {
                assert(named(e0, first_name(rd0[i])) is Some);
                assert(first_name(ed[j - rd0.len()]) == n);
            } else if j < rd0.len() && i >= rd0.len() {
                assert(named(e0, first_name(rd0[j])) is Some);
                assert(first_name(ed[i - rd0.len()]) == n);
            } else if i >= rd0.len() {
                assert(rd[i] == ed[i - rd0.len()]);
                assert(rd[j] == ed[j - rd0.len()]);
            }
        }
    }
}

/// What listing under `path` puts in front of a relative path.
pub open spec fn listing_prefix(path: Seq<char>) -> Seq<char> {
    if path.len() == 0 {
        Seq::empty()
    } else if path[0] == '/' {
        path.drop_first() + seq!['/']
    } else {
        path + seq!['/']
    }
}

proof fn lemma_listing_prefix(path: Seq<char>, r: Seq<char>)
    ensures
        without_leading_slash(joined(path, r)) == listing_prefix(path) + r,
{
    if path.len() == 0 {
        assert(joined(path, r).drop_first() =~= r);
        assert(Seq::<char>::empty() + r =~= r);
    } else if path[0] == '/' {
        assert(joined(path, r).drop_first() =~= path.drop_first() + seq!['/'] + r);
    }
}

proof fn lemma_prefix_map_distinct(pre: Seq<char>, s: Seq<Seq<char>>)
    requires
        s.no_duplicates(),
    ensures
        s.map_values(|r: Seq<char>| pre + r).no_duplicates(),
{
    let m = s.map_values(|r: Seq<char>| pre + r);
    assert forall|i: int, j: int| 0 <= i < m.len() && 0 <= j < m.len() && i != j implies m[i] != m[j] by {
        if m[i] == m[j] {
            assert(m[i].skip(pre.len() as int) =~= s[i]);
            assert(m[j].skip(pre.len() as int) =~= s[j]);
        }
    }
}

/// In a well-formed tree, no path is listed twice, among files or among directories,
/// under whatever path the listing starts.
pub proof fn lemma_listed_paths_distinct(tree: Seq<TreeEntry>, path: Seq<char>)
    requires
        well_formed(tree),
    ensures
        listing(tree, path, false).no_duplicates(),
        listing(tree, path, true).no_duplicates(),
{
    lemma_relative_distinct(tree);
    lemma_listing_files(tree, path);
    lemma_listing_dirs(tree, path);
    let pre = listing_prefix(path);
    assert forall|r: Seq<char>| #[trigger] without_leading_slash(joined(path, r)) == pre + r by {
        lemma_listing_prefix(path, r);
    }
    assert(listing(tree, path, false) =~= relative_files(tree).map_values(|r: Seq<char>| pre + r));
    assert(listing(tree, path, true) =~= relative_dirs(tree).map_values(|r: Seq<char>| pre + r));
    lemma_prefix_map_distinct(pre, relative_files(tree));
    lemma_prefix_map_distinct(pre, relative_dirs(tree));
}


proof fn lemma_first_place(dirs: Seq<Seq<char>>, i: int)
    requires
        0 <= i < dirs.len(),
    ensures
        exists|f: int| 0 <= f <= i && dirs[f] == dirs[i] && !(#[trigger] dirs.take(f)).contains(dirs[i]),
    decreases i,
{
    if dirs.take(i).contains(dirs[i]) {
        let t = choose|t: int| 0 <= t < i && dirs.take(i)[t] == dirs[i];
        assert(dirs[t] == dirs[i]);
        lemma_first_place(dirs, t);
    } else {
        assert(dirs[i] == dirs[i] && !dirs.take(i).contains(dirs[i]));
    }
}

/// Every directory whose path does not begin with `'.'` is reported, with the number of
/// files listed under it; and every report is of a directory of `dirs` whose path does not
/// begin with `'.'`.
pub proof fn lemma_every_dir_reported(tree: Seq<TreeEntry>, dirs: Seq<Seq<char>>)
    ensures
        forall|i: int|
            0 <= i < dirs.len() && !(dirs[i].len() > 0 && dirs[i][0] == '.') ==> exists|j: int|
                0 <= j < keep_some(dir_entries(tree, dirs)).len()
                    && (#[trigger] keep_some(dir_entries(tree, dirs))[j]).0 == #[trigger] dirs[i]
                    && keep_some(dir_entries(tree, dirs))[j].1.0 == listing(
                    subtree(tree, dirs[i]).unwrap(),
                    dirs[i],
                    false,
                ).len(),
        forall|j: int|
            0 <= j < keep_some(dir_entries(tree, dirs)).len() ==> dirs.contains(
                (#[trigger] keep_some(dir_entries(tree, dirs))[j]).0,
            ) && !(keep_some(dir_entries(tree, dirs))[j].0.len() > 0 && keep_some(
                dir_entries(tree, dirs),
            )[j].0[0] == '.'),
{
    let es = dir_entries(tree, dirs);
    let r = keep_some(es);
    assert forall|i: int| 0 <= i < dirs.len() && !(dirs[i].len() > 0 && dirs[i][0] == '.') implies exists|j: int|
        0 <= j < r.len() && (#[trigger] r[j]).0 == #[trigger] dirs[i] && r[j].1.0 == listing(
            subtree(tree, dirs[i]).unwrap(),
            dirs[i],
            false,
        ).len() by {
        lemma_first_place(dirs, i);
        let f = choose|f: int| 0 <= f <= i && dirs[f] == dirs[i] && !(#[trigger] dirs.take(f)).contains(dirs[i]);
        let x = (dirs[i], dir_report(tree, dirs[i]));
        assert(es[f] == Some(x));
        crate::reports::lemma_keep_some_has(es, f, x);
        let j = choose|j: int| 0 <= j < r.len() && r[j] == x;
        assert(r[j].0 == dirs[i]);
    }
    assert forall|j: int| 0 <= j < r.len() implies dirs.contains((#[trigger] r[j]).0) && !(r[j].0.len() > 0
        && r[j].0[0] == '.') by {
        assert(r.contains(r[j]));
        crate::reports::lemma_keep_some_from(es, r[j]);
        let k = choose|k: int| 0 <= k < es.len() && es[k] == Some(r[j]);
        assert(dirs[k] == r[j].0);
    }
}

} // verus!
