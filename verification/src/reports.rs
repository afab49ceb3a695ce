//! Reading the text that `git` prints: commits per year, commits per author, and the
//! files that look like release notes.
use vstd::prelude::*;
use vstd::utf8::encode_utf8;
use crate::text::{
    contains_str, has_infix, lemma_views_push, lines, parse_i32, parsed_i32, push_all, split_char, split_pieces, text_lines, trim, trimmed,
    views,
};
use crate::order::{
    lemma_insert_stable_at, lemma_lex_less_asymmetric, lemma_lex_not_less_transitive,
    lemma_stable_sort_multiset, lemma_stable_sort_sorted, lex_less, sorted_by, stable_sort, str_less,
};

verus! {

broadcast use vstd::seq_lib::group_to_multiset_ensures;

/// The values that `s` holds, in order: `filter_map` with the identity.
pub open spec fn keep_some<A>(s: Seq<Option<A>>) -> Seq<A>
    decreases s.len(),
{
    if s.len() == 0 {
        Seq::empty()
    } else {
        let r = keep_some(s.drop_last());
        match s.last() {
            Some(a) => r.push(a),
            None => r,
        }
    }
}

pub proof fn lemma_keep_some_step<A>(s: Seq<Option<A>>, i: int)
    requires
        0 <= i < s.len(),
    ensures
        keep_some(s.take(i + 1)) == (match s[i] {
            Some(a) => keep_some(s.take(i)).push(a),
            None => keep_some(s.take(i)),
        }),
{
    assert(s.take(i + 1).drop_last() =~= s.take(i));
}

/// The command that prints, for each year, how many commits were authored in it.
pub open spec fn year_counts_command_text(cwd: Seq<char>) -> Seq<char> {
    "git -C "@ + cwd
        + " log --format='%aD' | awk '{ year[$4]++ } END { for (y in year) print y, year[y] }'"@
}

/// The command that prints the number of commits of each author.
pub open spec fn author_status_command_text(cwd: Seq<char>) -> Seq<char> {
    "git -C "@ + cwd + " shortlog -s -n --all"@
}

/// The command that prints the paths of all tracked files.
pub open spec fn ls_files_command_text(cwd: Seq<char>) -> Seq<char> {
    "git -C "@ + cwd + " ls-files"@
}

fn command_around(before: &str, cwd: &str, after: &str) -> (r: String)
    ensures
        r@ == before@ + cwd@ + after@,
{
    let mut r = String::new();
    push_all(&mut r, before);
    push_all(&mut r, cwd);
    push_all(&mut r, after);
    proof {
        assert(Seq::<char>::empty() + before@ + cwd@ + after@ =~= before@ + cwd@ + after@);
    }
    r
}

/// The shell command whose output `count_commits_by_year` reads, for the repository at `cwd`.
pub fn year_counts_command(cwd: &str) -> (r: String)
    ensures
        r@ == year_counts_command_text(cwd@),
{
    command_around(
        "git -C ",
        cwd,
        " log --format='%aD' | awk '{ year[$4]++ } END { for (y in year) print y, year[y] }'",
    )
}

/// The shell command whose output `git_author_status` reads, for the repository at `cwd`.
pub fn author_status_command(cwd: &str) -> (r: String)
    ensures
        r@ == author_status_command_text(cwd@),
{
    command_around("git -C ", cwd, " shortlog -s -n --all")
}

/// The shell command whose output `find_news` reads, for the repository at `cwd`.
pub fn ls_files_command(cwd: &str) -> (r: String)
    ensures
        r@ == ls_files_command_text(cwd@),
{
    command_around("git -C ", cwd, " ls-files")
}

/// A line `"<year> <count>"`: exactly two pieces between spaces, each trimmed, the second
/// a number.
pub open spec fn year_entry(line: Seq<char>) -> Option<(Seq<char>, i32)> {
    let parts = split_pieces(line, ' ');
    if parts.len() == 2 {
        match parsed_i32(trimmed(parts[1])) {
            Some(c) => Some((trimmed(parts[0]), c)),
            None => None,
        }
    } else {
        None
    }
}

/// The order of the years: `a` goes after `b` when its year is greater as a string.
pub open spec fn by_year() -> spec_fn((Seq<char>, i32), (Seq<char>, i32)) -> bool {
    |a: (Seq<char>, i32), b: (Seq<char>, i32)| lex_less(b.0, a.0)
}

/// The year counts in `output`: the lines that are year entries, sorted stably by year.
pub open spec fn year_counts(output: Seq<char>) -> Seq<(Seq<char>, i32)> {
    stable_sort(keep_some(text_lines(output).map_values(|l: Seq<char>| year_entry(l))), by_year())
}

pub open spec fn year_view(p: (String, i32)) -> (Seq<char>, i32) {
    (p.0@, p.1)
}

pub open spec fn year_views(v: Seq<(String, i32)>) -> Seq<(Seq<char>, i32)> {
    v.map_values(|p: (String, i32)| year_view(p))
}

/// One line of the year-count output, read as `count_commits_by_year` reads it.
pub fn parse_year_line(line: &str) -> (r: Option<(String, i32)>)
    ensures
        match r {
            Some(p) => year_entry(line@) == Some(year_view(p)),
            None => year_entry(line@) is None,
        },
{
    let parts = split_char(line, ' ');
    if parts.len() == 2 {
        let year = trim(parts[0].as_str());
        let count_text = trim(parts[1].as_str());
        proof {
            assert(split_pieces(line@, ' ')[0] == parts@[0]@);
            assert(split_pieces(line@, ' ')[1] == parts@[1]@);
        }
        match parse_i32(count_text.as_str()) {
            Some(c) => Some((year, c)),
            None => None,
        }
    } else {
        None
    }
}

fn sort_by_year(v: Vec<(String, i32)>) -> (r: Vec<(String, i32)>)
    ensures
        year_views(r@) == stable_sort(year_views(v@), by_year()),
{
    let mut r: Vec<(String, i32)> = Vec::new();
    let mut i: usize = 0;
    while i < v.len()
        invariant
            i <= v.len(),
            year_views(r@) == stable_sort(year_views(v@).take(i as int), by_year()),
        decreases v.len() - i,
    {
        let ghost t = year_views(r@);
        let x = (v[i].0.clone(), v[i].1);
        let ghost xv = year_view(x);
        let mut p = r.len();
        while p > 0 && str_less(x.0.as_str(), r[p - 1].0.as_str())
            invariant
                p <= r.len(),
                t == year_views(r@),
                xv == year_view(x),
                forall|k: int| p <= k < t.len() ==> (by_year())(#[trigger] t[k], xv),
            decreases p,
        {
            p -= 1;
        }
        proof {
            lemma_insert_stable_at(t, xv, by_year(), p as int);
            assert(year_views(v@).take(i + 1).drop_last() =~= year_views(v@).take(i as int));
            assert(year_views(v@)[i as int] == xv);
        }
        r.insert(p, x);
        proof {
            assert(year_views(r@) =~= t.take(p as int).push(xv) + t.skip(p as int));
        }
        i += 1;
    }
    proof {
        assert(year_views(v@).take(v.len() as int) =~= year_views(v@));
    }
    r
}

/// The commits per year in `output`, the text that `year_counts_command` prints: each line
/// `"<year> <count>"` becomes a pair, other lines are passed over, and the pairs come
/// sorted by year, stably.
pub fn count_commits_by_year(output: &str) -> (r: Vec<(String, i32)>)
    ensures
        year_views(r@) == year_counts(output@),
{
    let ls = lines(output);
    let ghost entries = text_lines(output@).map_values(|l: Seq<char>| year_entry(l));
    let mut parsed: Vec<(String, i32)> = Vec::new();
    let mut i: usize = 0;
    while i < ls.len()
        invariant
            i <= ls.len(),
            views(ls@) == text_lines(output@),
            entries == text_lines(output@).map_values(|l: Seq<char>| year_entry(l)),
            year_views(parsed@) == keep_some(entries.take(i as int)),
        decreases ls.len() - i,
    {
        let e = parse_year_line(ls[i].as_str());
        proof {
            lemma_keep_some_step(entries, i as int);
            assert(entries[i as int] == year_entry(ls@[i as int]@));
        }
        match e {
            Some(p) => {
                proof {
                    assert(year_views(parsed@.push(p)) =~= year_views(parsed@).push(year_view(p)));
                }
                parsed.push(p);
            },
            None => {},
        }
        i += 1;
    }
    proof {
        assert(entries.take(ls.len() as int) =~= entries);
    }
    sort_by_year(parsed)
}

/// The year counts come out ordered by year, and they are the year entries of the
/// output, each as often as it occurs.
pub proof fn lemma_year_counts_ordered(output: Seq<char>)
    ensures
        forall|i: int, j: int|
            0 <= i < j < year_counts(output).len() ==> !lex_less(
                #[trigger] year_counts(output)[j].0,
                #[trigger] year_counts(output)[i].0,
            ),
        year_counts(output).to_multiset() == keep_some(
            text_lines(output).map_values(|l: Seq<char>| year_entry(l)),
        ).to_multiset(),
{
    let s = keep_some(text_lines(output).map_values(|l: Seq<char>| year_entry(l)));
    assert forall|a: (Seq<char>, i32), b: (Seq<char>, i32)| #[trigger] (by_year())(a, b) implies !(
    by_year())(b, a) by {
        lemma_lex_less_asymmetric(b.0, a.0);
    }
    assert forall|a: (Seq<char>, i32), b: (Seq<char>, i32), c: (Seq<char>, i32)|
        !#[trigger] (by_year())(a, b) && !#[trigger] (by_year())(b, c) implies !(by_year())(a, c) by {
        lemma_lex_not_less_transitive(a.0, b.0, c.0);
    }
    lemma_stable_sort_sorted(s, by_year());
    lemma_stable_sort_multiset(s, by_year());
}


/// A line `"<count>\t<name>"`: exactly two pieces between tabs, each trimmed, the first a
/// number.
pub open spec fn author_entry(line: Seq<char>) -> Option<(i32, Seq<char>)> {
    let parts = split_pieces(line, '\t');
    if parts.len() == 2 {
        match parsed_i32(trimmed(parts[0])) {
            Some(c) => Some((c, trimmed(parts[1]))),
            None => None,
        }
    } else {
        None
    }
}

/// The commit count of each author in `output`, in the order of the lines.
pub open spec fn author_counts(output: Seq<char>) -> Seq<(i32, Seq<char>)> {
    keep_some(text_lines(output).map_values(|l: Seq<char>| author_entry(l)))
}

pub open spec fn author_view(p: (i32, String)) -> (i32, Seq<char>) {
    (p.0, p.1@)
}

pub open spec fn author_views(v: Seq<(i32, String)>) -> Seq<(i32, Seq<char>)> {
    v.map_values(|p: (i32, String)| author_view(p))
}

/// One line of the author output, read as `git_author_status` reads it.
pub fn parse_author_line(line: &str) -> (r: Option<(i32, String)>)
    ensures
        match r {
            Some(p) => author_entry(line@) == Some(author_view(p)),
            None => author_entry(line@) is None,
        },
{
    let parts = split_char(line, '\t');
    if parts.len() == 2 {
        let count_text = trim(parts[0].as_str());
        let name = trim(parts[1].as_str());
        proof {
            assert(split_pieces(line@, '\t')[0] == parts@[0]@);
            assert(split_pieces(line@, '\t')[1] == parts@[1]@);
        }
        match parse_i32(count_text.as_str()) {
            Some(c) => Some((c, name)),
            None => None,
        }
    } else {
        None
    }
}

/// The commits per author in `output`, the text that `author_status_command` prints: each
/// line `"<count>\t<name>"` becomes a pair, in the order of the lines; other lines are
/// passed over.
pub fn git_author_status(output: &str) -> (r: Vec<(i32, String)>)
    ensures
        author_views(r@) == author_counts(output@),
{
    let ls = lines(output);
    let ghost entries = text_lines(output@).map_values(|l: Seq<char>| author_entry(l));
    let mut parsed: Vec<(i32, String)> = Vec::new();
    let mut i: usize = 0;
    while i < ls.len()
        invariant
            i <= ls.len(),
            views(ls@) == text_lines(output@),
            entries == text_lines(output@).map_values(|l: Seq<char>| author_entry(l)),
            author_views(parsed@) == keep_some(entries.take(i as int)),
        decreases ls.len() - i,
    {
        let e = parse_author_line(ls[i].as_str());
        proof {
            lemma_keep_some_step(entries, i as int);
            assert(entries[i as int] == author_entry(ls@[i as int]@));
        }
        match e {
            Some(p) => {
                proof {
                    assert(author_views(parsed@.push(p)) =~= author_views(parsed@).push(author_view(p)));
                }
                parsed.push(p);
            },
            None => {},
        }
        i += 1;
    }
    proof {
        assert(entries.take(ls.len() as int) =~= entries);
    }
    parsed
}

/// The lowercase form of `s` by Unicode's `Lowercase` mapping, as `str::to_lowercase` gives it.
pub uninterp spec fn lowercase(s: Seq<char>) -> Seq<char>;

/// Calls `str::to_lowercase`. Claimed: the result is `lowercase` of the argument, a
/// function of the characters alone; what that mapping is on each character is left to std.
#[verifier::external_body]
fn to_lowercase(s: &str) -> (r: String)
    ensures
        r@ == lowercase(s@),
{
    s.to_lowercase()
}

/// A path that lies under a directory of dependencies, builds or tests.
pub open spec fn is_excluded_path(lower: Seq<char>) -> bool {
    ||| has_infix(lower, "node_modules"@)
    ||| has_infix(lower, "vendor"@)
    ||| has_infix(lower, "dist"@)
    ||| has_infix(lower, "build"@)
    ||| has_infix(lower, "target"@)
    ||| has_infix(lower, "test"@)
}

/// A path whose name speaks of news, a change log, history or releases.
pub open spec fn names_release_notes(lower: Seq<char>) -> bool {
    ||| has_infix(lower, "news"@)
    ||| has_infix(lower, "changelog"@)
    ||| has_infix(lower, "history"@)
    ||| has_infix(lower, "releases"@)
    ||| has_infix(lower, "changes"@)
}

/// Whether a path, already in lowercase, is taken as release notes.
pub open spec fn is_news_path(lower: Seq<char>) -> bool {
    !is_excluded_path(lower) && names_release_notes(lower)
}

/// Whether the lowercased path `lower` is taken as release notes: it names none of the
/// excluded directories and one of the release-note words.
pub fn news_path(lower: &str) -> (r: bool)
    ensures
        r == is_news_path(lower@),
{
    if contains_str(lower, "node_modules") || contains_str(lower, "vendor") || contains_str(
        lower,
        "dist",
    ) || contains_str(lower, "build") || contains_str(lower, "target") || contains_str(
        lower,
        "test",
    ) {
        return false;
    }
    contains_str(lower, "news") || contains_str(lower, "changelog") || contains_str(lower, "history")
        || contains_str(lower, "releases") || contains_str(lower, "changes")
}

/// The length in bytes of UTF-8 text, as `str::len` reports it.
pub open spec fn byte_len(s: Seq<char>) -> usize {
    encode_utf8(s).len() as usize
}

/// The order by length: `a` goes after `b` when it has more bytes.
pub open spec fn by_byte_len() -> spec_fn(Seq<char>, Seq<char>) -> bool {
    |a: Seq<char>, b: Seq<char>| byte_len(a) > byte_len(b)
}

/// The `i`-th line, when the `i`-th lowercase form is taken as release notes.
pub open spec fn news_pick(lines: Seq<Seq<char>>, lowered: Seq<Seq<char>>, i: int) -> Option<Seq<char>> {
    if is_news_path(lowered[i]) {
        Some(lines[i])
    } else {
        None
    }
}

/// The release-note files among `lines`, whose lowercase forms are `lowered`: the lines
/// taken as release notes, sorted stably by length, the first ten of them.
pub open spec fn news_selected(lines: Seq<Seq<char>>, lowered: Seq<Seq<char>>) -> Seq<Seq<char>> {
    let sorted = stable_sort(
        keep_some(Seq::new(lines.len(), |i: int| news_pick(lines, lowered, i))),
        by_byte_len(),
    );
    if sorted.len() > 10 {
        sorted.take(10)
    } else {
        sorted
    }
}

/// The release-note files in `output`: its lines, judged by their lowercase forms.
pub open spec fn news_found(output: Seq<char>) -> Seq<Seq<char>> {
    news_selected(text_lines(output), text_lines(output).map_values(|l: Seq<char>| lowercase(l)))
}

fn sort_by_byte_len(v: Vec<String>) -> (r: Vec<String>)
    ensures
        views(r@) == stable_sort(views(v@), by_byte_len()),
{
    let mut r: Vec<String> = Vec::new();
    let mut i: usize = 0;
    while i < v.len()
        invariant
            i <= v.len(),
            views(r@) == stable_sort(views(v@).take(i as int), by_byte_len()),
        decreases v.len() - i,
    {
        let ghost t = views(r@);
        let x = v[i].clone();
        let xlen = x.as_str().len();
        let mut p = r.len();
        while p > 0 && r[p - 1].as_str().len() > xlen
            invariant
                p <= r.len(),
                t == views(r@),
                xlen == byte_len(x@),
                forall|k: int| p <= k < t.len() ==> (by_byte_len())(#[trigger] t[k], x@),
            decreases p,
        {
            p -= 1;
        }
        proof {
            lemma_insert_stable_at(t, x@, by_byte_len(), p as int);
            assert(views(v@).take(i + 1).drop_last() =~= views(v@).take(i as int));
        }
        r.insert(p, x);
        proof {
            assert(views(r@) =~= t.take(p as int).push(x@) + t.skip(p as int));
        }
        i += 1;
    }
    proof {
        assert(views(v@).take(v.len() as int) =~= views(v@));
    }
    r
}

/// The release-note files among `lines`, where `lowered[i]` is the lowercase form of
/// `lines[i]`: the lines whose lowercase form names a release-note word and no excluded
/// directory, shortest first (stably), at most ten.
pub fn select_news(lines: &Vec<String>, lowered: &Vec<String>) -> (r: Vec<String>)
    requires
        lines.len() == lowered.len(),
    ensures
        views(r@) == news_selected(views(lines@), views(lowered@)),
{
    let ghost lv = views(lines@);
    let ghost wv = views(lowered@);
    let ghost entries = Seq::new(lv.len(), |i: int| news_pick(lv, wv, i));
    let mut kept: Vec<String> = Vec::new();
    let mut i: usize = 0;
    while i < lines.len()
        invariant
            i <= lines.len() == lowered.len(),
            lv == views(lines@),
            wv == views(lowered@),
            entries == Seq::new(lv.len(), |i: int| news_pick(lv, wv, i)),
            views(kept@) == keep_some(entries.take(i as int)),
        decreases lines.len() - i,
    {
        proof {
            lemma_keep_some_step(entries, i as int);
            assert(entries[i as int] == news_pick(lv, wv, i as int));
            assert(lv[i as int] == lines@[i as int]@);
            assert(wv[i as int] == lowered@[i as int]@);
        }
        if news_path(lowered[i].as_str()) {
            let line = lines[i].clone();
            proof {
                lemma_views_push(kept@, line);
            }
            kept.push(line);
        }
        i += 1;
    }
    proof {
        assert(entries.take(lines.len() as int) =~= entries);
    }
    let mut sorted = sort_by_byte_len(kept);
    if sorted.len() > 10 {
        let ghost before = sorted@;
        sorted.truncate(10);
        proof {
            assert(views(sorted@) =~= views(before).take(10));
        }
    }
    sorted
}

/// The files that look like release notes, from `output`, the text that
/// `ls_files_command` prints: its lines, each judged by its lowercase form, selected as
/// `select_news` selects them.
pub fn find_news(output: &str) -> (r: Vec<String>)
    ensures
        views(r@) == news_found(output@),
{
    let ls = lines(output);
    let mut lowered: Vec<String> = Vec::new();
    let mut i: usize = 0;
    while i < ls.len()
        invariant
            i <= ls.len(),
            views(ls@) == text_lines(output@),
            views(lowered@) == text_lines(output@).take(i as int).map_values(|l: Seq<char>| lowercase(l)),
        decreases ls.len() - i,
    {
        let lower = to_lowercase(ls[i].as_str());
        proof {
            lemma_views_push(lowered@, lower);
            assert(text_lines(output@).take(i + 1).map_values(|l: Seq<char>| lowercase(l)) =~= text_lines(
                output@,
            ).take(i as int).map_values(|l: Seq<char>| lowercase(l)).push(lowercase(ls@[i as int]@)));
        }
        lowered.push(lower);
        i += 1;
    }
    proof {
        assert(text_lines(output@).take(ls.len() as int) =~= text_lines(output@));
    }
    select_news(&ls, &lowered)
}

/// Every value that `keep_some` keeps was in `s`.
pub proof fn lemma_keep_some_from<A>(s: Seq<Option<A>>, x: A)
    requires
        keep_some(s).contains(x),
    ensures
        s.contains(Some(x)),
    decreases s.len(),
{
    let r = keep_some(s.drop_last());
    if s.last() == Some(x) {
        assert(s[s.len() - 1] == Some(x));
    } else {
        if s.last() is Some {
            let k = choose|k: int| 0 <= k < keep_some(s).len() && keep_some(s)[k] == x;
            assert(r[k] == x);
        }
        lemma_keep_some_from(s.drop_last(), x);
        let k = choose|k: int| 0 <= k < s.len() - 1 && s.drop_last()[k] == Some(x);
        assert(s[k] == Some(x));
    }
}

/// Every value in `s` is kept by `keep_some`.
pub proof fn lemma_keep_some_has<A>(s: Seq<Option<A>>, k: int, x: A)
    requires
        0 <= k < s.len(),
        s[k] == Some(x),
    ensures
        keep_some(s).contains(x),
    decreases s.len(),
{
    let r = keep_some(s.drop_last());
    if k == s.len() - 1 {
        assert(keep_some(s) == r.push(x));
        assert(keep_some(s)[r.len() as int] == x);
    } else {
        assert(s.drop_last()[k] == Some(x));
        lemma_keep_some_has(s.drop_last(), k, x);
        let t = choose|t: int| 0 <= t < r.len() && r[t] == x;
        match s.last() {
            Some(y) => {
                assert(keep_some(s) == r.push(y));
                assert(keep_some(s)[t] == x);
            },
            None => {},
        }
    }
}

/// `x` is one of `lines` whose lowercase form is taken as release notes.
pub open spec fn picked_line(lines: Seq<Seq<char>>, lowered: Seq<Seq<char>>, x: Seq<char>) -> bool {
    exists|k: int| 0 <= k < lines.len() && #[trigger] lines[k] == x && is_news_path(lowered[k])
}

/// At most ten release-note files are selected, shortest first, and each is one of the
/// lines whose lowercase form is taken as release notes.
pub proof fn lemma_news_selected(lines: Seq<Seq<char>>, lowered: Seq<Seq<char>>)
    requires
        lines.len() == lowered.len(),
    ensures
        news_selected(lines, lowered).len() <= 10,
        sorted_by(news_selected(lines, lowered), by_byte_len()),
        forall|i: int|
            0 <= i < news_selected(lines, lowered).len() ==> picked_line(
                lines,
                lowered,
                #[trigger] news_selected(lines, lowered)[i],
            ),
{
    let cands = Seq::new(lines.len(), |i: int| news_pick(lines, lowered, i));
    let kept = keep_some(cands);
    let sorted = stable_sort(kept, by_byte_len());
    lemma_stable_sort_sorted(kept, by_byte_len());
    lemma_stable_sort_multiset(kept, by_byte_len());
    let found = news_selected(lines, lowered);
    assert forall|i: int| 0 <= i < found.len() implies picked_line(lines, lowered, #[trigger] found[i]) by {
        let x = found[i];
        assert(sorted[i] == x);
        assert(sorted.contains(x));
        assert(sorted.to_multiset().count(x) > 0);
        assert(kept.to_multiset().count(x) > 0);
        assert(kept.contains(x));
        lemma_keep_some_from(cands, x);
        let k = choose|k: int| 0 <= k < cands.len() && cands[k] == Some(x);
        assert(news_pick(lines, lowered, k) == Some(x));
        assert(lines[k] == x && is_news_path(lowered[k]));
    }
}

/// At most ten release-note files are found, shortest first, and each is a line of the
/// output whose lowercase form names a release-note word and no excluded directory.
pub proof fn lemma_news_found(output: Seq<char>)
    ensures
        news_found(output).len() <= 10,
        sorted_by(news_found(output), by_byte_len()),
        forall|i: int|
            0 <= i < news_found(output).len() ==> text_lines(output).contains(
                #[trigger] news_found(output)[i],
            ) && is_news_path(lowercase(news_found(output)[i])),
{
    let ls = text_lines(output);
    let lw = ls.map_values(|l: Seq<char>| lowercase(l));
    lemma_news_selected(ls, lw);
    let found = news_found(output);
    assert forall|i: int| 0 <= i < found.len() implies ls.contains(#[trigger] found[i])
        && is_news_path(lowercase(found[i])) by {
        assert(picked_line(ls, lw, found[i]));
        let k = choose|k: int| 0 <= k < ls.len() && #[trigger] ls[k] == found[i] && is_news_path(lw[k]);
        assert(lw[k] == lowercase(ls[k]));
    }
}


/// The files found are the shortest: a release-note line of the output that is left out
/// is left out only because ten were found, none of them longer than it.
pub proof fn lemma_news_shortest(output: Seq<char>)
    ensures
        forall|k: int|
            0 <= k < text_lines(output).len() && is_news_path(lowercase(#[trigger] text_lines(output)[k]))
                && !news_found(output).contains(text_lines(output)[k]) ==> news_found(output).len() == 10
                && forall|j: int|
                0 <= j < 10 ==> byte_len(#[trigger] news_found(output)[j]) <= byte_len(text_lines(output)[k]),
{
    let ls = text_lines(output);
    let lw = ls.map_values(|l: Seq<char>| lowercase(l));
    let cands = Seq::new(ls.len(), |i: int| news_pick(ls, lw, i));
    let kept = keep_some(cands);
    let sorted = stable_sort(kept, by_byte_len());
    lemma_stable_sort_multiset(kept, by_byte_len());
    lemma_stable_sort_sorted(kept, by_byte_len());
    let found = news_found(output);
    assert(found == news_selected(ls, lw));
    assert forall|k: int|
        0 <= k < ls.len() && is_news_path(lowercase(#[trigger] ls[k])) && !found.contains(ls[k]) implies found.len()
            == 10 && forall|j: int| 0 <= j < 10 ==> byte_len(#[trigger] found[j]) <= byte_len(ls[k]) by {
        assert(lw[k] == lowercase(ls[k]));
        assert(cands[k] == Some(ls[k]));
        lemma_keep_some_has(cands, k, ls[k]);
        assert(kept.to_multiset().count(ls[k]) > 0);
        assert(sorted.to_multiset().count(ls[k]) > 0);
        assert(sorted.contains(ls[k]));
        let m = choose|m: int| 0 <= m < sorted.len() && sorted[m] == ls[k];
        if sorted.len() <= 10 {
            assert(found == sorted);
            assert(found[m] == ls[k]);
            assert(false);
        }
        assert(found == sorted.take(10));
        if m < 10 {
            assert(found[m] == ls[k]);
            assert(false);
        }
        assert forall|j: int| 0 <= j < 10 implies byte_len(#[trigger] found[j]) <= byte_len(ls[k]) by {
            assert(found[j] == sorted[j]);
            assert(!(by_byte_len())(sorted[j], sorted[m]));
        }
    }
}

/// `w` occurs in `s` as a run of consecutive characters.
pub open spec fn occurs_in(w: Seq<char>, s: Seq<char>) -> bool {
    exists|i: int| 0 <= i && i + w.len() <= s.len() && #[trigger] s.subrange(i, i + w.len()) == w
}

/// A lowercased path is taken as release notes exactly when it holds one of the words
/// "news", "changelog", "history", "releases", "changes", and none of "node_modules",
/// "vendor", "dist", "build", "target", "test".
pub proof fn lemma_news_words(lower: Seq<char>)
    ensures
        is_news_path(lower) <==> ((occurs_in("news"@, lower) || occurs_in("changelog"@, lower) || occurs_in("history"@, lower)
            || occurs_in("releases"@, lower) || occurs_in("changes"@, lower)) && !(occurs_in(
            "node_modules"@,
            lower,
        ) || occurs_in("vendor"@, lower) || occurs_in("dist"@, lower) || occurs_in("build"@, lower)
            || occurs_in("target"@, lower) || occurs_in("test"@, lower))),
{
}

/// Every line of the output whose lowercase form holds a release-note word and no
/// excluded word is found, whenever fewer than ten are found.
pub proof fn lemma_news_keeps_release_notes(output: Seq<char>)
    ensures
        forall|k: int|
            0 <= k < text_lines(output).len() && news_found(output).len() < 10 && ((occurs_in("news"@, lowercase(text_lines(output)[k])) || occurs_in("changelog"@, lowercase(text_lines(output)[k])) || occurs_in("history"@, lowercase(text_lines(output)[k]))
            || occurs_in("releases"@, lowercase(text_lines(output)[k])) || occurs_in("changes"@, lowercase(text_lines(output)[k]))) && !(occurs_in(
            "node_modules"@,
            lowercase(text_lines(output)[k]),
        ) || occurs_in("vendor"@, lowercase(text_lines(output)[k])) || occurs_in("dist"@, lowercase(text_lines(output)[k])) || occurs_in("build"@, lowercase(text_lines(output)[k]))
            || occurs_in("target"@, lowercase(text_lines(output)[k])) || occurs_in("test"@, lowercase(text_lines(output)[k])))) ==> news_found(output).contains(
                #[trigger] text_lines(output)[k],
            ),
{
    let ls = text_lines(output);
    let lw = ls.map_values(|l: Seq<char>| lowercase(l));
    let cands = Seq::new(ls.len(), |i: int| news_pick(ls, lw, i));
    let kept = keep_some(cands);
    let sorted = stable_sort(kept, by_byte_len());
    lemma_stable_sort_multiset(kept, by_byte_len());
    assert forall|k: int|
        0 <= k < ls.len() && news_found(output).len() < 10 && ((occurs_in("news"@, lowercase(ls[k])) || occurs_in("changelog"@, lowercase(ls[k])) || occurs_in("history"@, lowercase(ls[k]))
            || occurs_in("releases"@, lowercase(ls[k])) || occurs_in("changes"@, lowercase(ls[k]))) && !(occurs_in(
            "node_modules"@,
            lowercase(ls[k]),
        ) || occurs_in("vendor"@, lowercase(ls[k])) || occurs_in("dist"@, lowercase(ls[k])) || occurs_in("build"@, lowercase(ls[k]))
            || occurs_in("target"@, lowercase(ls[k])) || occurs_in("test"@, lowercase(ls[k])))) implies news_found(output).contains(
            #[trigger] ls[k],
        ) by {
        lemma_news_words(lowercase(ls[k]));
        assert(lw[k] == lowercase(ls[k]));
        assert(cands[k] == Some(ls[k]));
        lemma_keep_some_has(cands, k, ls[k]);
        assert(kept.to_multiset().count(ls[k]) > 0);
        assert(sorted.to_multiset().count(ls[k]) > 0);
        assert(sorted.contains(ls[k]));
        assert(news_found(output) == sorted);
    }
}


proof fn lemma_keep_some_no_longer<A>(s: Seq<Option<A>>)
    ensures
        keep_some(s).len() <= s.len(),
    decreases s.len(),
{
    if s.len() > 0 {
        lemma_keep_some_no_longer(s.drop_last());
    }
}

/// Two pieces between tabs are a line `a + "\t" + b` with no tab in `a` or `b`.
proof fn lemma_two_pieces(line: Seq<char>)
    requires
        split_pieces(line, '\t').len() == 2,
    ensures
        line == split_pieces(line, '\t')[0] + seq!['\t'] + split_pieces(line, '\t')[1],
        !split_pieces(line, '\t')[0].contains('\t'),
        !split_pieces(line, '\t')[1].contains('\t'),
{
    crate::tree::lemma_split_no_sep(line, '\t');
    if !line.contains('\t') {
        crate::tree::lemma_split_single(line, '\t');
    } else {
        let j = choose|j: int| 0 <= j < line.len() && line[j] == '\t';
        let x = line.take(j);
        let y = line.skip(j + 1);
        assert(line =~= x + seq!['\t'] + y);
        crate::tree::lemma_split_concat(x, y, '\t');
        crate::text::lemma_split_nonempty(x, '\t');
        crate::text::lemma_split_nonempty(y, '\t');
        let px = split_pieces(x, '\t');
        let py = split_pieces(y, '\t');
        assert(px.len() == 1 && py.len() == 1);
        crate::tree::lemma_split_no_sep(x, '\t');
        crate::tree::lemma_split_no_sep(y, '\t');
        assert(!x.contains('\t')) by {
            if x.contains('\t') {
                let i = choose|i: int| 0 <= i < x.len() && x[i] == '\t';
                assert(x =~= x.take(i) + seq!['\t'] + x.skip(i + 1));
                crate::tree::lemma_split_concat(x.take(i), x.skip(i + 1), '\t');
                crate::text::lemma_split_nonempty(x.take(i), '\t');
                crate::text::lemma_split_nonempty(x.skip(i + 1), '\t');
            }
        }
        assert(!y.contains('\t')) by {
            if y.contains('\t') {
                let i = choose|i: int| 0 <= i < y.len() && y[i] == '\t';
                assert(y =~= y.take(i) + seq!['\t'] + y.skip(i + 1));
                crate::tree::lemma_split_concat(y.take(i), y.skip(i + 1), '\t');
                crate::text::lemma_split_nonempty(y.take(i), '\t');
                crate::text::lemma_split_nonempty(y.skip(i + 1), '\t');
            }
        }
        crate::tree::lemma_split_single(x, '\t');
        crate::tree::lemma_split_single(y, '\t');
        assert(split_pieces(line, '\t') =~= seq![x, y]);
    }
}

/// One of `lines` is a count, a tab and a name, with no other tab, that give `pair`.
pub open spec fn line_with_pair(lines: Seq<Seq<char>>, pair: (i32, Seq<char>)) -> bool {
    exists|k: int, a: Seq<char>, b: Seq<char>|
        #![trigger lines[k], a + seq!['\t'] + b]
        0 <= k < lines.len() && lines[k] == a + seq!['\t'] + b && !a.contains('\t') && !b.contains('\t')
            && parsed_i32(trimmed(a)) == Some(pair.0) && pair.1 == trimmed(b)
}

/// Every line of the output made of a count, a tab and a name (no other tab) gives the
/// pair of that count and the trimmed name, and every pair comes from such a line; there
/// are no more pairs than lines.
pub proof fn lemma_author_lines_read(output: Seq<char>)
    ensures
        forall|k: int, a: Seq<char>, b: Seq<char>|
            #![trigger text_lines(output)[k], a + seq!['\t'] + b]
            0 <= k < text_lines(output).len() && text_lines(output)[k] == a + seq!['\t'] + b && !a.contains('\t')
                && !b.contains('\t') && parsed_i32(trimmed(a)) is Some ==> author_counts(output).contains(
                (parsed_i32(trimmed(a)).unwrap(), trimmed(b)),
            ),
        forall|j: int|
            0 <= j < author_counts(output).len() ==> line_with_pair(
                text_lines(output),
                #[trigger] author_counts(output)[j],
            ),
        author_counts(output).len() <= text_lines(output).len(),
{
    let ls = text_lines(output);
    let es = ls.map_values(|l: Seq<char>| author_entry(l));
    let r = author_counts(output);
    lemma_keep_some_no_longer(es);
    assert forall|k: int, a: Seq<char>, b: Seq<char>|
        #![trigger ls[k], a + seq!['\t'] + b]
        0 <= k < ls.len() && ls[k] == a + seq!['\t'] + b && !a.contains('\t') && !b.contains('\t')
            && parsed_i32(trimmed(a)) is Some implies r.contains((parsed_i32(trimmed(a)).unwrap(), trimmed(b))) by {
        crate::tree::lemma_split_concat(a, b, '\t');
        crate::tree::lemma_split_single(a, '\t');
        crate::tree::lemma_split_single(b, '\t');
        assert(split_pieces(ls[k], '\t') =~= seq![a, b]);
        assert(es[k] == Some((parsed_i32(trimmed(a)).unwrap(), trimmed(b))));
        lemma_keep_some_has(es, k, (parsed_i32(trimmed(a)).unwrap(), trimmed(b)));
    }
    assert forall|j: int| 0 <= j < r.len() implies line_with_pair(ls, #[trigger] r[j]) by {
        assert(r.contains(r[j]));
        lemma_keep_some_from(es, r[j]);
        let k = choose|k: int| 0 <= k < es.len() && es[k] == Some(r[j]);
        assert(author_entry(ls[k]) == Some(r[j]));
        let p = split_pieces(ls[k], '\t');
        assert(p.len() == 2);
        lemma_two_pieces(ls[k]);
        let a = p[0];
        let b = p[1];
        assert(ls[k] == a + seq!['\t'] + b && !a.contains('\t') && !b.contains('\t')
            && parsed_i32(trimmed(a)) == Some(r[j].0) && r[j].1 == trimmed(b));
    }
}


/// Reading the author counts line by line: no output gives no pairs; one more line made of
/// a count, a tab and a name (no other tab) adds the pair of that count and the trimmed
/// name after the pairs read so far; any other line adds nothing. So every such line gives
/// one pair, the last line too, in the order of the lines.
pub proof fn lemma_author_line_appended(o: Seq<char>, l: Seq<char>)
    requires
        o.len() == 0 || o.last() == '\n',
        !l.contains('\n'),
        !(l.len() > 0 && l.last() == '\r'),
    ensures
        author_counts(Seq::<char>::empty()) == Seq::<(i32, Seq<char>)>::empty(),
        forall|a: Seq<char>, b: Seq<char>|
            #![trigger a + seq!['\t'] + b]
            l == a + seq!['\t'] + b && !a.contains('\t') && !b.contains('\t') && parsed_i32(trimmed(a)) is Some
                ==> author_counts(o + l + seq!['\n']) == author_counts(o).push(
                (parsed_i32(trimmed(a)).unwrap(), trimmed(b)),
            ),
        !(exists|a: Seq<char>, b: Seq<char>|
            #![trigger a + seq!['\t'] + b]
            l == a + seq!['\t'] + b && !a.contains('\t') && !b.contains('\t') && parsed_i32(trimmed(a)) is Some)
            ==> author_counts(o + l + seq!['\n']) == author_counts(o),
{
    assert(text_lines(Seq::<char>::empty()) =~= Seq::<Seq<char>>::empty());
    assert(text_lines(Seq::<char>::empty()).map_values(|x: Seq<char>| author_entry(x)) =~= Seq::<
        Option<(i32, Seq<char>)>,
    >::empty());
    crate::text::lemma_text_lines_append(o, l);
    let es = text_lines(o).map_values(|x: Seq<char>| author_entry(x));
    let es2 = text_lines(o + l + seq!['\n']).map_values(|x: Seq<char>| author_entry(x));
    assert(es2 =~= es.push(author_entry(l)));
    assert(es2.drop_last() =~= es);
    assert forall|a: Seq<char>, b: Seq<char>|
        #![trigger a + seq!['\t'] + b]
        l == a + seq!['\t'] + b && !a.contains('\t') && !b.contains('\t') && parsed_i32(trimmed(a)) is Some
            implies author_counts(o + l + seq!['\n']) == author_counts(o).push(
            (parsed_i32(trimmed(a)).unwrap(), trimmed(b)),
        ) by {
        crate::tree::lemma_split_concat(a, b, '\t');
        crate::tree::lemma_split_single(a, '\t');
        crate::tree::lemma_split_single(b, '\t');
        assert(split_pieces(l, '\t') =~= seq![a, b]);
    }
    if !(exists|a: Seq<char>, b: Seq<char>|
        #![trigger a + seq!['\t'] + b]
        l == a + seq!['\t'] + b && !a.contains('\t') && !b.contains('\t') && parsed_i32(trimmed(a)) is Some) {
        if author_entry(l) is Some {
            let p = split_pieces(l, '\t');
            lemma_two_pieces(l);
            let a = p[0];
            let b = p[1];
            assert(l == a + seq!['\t'] + b && !a.contains('\t') && !b.contains('\t') && parsed_i32(trimmed(a)) is Some);
            assert(false);
        }
    }
}

/// Every line of the output made of a year, a space and a count (no other space) gives
/// the pair of the trimmed year and that count, somewhere in the year counts.
pub proof fn lemma_year_lines_read(output: Seq<char>)
    ensures
        forall|k: int, a: Seq<char>, b: Seq<char>|
            #![trigger text_lines(output)[k], a + seq![' '] + b]
            0 <= k < text_lines(output).len() && text_lines(output)[k] == a + seq![' '] + b && !a.contains(' ')
                && !b.contains(' ') && parsed_i32(trimmed(b)) is Some ==> year_counts(output).contains(
                (trimmed(a), parsed_i32(trimmed(b)).unwrap()),
            ),
        year_counts(output).len() <= text_lines(output).len(),
{
    let ls = text_lines(output);
    let es = ls.map_values(|l: Seq<char>| year_entry(l));
    let kept = keep_some(es);
    lemma_keep_some_no_longer(es);
    lemma_stable_sort_multiset(kept, by_year());
    assert(year_counts(output).to_multiset().len() == year_counts(output).len());
    assert(kept.to_multiset().len() == kept.len());
    assert forall|k: int, a: Seq<char>, b: Seq<char>|
        #![trigger ls[k], a + seq![' '] + b]
        0 <= k < ls.len() && ls[k] == a + seq![' '] + b && !a.contains(' ') && !b.contains(' ')
            && parsed_i32(trimmed(b)) is Some implies year_counts(output).contains(
            (trimmed(a), parsed_i32(trimmed(b)).unwrap()),
        ) by {
        let x = (trimmed(a), parsed_i32(trimmed(b)).unwrap());
        crate::tree::lemma_split_concat(a, b, ' ');
        crate::tree::lemma_split_single(a, ' ');
        crate::tree::lemma_split_single(b, ' ');
        assert(split_pieces(ls[k], ' ') =~= seq![a, b]);
        assert(es[k] == Some(x));
        lemma_keep_some_has(es, k, x);
        assert(kept.to_multiset().count(x) > 0);
        assert(year_counts(output).to_multiset().count(x) > 0);
    }
}

} // verus!
