# repo_summary

A verified core for a program that summarises a git repository as an HTML page: the
files and directories of the head tree and their extensions, the commits per year and
per author, the tags with their dates, and the files that look like release notes.

- `src/` is the library, verified with Verus:
  - `text.rs`: splitting, lines, trimming, integer parsing and decimal digits, each
    specified as the std operation it stands for;
  - `order.rs`: string order and the stable insertion sort, with its laws;
  - `counting.rs`: counting occurrences in order of first occurrence;
  - `tree.rs`: a plain model of a git tree, its listings, lookups and extension counts;
  - `history.rs`: branch choice, commit counts, commits per year, tag times;
  - `reports.rs`: reading the text that `git` prints (years, authors, release notes);
  - `render.rs`: the repository link and the template filters (minijinja, chrono).
- `app/main.rs` reads the repository with git2, runs the `git` commands, and renders the
  page with minijinja.
- `tests/` runs the library on concrete values, against std where it imitates std.
