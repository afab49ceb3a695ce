use repo_summary::tree::{count_files_in_dirs, find_subtree, print_tree_entries, summarize_file_types, TreeEntry};

fn blob(name: &str) -> TreeEntry {
    TreeEntry::Blob { name: name.to_string() }
}

fn dir(name: &str, entries: Vec<TreeEntry>) -> TreeEntry {
    TreeEntry::Tree { name: name.to_string(), entries }
}

fn sample() -> Vec<TreeEntry> {
    vec![
        blob("README.md"),
        dir("src", vec![blob("main.rs"), dir("bin", vec![blob("x.rs")]), blob("lib.rs"), blob("notes.md")]),
        TreeEntry::Other { name: "sub".to_string() },
        dir(".github", vec![blob("ci.yml")]),
    ]
}

fn strings(v: &[&str]) -> Vec<String> {
    v.iter().map(|s| s.to_string()).collect()
}

#[test]
fn files_are_listed_in_tree_order() {
    let t = sample();
    assert_eq!(
        print_tree_entries(&t, String::new(), false),
        strings(&["README.md", "src/main.rs", "src/bin/x.rs", "src/lib.rs", "src/notes.md", ".github/ci.yml"])
    );
}

#[test]
fn directories_are_listed_in_tree_order() {
    let t = sample();
    assert_eq!(print_tree_entries(&t, String::new(), true), strings(&["src", "src/bin", ".github"]));
}

#[test]
fn listing_under_a_directory_keeps_its_name() {
    let t = sample();
    let src = find_subtree(&t, "src").unwrap();
    assert_eq!(
        print_tree_entries(src, "src".to_string(), false),
        strings(&["src/main.rs", "src/bin/x.rs", "src/lib.rs", "src/notes.md"])
    );
}

#[test]
fn subtrees_are_found_by_path() {
    let t = sample();
    assert_eq!(find_subtree(&t, "src/bin").map(|e| e.len()), Some(1));
    assert_eq!(find_subtree(&t, "src/bin/").map(|e| e.len()), Some(1));
    assert!(find_subtree(&t, "src//bin").is_none());
    assert!(find_subtree(&t, "").is_none());
    assert!(find_subtree(&t, "README.md").is_none());
    assert!(find_subtree(&t, "nothing").is_none());
    assert!(find_subtree(&t, "/src").is_none());
}

#[test]
fn file_types_are_counted_in_order_of_first_file() {
    let files = strings(&["a.rs", "b.md", "c.rs", "Makefile", "d.tar.gz", "e.rs"]);
    assert_eq!(
        summarize_file_types(files),
        vec![
            ("rs".to_string(), 3),
            ("md".to_string(), 1),
            ("Makefile".to_string(), 1),
            ("gz".to_string(), 1)
        ]
    );
    assert_eq!(summarize_file_types(vec![]), vec![]);
}

#[test]
fn file_type_counts_add_up() {
    let files = strings(&["x.c", "y.h", "z.c", "w.c", "README"]);
    let n = files.len();
    let counts = summarize_file_types(files);
    assert_eq!(counts.iter().map(|c| c.1).sum::<usize>(), n);
}

#[test]
fn directories_are_reported_with_counts() {
    let t = sample();
    let dirs = print_tree_entries(&t, String::new(), true);
    let report = count_files_in_dirs(dirs, &t);
    assert_eq!(
        report,
        vec![
            ("src".to_string(), (4, "rs: 3 md: 1 ".to_string())),
            ("src/bin".to_string(), (1, "rs: 1 ".to_string()))
        ]
    );
}

#[test]
fn listed_directories_resolve_and_count_their_files() {
    let t = sample();
    let dirs = print_tree_entries(&t, String::new(), true);
    let all_files = print_tree_entries(&t, String::new(), false);
    for d in &dirs {
        assert!(find_subtree(&t, d).is_some(), "{} resolves", d);
    }
    for (d, (count, _)) in count_files_in_dirs(dirs.clone(), &t) {
        let prefix = format!("{}/", d);
        let under: Vec<&String> = all_files.iter().filter(|f| f.starts_with(&prefix)).collect();
        assert_eq!(count, under.len(), "files under {}", d);
        let listed = print_tree_entries(find_subtree(&t, &d).unwrap(), d.clone(), false);
        assert_eq!(listed.iter().collect::<Vec<_>>(), under);
    }
}

#[test]
fn repeated_directories_are_reported_once() {
    let t = sample();
    let dirs = strings(&["src", "src/bin", "src", ".github", "src/bin"]);
    let report = count_files_in_dirs(dirs, &t);
    assert_eq!(
        report,
        vec![
            ("src".to_string(), (4, "rs: 3 md: 1 ".to_string())),
            ("src/bin".to_string(), (1, "rs: 1 ".to_string()))
        ]
    );
    assert_eq!(count_files_in_dirs(vec![], &t), vec![]);
}

#[test]
fn subdirectory_holds_no_more_files_than_parent() {
    let t = sample();
    let report = count_files_in_dirs(strings(&["src", "src/bin"]), &t);
    assert!(report[1].1 .0 <= report[0].1 .0);
}

#[test]
fn listing_under_a_prefix_prepends_it() {
    let t = sample();
    let root = print_tree_entries(&t, String::new(), false);
    let under = print_tree_entries(&t, "base/x".to_string(), false);
    let expected: Vec<String> = root.iter().map(|r| format!("base/x/{}", r)).collect();
    assert_eq!(under, expected);
}

#[test]
fn every_file_directory_is_listed_and_paths_are_distinct() {
    let t = sample();
    let files = print_tree_entries(&t, String::new(), false);
    let dirs = print_tree_entries(&t, String::new(), true);
    for f in &files {
        if let Some(pos) = f.rfind('/') {
            assert!(dirs.contains(&f[..pos].to_string()), "{} has its directory listed", f);
        }
    }
    for (i, a) in files.iter().enumerate() {
        assert!(!files[i + 1..].contains(a));
    }
    for (i, a) in dirs.iter().enumerate() {
        assert!(!dirs[i + 1..].contains(a));
    }
}

#[test]
fn file_type_counts_ignore_order_and_add_up() {
    let a = strings(&["x.rs", "y.md", "z.rs"]);
    let b = strings(&["w.md", "v.toml"]);
    let count = |v: Vec<String>, k: &str| {
        summarize_file_types(v).iter().find(|p| p.0 == k).map(|p| p.1).unwrap_or(0)
    };
    let mut ab = a.clone();
    ab.extend(b.clone());
    let mut ba = b.clone();
    ba.extend(a.clone());
    for k in ["rs", "md", "toml", "c"] {
        assert_eq!(count(ab.clone(), k), count(ba.clone(), k));
        assert_eq!(count(ab.clone(), k), count(a.clone(), k) + count(b.clone(), k));
    }
}

#[test]
fn directory_listing_of_entries_without_directories_under_any_path() {
    let flat = vec![blob("a.rs"), blob("b.md")];
    assert_eq!(print_tree_entries(&flat, "src".to_string(), true), Vec::<String>::new());
    assert_eq!(print_tree_entries(&flat, "src".to_string(), false), strings(&["src/a.rs", "src/b.md"]));
}

#[test]
fn trailing_slash_directory_counts_like_its_path() {
    let t = sample();
    let report = count_files_in_dirs(strings(&["src/", "src/bin", "src/bin/"]), &t);
    assert_eq!(report[0].1 .0, 4);
    assert_eq!(report[1].1 .0, 1);
    assert_eq!(report[2].1 .0, 1);
    assert!(report[1].1 .0 <= report[0].1 .0);
}

#[test]
fn listings_under_a_path_are_distinct() {
    let t = sample();
    for p in ["", "/root", "base"] {
        let files = print_tree_entries(&t, p.to_string(), false);
        for (i, a) in files.iter().enumerate() {
            assert!(!files[i + 1..].contains(a));
        }
    }
    let dirs = print_tree_entries(&t, "/root".to_string(), true);
    assert_eq!(dirs, strings(&["root/src", "root/src/bin", "root/.github"]));
}
