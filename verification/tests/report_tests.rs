use repo_summary::reports::{
    author_status_command, count_commits_by_year, find_news, git_author_status, ls_files_command,
    news_path, parse_author_line, parse_year_line, select_news, year_counts_command,
};

#[test]
fn commands_name_the_repository() {
    assert_eq!(
        year_counts_command("/tmp/repo"),
        "git -C /tmp/repo log --format='%aD' | awk '{ year[$4]++ } END { for (y in year) print y, year[y] }'"
    );
    assert_eq!(author_status_command("/r"), "git -C /r shortlog -s -n --all");
    assert_eq!(ls_files_command("/r"), "git -C /r ls-files");
}

#[test]
fn year_lines_are_read() {
    assert_eq!(parse_year_line("2021 5"), Some(("2021".to_string(), 5)));
    assert_eq!(parse_year_line("2021 x"), None);
    assert_eq!(parse_year_line(" 2018  7"), None);
    assert_eq!(parse_year_line("2021 5 6"), None);
    assert_eq!(parse_year_line("2021 +5\r"), Some(("2021".to_string(), 5)));
}

#[test]
fn year_counts_come_sorted_by_year() {
    let out = "2021 5\n2019 3\nbad line\n2020 x\n 2018  7\n2000 12\n";
    assert_eq!(
        count_commits_by_year(out),
        vec![("2000".to_string(), 12), ("2019".to_string(), 3), ("2021".to_string(), 5)]
    );
}

#[test]
fn year_counts_sort_stably_and_as_strings() {
    let out = "2020 1\n999 4\n2020 2\n10000 9";
    assert_eq!(
        count_commits_by_year(out),
        vec![
            ("10000".to_string(), 9),
            ("2020".to_string(), 1),
            ("2020".to_string(), 2),
            ("999".to_string(), 4)
        ]
    );
    assert_eq!(count_commits_by_year(""), vec![]);
}

#[test]
fn author_lines_are_read() {
    assert_eq!(parse_author_line("   10\tAlice"), Some((10, "Alice".to_string())));
    assert_eq!(parse_author_line("10 Alice"), None);
    assert_eq!(parse_author_line("ten\tAlice"), None);
    let out = "   10\tAlice\n     3\tBob Smith \nnoise\n  1\ta\tb\n";
    assert_eq!(
        git_author_status(out),
        vec![(10, "Alice".to_string()), (3, "Bob Smith".to_string())]
    );
}

#[test]
fn news_paths_are_recognised() {
    assert!(news_path("changelog.md"));
    assert!(news_path("docs/news.txt"));
    assert!(!news_path("node_modules/x/changelog.md"));
    assert!(!news_path("tests/history.rs"));
    assert!(!news_path("src/main.rs"));
}

#[test]
fn news_is_found_shortest_first() {
    let out = "src/main.rs\nCHANGELOG.md\ndocs/NEWS\nnode_modules/a/CHANGELOG.md\nHISTORY.md\nvendor/NEWS\nRELEASES\n";
    assert_eq!(
        find_news(out),
        vec!["RELEASES".to_string(), "docs/NEWS".to_string(), "HISTORY.md".to_string(), "CHANGELOG.md".to_string()]
    );
}

#[test]
fn news_keeps_ten_and_is_stable() {
    let mut out = String::new();
    for i in 0..12 {
        out.push_str(&format!("news{}\n", i % 10));
    }
    out.push_str("a/NEWS\n");
    let found = find_news(&out);
    assert_eq!(found.len(), 10);
    assert_eq!(found[0], "news0");
    assert_eq!(found[1], "news1");
    assert_eq!(found[9], "news9");
    let wide = "ÄÄÄnews\nabcdnews\n";
    assert_eq!(find_news(wide), vec!["abcdnews".to_string(), "ÄÄÄnews".to_string()]);
}

#[test]
fn news_is_selected_by_the_lowered_names() {
    let lines: Vec<String> = ["A", "BB", "CCC", "DDDD"].iter().map(|s| s.to_string()).collect();
    let lowered: Vec<String> = ["x/news", "src/main.rs", "changelog", "test/news"].iter().map(|s| s.to_string()).collect();
    assert_eq!(select_news(&lines, &lowered), vec!["A".to_string(), "CCC".to_string()]);
    let many: Vec<String> = (0..15).map(|i| "n".repeat(15 - i)).collect();
    let low: Vec<String> = (0..15).map(|_| "news".to_string()).collect();
    let picked = select_news(&many, &low);
    assert_eq!(picked.len(), 10);
    assert_eq!(picked[0], "n");
    assert_eq!(picked[9], "nnnnnnnnnn");
}
