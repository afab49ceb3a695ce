use repo_summary::render::{format_date, repo_link, representable_time, urlize};

#[test]
fn repo_link_from_ssh_url() {
    assert_eq!(repo_link("git@github.com:user/repo.git"), "github.com/user/repo.git");
}

#[test]
fn repo_link_edge_cases() {
    assert_eq!(repo_link("https://github.com/u/r"), "https///github.com/u/r");
    assert_eq!(repo_link("a@b@"), "b");
    assert_eq!(repo_link("@"), "");
    assert_eq!(repo_link("x@@"), "");
    for url in ["git@host:a:b", "plain", "u@h@p:q"] {
        let expected = url.split_terminator("@").last().unwrap().replace(":", "/");
        assert_eq!(repo_link(url), expected);
        assert!(!repo_link(url).contains(':'));
    }
}

#[test]
fn urlize_makes_a_safe_link() {
    let v = urlize("github.com/u/r".to_string());
    assert_eq!(v.as_str(), Some("<a href=\"https:github.com/u/r\">github.com/u/r</a>"));
    assert!(v.is_safe());
}

#[test]
fn format_date_shows_utc_time() {
    let v = format_date(0);
    assert_eq!(v.as_str(), Some("1970-01-01 00:00:00"));
    assert!(v.is_safe());
    assert_eq!(format_date(1_700_000_000).as_str(), Some("2023-11-14 22:13:20"));
    assert_eq!(format_date(-1).as_str(), Some("1969-12-31 23:59:59"));
}

#[test]
#[allow(deprecated)]
fn representable_times_match_chrono() {
    for secs in [
        -8_334_601_228_801i64,
        -8_334_601_228_800,
        0,
        8_210_266_876_799,
        8_210_266_876_800,
        i64::MIN,
        i64::MAX,
    ] {
        assert_eq!(
            representable_time(secs),
            chrono::NaiveDateTime::from_timestamp_opt(secs, 0).is_some(),
            "at {}",
            secs
        );
    }
    assert!(format_date(8_210_266_876_799).as_str().unwrap().ends_with("23:59:59"));
}
