use repo_summary::history::{
    commit_year, count_commits, count_commits_by_year_slow, first_resolved, get_tags_ordered_by_date,
    mainline_refs, walk_commits, TagTarget,
};

#[test]
fn mainline_is_master_then_main_then_dev() {
    assert_eq!(mainline_refs(), vec!["origin/master", "origin/main", "origin/dev"]);
    assert_eq!(first_resolved(vec![None, Some(2), Some(3)]), Some(2));
    assert_eq!(first_resolved(vec![Some(1), Some(2), None]), Some(1));
    assert_eq!(first_resolved::<u8>(vec![None, None, None]), None);
    assert_eq!(first_resolved::<u8>(vec![]), None);
}

#[test]
fn commits_are_walked_and_counted() {
    let objects = vec![Some(10), None, Some(20), Some(5)];
    assert_eq!(walk_commits(&objects), vec![10, 20, 5]);
    assert_eq!(count_commits(&objects), 3);
    assert_eq!(count_commits(&vec![]), 0);
}

#[test]
fn years_are_counted_from_the_epoch() {
    assert_eq!(commit_year(0), 1970);
    assert_eq!(commit_year(31_556_951), 1970);
    assert_eq!(commit_year(31_556_952), 1971);
    assert_eq!(commit_year(1_700_000_000), 2023);
    assert_eq!(commit_year(-1), 1970);
    assert_eq!(commit_year(-31_556_952), 1969);
    assert_eq!(commit_year(i64::MIN), 1970 + i64::MIN / 31_556_952);
}

#[test]
fn commits_per_year_add_up() {
    let objects = vec![Some(0), Some(1_700_000_000), None, Some(1_700_000_100), Some(-40_000_000)];
    let m = count_commits_by_year_slow(&objects);
    assert_eq!(m.len(), 3);
    assert_eq!(m[&1970], 1);
    assert_eq!(m[&2023], 2);
    assert_eq!(m[&1969], 1);
    assert_eq!(m.values().sum::<i32>() as usize, count_commits(&objects));
}

#[test]
fn tags_get_the_time_of_their_commit() {
    let tags = vec![
        ("v1".to_string(), TagTarget::Commit { time: 100 }),
        ("v2".to_string(), TagTarget::Annotated { commit_time: Some(200) }),
        ("v3".to_string(), TagTarget::Annotated { commit_time: None }),
        ("tree-tag".to_string(), TagTarget::Other),
    ];
    assert_eq!(get_tags_ordered_by_date(tags), vec![("v1".to_string(), 100), ("v2".to_string(), 200)]);
}

#[test]
fn a_repeated_tag_name_keeps_one_entry_with_the_later_time() {
    let tags = vec![
        ("v1".to_string(), TagTarget::Commit { time: 100 }),
        ("v2".to_string(), TagTarget::Commit { time: 150 }),
        ("v1".to_string(), TagTarget::Annotated { commit_time: Some(300) }),
        ("v2".to_string(), TagTarget::Other),
    ];
    assert_eq!(get_tags_ordered_by_date(tags), vec![("v1".to_string(), 300), ("v2".to_string(), 150)]);
}
