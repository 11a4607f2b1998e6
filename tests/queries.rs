use mdb_code_insights::git::GitProxy;
use mdb_code_insights::model::{CommitCount, FileCoupling, SeenWith};
use mdb_code_insights::pipeline::{
    create_filter, date_cutoff, file_activity_pipeline, file_coupling_pipeline,
    file_ownership_pipeline, file_per_commit_pipeline, GroupKey, Stage,
};
use mdb_code_insights::store::{insert_failure_ignorable, only_duplicate_keys, DUPLICATE_KEY_ERR};
use mdb_code_insights::timestamp::{iso_date_to_datetime, parse_since, DateError};

#[test]
fn absent_since_adds_no_stage() {
    assert!(date_cutoff(None).is_empty());
    let with = date_cutoff(Some(100));
    assert_eq!(with.len(), 1);
    assert!(matches!(with[0], Stage::DateCutoff(100)));
    let without = create_filter(None, None);
    assert_eq!(without.len(), 1);
    assert!(matches!(without[0], Stage::Unwind));
}

#[test]
fn filter_with_since_and_prefix() {
    let f = create_filter(Some(5), Some("src/"));
    assert_eq!(f.len(), 3);
    assert!(matches!(f[0], Stage::DateCutoff(5)));
    assert!(matches!(f[1], Stage::Unwind));
    assert!(matches!(&f[2], Stage::PrefixMatch(p) if p == "src/"));
}

#[test]
fn activity_pipeline_reuses_filter() {
    let p = file_activity_pipeline(None, Some("lib/"));
    assert_eq!(p.len(), 3);
    assert!(matches!(p[0], Stage::Unwind));
    assert!(matches!(&p[1], Stage::PrefixMatch(x) if x == "lib/"));
    assert!(matches!(p[2], Stage::GroupByCount(GroupKey::Path)));
    let q = file_activity_pipeline(Some(9), None);
    assert_eq!(q.len(), 3);
    assert!(matches!(q[0], Stage::DateCutoff(9)));
}

#[test]
fn ownership_pipeline_stages() {
    let p = file_ownership_pipeline("src/a.rs", None);
    assert_eq!(p.len(), 3);
    assert!(matches!(p[0], Stage::Unwind));
    assert!(matches!(&p[1], Stage::PathIs(x) if x == "src/a.rs"));
    assert!(matches!(p[2], Stage::GroupByCount(GroupKey::Author)));
    assert_eq!(file_ownership_pipeline("src/a.rs", Some(1)).len(), 4);
}

#[test]
fn coupling_pipeline_stages() {
    let p = file_coupling_pipeline("src/a.rs", Some(3));
    assert_eq!(p.filter.len(), 2);
    assert!(matches!(p.filter[0], Stage::DateCutoff(3)));
    assert!(matches!(&p.filter[1], Stage::TouchesPath(x) if x == "src/a.rs"));
    assert_eq!(p.total_commits.len(), 1);
    assert!(matches!(p.total_commits[0], Stage::Count));
    assert_eq!(p.seen_with.len(), 3);
    assert!(matches!(p.seen_with[0], Stage::Unwind));
    assert!(matches!(&p.seen_with[1], Stage::PathIsNot(x) if x == "src/a.rs"));
    assert!(matches!(p.seen_with[2], Stage::GroupByCount(GroupKey::Path)));
    assert_eq!(file_coupling_pipeline("src/a.rs", None).filter.len(), 1);
}

#[test]
fn per_author_pipeline_is_one_stage() {
    let p = file_per_commit_pipeline();
    assert_eq!(p.len(), 1);
    assert!(matches!(p[0], Stage::AverageFilesByAuthor));
}

#[test]
fn coupling_total_of_unknown_file_is_zero() {
    let none = FileCoupling { total_commits: vec![], seen_with: vec![] };
    assert_eq!(none.total(), 0);
    assert!(none.seen_with.is_empty());
    let some = FileCoupling {
        total_commits: vec![CommitCount { commit: 2 }],
        seen_with: vec![SeenWith { _id: "src/b.rs".to_string(), count: 1 }],
    };
    assert_eq!(some.total(), 2);
}

#[test]
fn duplicate_only_failure_is_ignorable() {
    let dups = vec![DUPLICATE_KEY_ERR, DUPLICATE_KEY_ERR];
    assert!(insert_failure_ignorable(Some(&dups)));
    assert!(only_duplicate_keys(&dups));
    let mixed = vec![DUPLICATE_KEY_ERR, 121];
    assert!(!insert_failure_ignorable(Some(&mixed)));
    assert!(!insert_failure_ignorable(None));
    assert!(insert_failure_ignorable(Some(&vec![])));
}

#[test]
fn cutoff_dates_read_as_midnight_utc() {
    assert_eq!(iso_date_to_datetime("2024-01-02"), Ok(1704153600));
    assert_eq!(iso_date_to_datetime("1970-01-01"), Ok(0));
    assert_eq!(iso_date_to_datetime("2024/01/02"), Err(DateError::NotAYmdDate));
    assert_eq!(iso_date_to_datetime("2024-02-30"), Err(DateError::NotAYmdDate));
    assert_eq!(parse_since(None), Ok(None));
    assert_eq!(parse_since(Some("2024-01-01")), Ok(Some(1704067200)));
    assert_eq!(parse_since(Some("yesterday")), Err(DateError::NotAYmdDate));
}

#[test]
fn git_log_arguments() {
    let g = GitProxy::new("/repo");
    assert_eq!(g.working_dir(), "/repo");
    assert_eq!(
        g.log_args("2024-01-01"),
        vec![
            "log",
            "--numstat",
            "--date=iso-strict",
            "--pretty=format:--%h--%cd--%aN--%s",
            "--no-renames",
            "--after",
            "2024-01-01",
        ]
    );
}
