use coco_branches::branch::{reports_of, CocoBranch, FormatBranch};
use coco_branches::report::{assemble_report, render_report, report_from_branches, ReportError};
use coco_branches::time_format::format_unix_time;

fn master() -> CocoBranch {
    CocoBranch {
        name: "master".to_string(),
        first_commit_date: 1610519809,
        last_commit_date: 1610541520,
        duration: 21711,
        author: "GitHub".to_string(),
        committer: "Phodal HUANG".to_string(),
    }
}

const MASTER_JSON: &str = "[\n  {\n    \"name\": \"master\",\n    \"author\": \"GitHub\",\n    \"committer\": \"Phodal HUANG\",\n    \"first_commit_str\": \"2021-01-13 06:36:49\",\n    \"last_commit_str\": \"2021-01-13 12:38:40\",\n    \"first_commit_date\": 1610519809,\n    \"last_commit_date\": 1610541520\n  }\n]";

#[test]
fn should_output_really_date() {
    let branch = FormatBranch::from(CocoBranch {
        name: "master".to_string(),
        first_commit_date: 1610519809,
        last_commit_date: 1610541520,
        duration: 21711,
        author: "GitHub".to_string(),
        committer: "Phodal HUANG".to_string(),
    });

    assert_eq!("2021-01-13 06:36:49", branch.first_commit_str);
    assert_eq!("2021-01-13 12:38:40", branch.last_commit_str);
}

#[test]
fn report_keeps_listed_fields() {
    let branch = FormatBranch::from(master());
    assert_eq!(branch.name, "master");
    assert_eq!(branch.author, "GitHub");
    assert_eq!(branch.committer, "Phodal HUANG");
    assert_eq!(branch.first_commit_date, 1610519809);
    assert_eq!(branch.last_commit_date, 1610541520);
}

#[test]
fn formatting_twice_gives_the_same_text() {
    assert_eq!(format_unix_time(1610519809), format_unix_time(1610519809));
    assert_eq!(format_unix_time(-12345678), format_unix_time(-12345678));
}

#[test]
fn epoch_zero_formats_as_start_of_1970() {
    assert_eq!(format_unix_time(0), "1970-01-01 00:00:00");
}

#[test]
fn negative_epochs_format_before_1970() {
    assert_eq!(format_unix_time(-1), "1969-12-31 23:59:59");
    assert_eq!(format_unix_time(-86400), "1969-12-31 00:00:00");
    assert_eq!(format_unix_time(-86401), "1969-12-30 23:59:59");
}

#[test]
fn leap_days_are_counted() {
    assert_eq!(format_unix_time(951782400), "2000-02-29 00:00:00");
    assert_eq!(format_unix_time(951868800), "2000-03-01 00:00:00");
    assert_eq!(format_unix_time(4107542399), "2100-02-28 23:59:59");
    assert_eq!(format_unix_time(4107542400), "2100-03-01 00:00:00");
}

#[test]
fn years_outside_four_digits() {
    assert_eq!(format_unix_time(-62167219200), "0000-01-01 00:00:00");
    assert_eq!(format_unix_time(-62198755200), "-0001-01-01 00:00:00");
    assert_eq!(format_unix_time(253402300799), "9999-12-31 23:59:59");
    assert_eq!(format_unix_time(253402300800), "10000-01-01 00:00:00");
}

#[test]
fn extreme_epochs_format() {
    assert_eq!(format_unix_time(i64::MAX), "292277026596-12-04 15:30:07");
    assert_eq!(format_unix_time(i64::MIN), "-292277022657-01-27 08:29:52");
}

#[test]
fn empty_listing_gives_empty_array() {
    assert_eq!(report_from_branches(Vec::new()), "[]");
    assert_eq!(render_report(&Vec::new()), "[]");
}

#[test]
fn rendering_twice_gives_the_same_text() {
    let reports = reports_of(vec![master(), master()]);
    assert_eq!(render_report(&reports), render_report(&reports));
}

#[test]
fn one_branch_report_text() {
    assert_eq!(report_from_branches(vec![master()]), MASTER_JSON);
}

#[test]
fn reports_keep_listing_order() {
    let mut second = master();
    second.name = "dev".to_string();
    let reports = reports_of(vec![master(), second]);
    assert_eq!(reports.len(), 2);
    assert_eq!(reports[0].name, "master");
    assert_eq!(reports[1].name, "dev");
}

#[test]
fn two_branches_with_escaping_and_negative_dates() {
    let other = CocoBranch {
        name: "feat/\"quoted\"".to_string(),
        first_commit_date: -5,
        last_commit_date: 0,
        duration: 5,
        author: "a\\b".to_string(),
        committer: "line\nbreak".to_string(),
    };
    let text = report_from_branches(vec![master(), other]);
    let expected = "[\n  {\n    \"name\": \"master\",\n    \"author\": \"GitHub\",\n    \"committer\": \"Phodal HUANG\",\n    \"first_commit_str\": \"2021-01-13 06:36:49\",\n    \"last_commit_str\": \"2021-01-13 12:38:40\",\n    \"first_commit_date\": 1610519809,\n    \"last_commit_date\": 1610541520\n  },\n  {\n    \"name\": \"feat/\\\"quoted\\\"\",\n    \"author\": \"a\\\\b\",\n    \"committer\": \"line\\nbreak\",\n    \"first_commit_str\": \"1969-12-31 23:59:55\",\n    \"last_commit_str\": \"1970-01-01 00:00:00\",\n    \"first_commit_date\": -5,\n    \"last_commit_date\": 0\n  }\n]";
    assert_eq!(text, expected);
}

#[test]
fn source_failure_gives_no_report() {
    let r = assemble_report(Err("no such repository".to_string()));
    assert_eq!(r, Err(ReportError::Source("no such repository".to_string())));
}

#[test]
fn listing_failure_gives_no_report() {
    let r = assemble_report(Ok(Err("bad handle".to_string())));
    assert_eq!(r, Err(ReportError::Enumeration("bad handle".to_string())));
}

#[test]
fn successful_run_gives_report() {
    assert_eq!(assemble_report(Ok(Ok(vec![master()]))), Ok(MASTER_JSON.to_string()));
    assert_eq!(assemble_report(Ok(Ok(Vec::new()))), Ok("[]".to_string()));
}
