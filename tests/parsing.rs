use mdb_code_insights::parser::{parse_log, serialize_commits, CommitParser, ParseError};
use mdb_code_insights::text::{chars_of, decimal_text, parse_count};

fn lines(ls: &[&str]) -> Vec<String> {
    ls.iter().map(|l| l.to_string()).collect()
}

#[test]
fn example_log_gives_two_records() {
    let input = lines(&[
        "--abc123--2024-01-01T00:00:00Z--Alice--fix bug",
        "3\t1\tsrc/a.rs",
        "0\t0\tsrc/b.rs",
        "",
        "--def456--2024-01-02T00:00:00Z--Bob--add feature",
        "5\t0\tsrc/a.rs",
    ]);
    let commits = parse_log(&input).unwrap();
    assert_eq!(commits.len(), 2);
    let a = &commits[0];
    assert_eq!(a.commit, "abc123");
    assert_eq!(a.date, 1704067200);
    assert_eq!(a.author, "Alice");
    assert_eq!(a.summary, "fix bug");
    assert_eq!(a.files.len(), 2);
    assert_eq!((a.files[0].added, a.files[0].deleted), (3, 1));
    assert_eq!(a.files[0].filename, "src/a.rs");
    assert_eq!((a.files[1].added, a.files[1].deleted), (0, 0));
    assert_eq!(a.files[1].filename, "src/b.rs");
    let b = &commits[1];
    assert_eq!(b.commit, "def456");
    assert_eq!(b.date, 1704153600);
    assert_eq!(b.author, "Bob");
    assert_eq!(b.summary, "add feature");
    assert_eq!(b.files.len(), 1);
    assert_eq!((b.files[0].added, b.files[0].deleted), (5, 0));
    assert_eq!(b.files[0].filename, "src/a.rs");
}

#[test]
fn commit_without_stat_lines_is_kept() {
    let input = lines(&[
        "--m1--2024-01-01T00:00:00Z--Carol--merge branch",
        "",
        "--m2--2024-01-03T00:00:00Z--Carol--another merge",
    ]);
    let commits = parse_log(&input).unwrap();
    assert_eq!(commits.len(), 2);
    assert!(commits[0].files.is_empty());
    assert!(commits[1].files.is_empty());
    assert_eq!(commits[0].commit, "m1");
    assert_eq!(commits[1].commit, "m2");
}

#[test]
fn last_record_emitted_without_trailing_blank() {
    let input = lines(&["--x1--2024-01-01T00:00:00Z--Dan--one", "1\t2\tREADME.md"]);
    let commits = parse_log(&input).unwrap();
    assert_eq!(commits.len(), 1);
    assert_eq!(commits[0].files.len(), 1);
    let with_blank = lines(&["--x1--2024-01-01T00:00:00Z--Dan--one", "1\t2\tREADME.md", ""]);
    assert_eq!(parse_log(&with_blank).unwrap().len(), 1);
}

#[test]
fn dash_counts_read_as_zero() {
    let input = lines(&["--b1--2024-01-01T00:00:00Z--Eve--add image", "-\t-\tlogo.png", "7\t2\tsrc/lib.rs"]);
    let commits = parse_log(&input).unwrap();
    assert_eq!(commits[0].files.len(), 2);
    assert_eq!((commits[0].files[0].added, commits[0].files[0].deleted), (0, 0));
    assert_eq!(commits[0].files[0].filename, "logo.png");
    assert_eq!((commits[0].files[1].added, commits[0].files[1].deleted), (7, 2));
}

#[test]
fn empty_log_gives_no_records() {
    assert_eq!(parse_log(&Vec::new()).unwrap().len(), 0);
    assert_eq!(parse_log(&lines(&["", "  ", "\t"])).unwrap().len(), 0);
}

#[test]
fn stat_line_before_any_header_is_ignored() {
    let input = lines(&["4\t4\tstray.rs", "--h--2024-01-01T00:00:00Z--Fay--start"]);
    let commits = parse_log(&input).unwrap();
    assert_eq!(commits.len(), 1);
    assert!(commits[0].files.is_empty());
}

#[test]
fn short_stat_line_is_an_error() {
    let input = lines(&["--h--2024-01-01T00:00:00Z--Fay--start", "4\t4"]);
    assert_eq!(parse_log(&input).unwrap_err(), ParseError::MalformedStatLine);
}

#[test]
fn short_header_is_an_error() {
    let input = lines(&["--h--2024-01-01T00:00:00Z--Fay"]);
    assert_eq!(parse_log(&input).unwrap_err(), ParseError::MalformedHeader);
}

#[test]
fn malformed_date_is_an_error() {
    let input = lines(&["--h--2024-13-45--Fay--start"]);
    assert_eq!(parse_log(&input).unwrap_err(), ParseError::BadDate);
    let no_zone = lines(&["--h--2024-01-01T00:00:00--Fay--start"]);
    assert_eq!(parse_log(&no_zone).unwrap_err(), ParseError::BadDate);
}

#[test]
fn date_offset_is_applied() {
    let input = lines(&["--h--2024-01-01T02:00:00+02:00--Gus--tz"]);
    assert_eq!(parse_log(&input).unwrap()[0].date, 1704067200);
}

#[test]
fn text_after_a_fifth_marker_is_dropped() {
    let input = lines(&["--h--2024-01-01T00:00:00Z--Hal--part one--part two"]);
    assert_eq!(parse_log(&input).unwrap()[0].summary, "part one");
}

#[test]
fn path_with_spaces_is_kept_whole() {
    let input = lines(&["--h--2024-01-01T00:00:00Z--Ida--docs", "2\t0\tdocs/read me.md"]);
    assert_eq!(parse_log(&input).unwrap()[0].files[0].filename, "docs/read me.md");
}

#[test]
fn reserialized_log_parses_to_same_records() {
    let input = lines(&[
        "--abc123--2024-01-01T00:00:00Z--Alice--fix bug",
        "3\t1\tsrc/a.rs",
        "-\t-\tsrc/b.bin",
        "",
        "--def456--2024-01-02T05:06:07+01:00--Bob--add feature",
        "5\t0\tsrc/a.rs",
        "--e0--2024-02-01T00:00:00Z--Cy--empty merge",
    ]);
    let first = parse_log(&input).unwrap();
    let written = serialize_commits(&first).unwrap();
    assert_eq!(written[0], "--abc123--2024-01-01T00:00:00Z--Alice--fix bug");
    assert_eq!(written[1], "3\t1\tsrc/a.rs");
    assert_eq!(written[2], "0\t0\tsrc/b.bin");
    assert_eq!(written[3], "--def456--2024-01-02T04:06:07Z--Bob--add feature");
    let second = parse_log(&written).unwrap();
    assert_eq!(first.len(), second.len());
    for (x, y) in first.iter().zip(second.iter()) {
        assert_eq!(x.commit, y.commit);
        assert_eq!(x.date, y.date);
        assert_eq!(x.author, y.author);
        assert_eq!(x.summary, y.summary);
        assert_eq!(x.files.len(), y.files.len());
        for (f, g) in x.files.iter().zip(y.files.iter()) {
            assert_eq!((f.added, f.deleted, &f.filename), (g.added, g.deleted, &g.filename));
        }
    }
}

#[test]
fn streaming_parser_emits_on_next_header_and_finish() {
    let mut p = CommitParser::new();
    assert!(p.feed("--a--2024-01-01T00:00:00Z--Al--one").unwrap().is_none());
    assert!(p.feed("1\t1\tx.rs").unwrap().is_none());
    let done = p.feed("--b--2024-01-02T00:00:00Z--Bo--two").unwrap().unwrap();
    assert_eq!(done.commit, "a");
    assert_eq!(done.files.len(), 1);
    let last = p.finish().unwrap();
    assert_eq!(last.commit, "b");
    assert!(last.files.is_empty());
}

#[test]
fn counts_read_and_written_in_decimal() {
    let cs = chars_of("18446744073709551615 18446744073709551616 12a 007");
    assert_eq!(parse_count(&cs, 0, 20), u64::MAX);
    assert_eq!(parse_count(&cs, 21, 41), 0);
    assert_eq!(parse_count(&cs, 42, 45), 0);
    assert_eq!(parse_count(&cs, 46, 49), 7);
    assert_eq!(parse_count(&cs, 0, 0), 0);
    assert_eq!(decimal_text(0), "0");
    assert_eq!(decimal_text(1234), "1234");
    assert_eq!(decimal_text(u64::MAX), "18446744073709551615");
}

#[test]
fn chars_of_keeps_unicode() {
    assert_eq!(chars_of("Zoë—x"), vec!['Z', 'o', 'ë', '—', 'x']);
}

#[test]
fn unicode_whitespace_lines_are_blank() {
    let input = lines(&[
        "--u1--2024-01-01T00:00:00Z--Jo--one",
        "\u{b}",
        "1\t1\ta.rs",
        "\u{a0}\u{3000}",
        " \u{2028} ",
        "2\t0\tb.rs",
        "\u{85}",
    ]);
    let commits = parse_log(&input).unwrap();
    assert_eq!(commits.len(), 1);
    assert_eq!(commits[0].files.len(), 2);
    let mut p = CommitParser::new();
    p.feed("--u2--2024-01-01T00:00:00Z--Jo--two").unwrap();
    assert!(p.feed("\u{b}").unwrap().is_none());
    assert!(p.finish().unwrap().files.is_empty());
}

#[test]
fn plus_signed_counts_are_read() {
    let input = lines(&["--p1--2024-01-01T00:00:00Z--Kim--plus", "+5\t+0\tx.rs", "+\t+-1\ty.rs"]);
    let commits = parse_log(&input).unwrap();
    assert_eq!((commits[0].files[0].added, commits[0].files[0].deleted), (5, 0));
    assert_eq!((commits[0].files[1].added, commits[0].files[1].deleted), (0, 0));
    let cs = chars_of("+12");
    assert_eq!(parse_count(&cs, 0, 3), 12);
}

#[test]
fn one_record_per_header_line() {
    let input = lines(&[
        "--a--2024-01-01T00:00:00Z--A--x",
        "--b--2024-01-02T00:00:00Z--B--y",
        "1\t1\tf",
        "",
        "--c--2024-01-03T00:00:00Z--C--z",
    ]);
    let commits = parse_log(&input).unwrap();
    assert_eq!(commits.len(), 3);
    assert!(commits[0].files.is_empty());
    assert_eq!(commits[1].files.len(), 1);
    assert!(commits[2].files.is_empty());
}
