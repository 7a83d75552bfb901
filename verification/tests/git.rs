use grafite::git::parse_log;

#[test]
fn parses_commits_from_formatted_log_output() {
    let out = "\u{1d}1111111111111111111111111111111111111111\u{1e}2026-01-02T00:00:00+00:00\u{1e}🐛 fix b: core\u{1e}### 🚀 Outcome\n- fixed.\n\u{1e}\n\nb.txt\n\u{1d}2222222222222222222222222222222222222222\u{1e}2026-01-01T00:00:00+00:00\u{1e}✨ add a: core\u{1e}\u{1e}\n\nz.txt\n a.txt \nz.txt\n";
    let commits = parse_log(out, "/repo").expect("parses");
    assert_eq!(commits.len(), 2);
    assert_eq!(commits[0].sha, "1111111111111111111111111111111111111111");
    assert_eq!(commits[0].subject, "🐛 fix b: core");
    assert_eq!(commits[0].body, "### 🚀 Outcome\n- fixed.");
    assert_eq!(commits[0].touched, vec!["b.txt".to_string()]);
    assert_eq!(commits[1].authored_at, "2026-01-01T00:00:00+00:00");
    assert_eq!(commits[1].body, "");
    assert_eq!(
        commits[1].touched,
        vec!["a.txt".to_string(), "z.txt".to_string()]
    );
}

#[test]
fn empty_log_yields_no_commits() {
    assert!(parse_log("", "/repo").expect("parses").is_empty());
}

#[test]
fn a_chunk_missing_a_field_names_it() {
    let err = parse_log("\u{1d}abc\u{1e}2026\u{1e}subject only", "/repo").unwrap_err();
    assert_eq!(
        err.message(),
        "failed to parse body from git log output: input /repo: field separator missing: report this as a Grafite defect; the git log format is internal"
    );
    let err = parse_log("\u{1d}abc", "/repo").unwrap_err();
    assert!(err.message().starts_with("failed to parse authored date from git log output"));
}
