use grafite::record::{join_lines, record_lines, Target};

#[test]
fn target_ids_are_prefixed_by_kind() {
    assert_eq!(Target::File("a/b.rs".into()).id(), "file:a/b.rs");
    assert_eq!(Target::Spec("docs/s.md".into()).id(), "spec:docs/s.md");
    assert_eq!(Target::Plan("docs/p.md".into()).id(), "plan:docs/p.md");
    assert_eq!(Target::Adr("docs/a.md".into()).id(), "adr:docs/a.md");
}

#[test]
fn jsonl_framing_ends_every_record_with_a_newline() {
    let text = join_lines(&["{\"a\":1}".to_string(), "{\"b\":2}".to_string()]);
    assert_eq!(text, "{\"a\":1}\n{\"b\":2}\n");
    assert_eq!(join_lines(&[]), "");
}

#[test]
fn record_lines_skip_blank_lines_and_count_from_one() {
    let lines = record_lines("{\"a\":1}\n\n  \r\n{\"b\":2}\r\n{\"c\":3}");
    assert_eq!(
        lines,
        vec![
            (1, "{\"a\":1}".to_string()),
            (4, "{\"b\":2}".to_string()),
            (5, "{\"c\":3}".to_string())
        ]
    );
}

#[test]
fn framed_lines_read_back_as_written() {
    let written = vec!["{\"x\":\"y\"}".to_string(), "{}".to_string()];
    let read = record_lines(&join_lines(&written));
    assert_eq!(read, vec![(1, written[0].clone()), (2, written[1].clone())]);
}
