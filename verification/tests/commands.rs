use grafite::commands::{build_records, records_path};
use grafite::git::RawCommit;

#[test]
fn records_path_matches_expected() {
    let repo = "/workspace";
    assert_eq!(
        records_path(repo),
        "/workspace/.grafite/state/records/decisions.jsonl"
    );
}

#[test]
fn records_path_does_not_double_a_trailing_separator() {
    assert_eq!(
        records_path("/workspace/"),
        "/workspace/.grafite/state/records/decisions.jsonl"
    );
    assert_eq!(records_path(""), ".grafite/state/records/decisions.jsonl");
}

#[test]
fn build_records_discards_graph_sync_and_dedups_edges() {
    let commits = vec![
        RawCommit {
            sha: "1234567890abcdef1234567890abcdef12345678".into(),
            authored_at: "2026-01-01T00:00:00+00:00".into(),
            subject: "✨ add feature: core".into(),
            body: "### 🚀 Outcome\n- Done.".into(),
            touched: vec!["src/main.rs".into(), "src/main.rs".into(), ".env".into()],
        },
        RawCommit {
            sha: "abcdef1234567890abcdef1234567890abcdef12".into(),
            authored_at: "2026-01-02T00:00:00+00:00".into(),
            subject: "🕸️ sync knowledge graph".into(),
            body: "".into(),
            touched: vec!["graphify-out/graph.json".into()],
        },
    ];

    let records = build_records(&commits);
    assert_eq!(records.len(), 1);
    assert_eq!(
        records[0].id,
        "commit:1234567890abcdef1234567890abcdef12345678"
    );
    assert_eq!(records[0].short_id.as_deref(), Some("12345678"));
    assert_eq!(records[0].gitmoji.as_deref(), Some("✨"));
    assert_eq!(records[0].edges.len(), 1);
    assert_eq!(records[0].edges[0].to, "file:src/main.rs");
}

fn commit(sha: &str, subject: &str, body: &str, touched: &[&str]) -> RawCommit {
    RawCommit {
        sha: sha.to_string(),
        authored_at: "2026-01-01T00:00:00+00:00".to_string(),
        subject: subject.to_string(),
        body: body.to_string(),
        touched: touched.iter().map(|p| p.to_string()).collect(),
    }
}

#[test]
fn build_records_fills_every_field_of_a_commit_record() {
    let records = build_records(&[commit(
        "4bc618c55e888ceb468e06fe89597c42ff052751",
        "✨ diagnose secret service: cli",
        "### 💡 Architecture improvements\n- Reused the check.",
        &["cli/asb/doctor.py"],
    )]);
    let r = &records[0];
    assert_eq!(r.schema_version, 1);
    assert_eq!(r.kind, grafite::record::Kind::Commit);
    assert_eq!(r.subject.as_deref(), Some("diagnose secret service"));
    assert_eq!(r.scope.as_deref(), Some("cli"));
    assert_eq!(r.authored_at.as_deref(), Some("2026-01-01T00:00:00+00:00"));
    let rationale = r.rationale.as_ref().expect("rationale");
    assert_eq!(rationale.architecture, vec!["Reused the check.".to_string()]);
    assert!(rationale.outcome.is_empty());
    assert_eq!(r.edges[0].edge_type, grafite::record::EdgeType::Touches);
    assert_eq!(r.edges[0].to, "file:cli/asb/doctor.py");
}

#[test]
fn build_records_sorts_edges_and_classifies_documents() {
    let records = build_records(&[commit(
        "0000000000000000000000000000000000000001",
        "📝 add docs: design",
        "",
        &[
            "z.rs",
            "docs/superpowers/plans/p.md",
            "a.rs",
            "docs/superpowers/specs/s.md",
            "state/x.json",
            "a.rs",
        ],
    )]);
    let ends: Vec<&str> = records[0].edges.iter().map(|e| e.to.as_str()).collect();
    assert_eq!(
        ends,
        vec![
            "file:a.rs",
            "file:z.rs",
            "plan:docs/superpowers/plans/p.md",
            "spec:docs/superpowers/specs/s.md"
        ]
    );
}

#[test]
fn build_records_keeps_commit_order() {
    let records = build_records(&[
        commit("bbbbbbbbbb", "🐛 second", "", &[]),
        commit("aaaaaaaaaa", "✨ first", "", &[]),
    ]);
    assert_eq!(records[0].id, "commit:bbbbbbbbbb");
    assert_eq!(records[1].id, "commit:aaaaaaaaaa");
    assert!(records[0].edges.is_empty());
}

#[test]
fn short_ids_need_eight_bytes_on_a_character_boundary() {
    let records = build_records(&[
        commit("abc", "✨ short", "", &[]),
        commit("abcdefgh", "✨ exact", "", &[]),
        commit("abcdefg✨", "✨ split", "", &[]),
        commit("abcde✨xyz", "✨ boundary", "", &[]),
    ]);
    assert_eq!(records[0].short_id, None);
    assert_eq!(records[1].short_id.as_deref(), Some("abcdefgh"));
    assert_eq!(records[2].short_id, None);
    assert_eq!(records[3].short_id.as_deref(), Some("abcde✨"));
}

#[test]
fn excluded_paths_leave_no_edge() {
    let records = build_records(&[commit(
        "0000000000000000000000000000000000000002",
        "🔧 add env: config",
        "### 🚀 Outcome\n- Added.",
        &[".env", "secrets/db.pass", "home/.ssh/id_ed25519"],
    )]);
    assert!(records[0].edges.is_empty());
}
