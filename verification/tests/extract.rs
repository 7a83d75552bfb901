use grafite::extract::{heading_index, is_graph_sync, parse_rationale, parse_title};
use grafite::record::Rationale;

const REAL_BODY: &str = "\
### ✅ New features
- Added diagnostic check in cli/asb/doctor.py for the Secret Service
  singleton (asb-keyring).

### 💡 Architecture improvements
- Replaced custom polling loop with check_keyring_service().

### 🧼 Best practices & validations
- Added unit tests in tests/unit/test_doctor.py.

### 🚀 Outcome
- Doctor diagnoses the Secret Service without mutating state.";

#[test]
fn splits_title_into_gitmoji_subject_and_scope() {
    let parsed = parse_title("✨ diagnose secret service in doctor: cli");
    assert_eq!(parsed.gitmoji.as_deref(), Some("✨"));
    assert_eq!(parsed.subject, "diagnose secret service in doctor");
    assert_eq!(parsed.scope.as_deref(), Some("cli"));
}

#[test]
fn title_without_scope_yields_no_scope() {
    let parsed = parse_title("🐛 fix the thing");
    assert_eq!(parsed.subject, "fix the thing");
    assert_eq!(parsed.scope, None);
}

#[test]
fn title_without_gitmoji_keeps_its_first_word() {
    let parsed = parse_title("  fix the thing: core  ");
    assert_eq!(parsed.gitmoji, None);
    assert_eq!(parsed.subject, "fix the thing");
    assert_eq!(parsed.scope.as_deref(), Some("core"));
}

#[test]
fn scope_follows_the_last_colon_space() {
    let parsed = parse_title("✨  a: b: c ");
    assert_eq!(parsed.gitmoji.as_deref(), Some("✨"));
    assert_eq!(parsed.subject, "a: b");
    assert_eq!(parsed.scope.as_deref(), Some("c"));
}

#[test]
fn single_token_title_is_all_subject() {
    let parsed = parse_title("✨");
    assert_eq!(parsed.gitmoji, None);
    assert_eq!(parsed.subject, "✨");
    assert_eq!(parsed.scope, None);
}

#[test]
fn parses_all_five_sections() {
    let rationale = parse_rationale(REAL_BODY);
    assert_eq!(rationale.new_features.len(), 1);
    assert!(rationale.new_features[0].contains("asb-keyring"));
    assert_eq!(rationale.architecture.len(), 1);
    assert_eq!(rationale.validations.len(), 1);
    assert!(rationale.security.is_empty());
    assert_eq!(rationale.outcome.len(), 1);
}

#[test]
fn bullets_spanning_lines_are_joined() {
    let rationale = parse_rationale(REAL_BODY);
    assert!(
        rationale.new_features[0].contains("singleton (asb-keyring)"),
        "continuation line must join its bullet: {:?}",
        rationale.new_features[0]
    );
}

#[test]
fn body_without_headings_yields_empty_rationale_not_an_error() {
    let rationale = parse_rationale("just some prose with no headings");
    assert_eq!(rationale, Rationale::default());
}

#[test]
fn recognizes_graph_sync_commits() {
    assert!(is_graph_sync("🕸️ sync knowledge graph"));
    assert!(!is_graph_sync("✨ add a thing: core"));
}

#[test]
fn graph_sync_title_is_recognized_after_trimming() {
    assert!(is_graph_sync("  🕸️ sync knowledge graph\n"));
    assert!(!is_graph_sync("🕸️ sync knowledge graph now"));
}

#[test]
fn unbulleted_text_under_heading_is_captured() {
    let body = "\
### 🚀 Outcome
Initial unbulleted outcome sentence.
Continuation of unbulleted sentence.";
    let rationale = parse_rationale(body);
    assert_eq!(rationale.outcome.len(), 1);
    assert_eq!(
        rationale.outcome[0],
        "Initial unbulleted outcome sentence. Continuation of unbulleted sentence."
    );
}

#[test]
fn text_before_the_first_heading_is_ignored() {
    let body = "preamble\n- not a bullet of any section\n### 🔐 Security & Access Control\n-  Locked down.  \r\n\n- Second.";
    let rationale = parse_rationale(body);
    assert_eq!(
        rationale.security,
        vec!["Locked down.".to_string(), "Second.".to_string()]
    );
    assert!(rationale.new_features.is_empty());
}

#[test]
fn headings_are_matched_exactly_after_trimming() {
    assert_eq!(heading_index("### ✅ New features"), Some(0));
    assert_eq!(heading_index("### 💡 Architecture improvements"), Some(1));
    assert_eq!(heading_index("### 🧼 Best practices & validations"), Some(2));
    assert_eq!(heading_index("### 🔐 Security & Access Control"), Some(3));
    assert_eq!(heading_index("### 🚀 Outcome"), Some(4));
    assert_eq!(heading_index("### Outcome"), None);
    let rationale = parse_rationale("   ### 🚀 Outcome   \n- Done.");
    assert_eq!(rationale.outcome, vec!["Done.".to_string()]);
}
