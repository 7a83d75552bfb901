use grafite::paths::{classify, is_excluded};
use grafite::record::Target;

#[test]
fn classifies_specs_and_plans_by_prefix() {
    assert_eq!(
        classify("docs/superpowers/specs/2026-09-06-x-design.md"),
        Target::Spec("docs/superpowers/specs/2026-09-06-x-design.md".into())
    );
    assert_eq!(
        classify("docs/superpowers/plans/2026-09-06-x.md"),
        Target::Plan("docs/superpowers/plans/2026-09-06-x.md".into())
    );
}

#[test]
fn classifies_everything_else_as_file() {
    assert_eq!(
        classify("cli/asb/doctor.py"),
        Target::File("cli/asb/doctor.py".into())
    );
    // A non-markdown file inside the specs directory is still a file.
    assert_eq!(
        classify("docs/superpowers/specs/diagram.png"),
        Target::File("docs/superpowers/specs/diagram.png".into())
    );
}

#[test]
fn markdown_outside_the_document_prefixes_is_a_file() {
    assert_eq!(classify("AGENTS.md"), Target::File("AGENTS.md".into()));
    assert_eq!(
        classify("x/docs/superpowers/specs/a.md"),
        Target::File("x/docs/superpowers/specs/a.md".into())
    );
}

#[test]
fn excludes_secret_bearing_paths() {
    for path in [
        ".env",
        ".env.local",
        "image/.env.production",
        "keyring.pass",
        "secrets/db.pass",
        "home/.ssh/id_ed25519",
        "home/.ssh/id_ed25519.pub",
        ".agent-sandbox.toml",
        "state/runtime.json",
        "scratch/tmp.txt",
    ] {
        assert!(is_excluded(path), "must exclude {path}");
    }
}

#[test]
fn does_not_exclude_ordinary_paths() {
    for path in [
        "cli/asb/doctor.py",
        "docs/domains/rust/conventions.md",
        "AGENTS.md",
    ] {
        assert!(!is_excluded(path), "must not exclude {path}");
    }
}

#[test]
fn excluded_directories_match_whole_components_anywhere() {
    assert!(is_excluded("a/state/b.txt"));
    assert!(is_excluded("a/b/scratch"));
    assert!(!is_excluded("statement/b.txt"));
    assert!(!is_excluded("docs/env.md"));
    // Secret file names are judged on the last component only.
    assert!(!is_excluded("docs/.env/readme.md"));
    assert!(is_excluded("docs/readme.pass"));
}
