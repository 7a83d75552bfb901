//! The commits that `git log` reports, read from its formatted output.
use vstd::prelude::*;
use crate::error::{Error, ErrorView, Result};
use crate::text::{
    insert_sorted_unique, lemma_sorted_strict_unique, lemma_split_nonempty, lines, lines_str,
    sorted_strict, split, split_str, strs, trim, trim_end, trim_end_str, trim_str,
};

verus! {

/// One commit as Git reports it, before any interpretation.
#[derive(Debug)]
pub struct RawCommit {
    pub sha: String,
    pub authored_at: String,
    pub subject: String,
    pub body: String,
    pub touched: Vec<String>,
}

pub struct RawCommitView {
    pub sha: Seq<char>,
    pub authored_at: Seq<char>,
    pub subject: Seq<char>,
    pub body: Seq<char>,
    pub touched: Seq<Seq<char>>,
}

impl View for RawCommit {
    type V = RawCommitView;

    open spec fn view(&self) -> RawCommitView {
        RawCommitView {
            sha: self.sha@,
            authored_at: self.authored_at@,
            subject: self.subject@,
            body: self.body@,
            touched: strs(self.touched@),
        }
    }
}

impl Clone for RawCommit {
    fn clone(&self) -> (r: Self)
        ensures
            r@ == self@,
    {
        RawCommit {
            sha: self.sha.clone(),
            authored_at: self.authored_at.clone(),
            subject: self.subject.clone(),
            body: self.body.clone(),
            touched: crate::record::clone_strings(&self.touched),
        }
    }
}

pub open spec fn commits_view(v: Seq<RawCommit>) -> Seq<RawCommitView> {
    v.map_values(|c: RawCommit| c@)
}

// ASCII group/record separators cannot appear in a commit message written by
// the conventions, so they delimit fields without escaping.
pub const COMMIT_SEP: char = '\u{1d}';

pub const FIELD_SEP: char = '\u{1e}';

/// The per-commit chunks of `git log` output: what follows each commit
/// separator.
pub open spec fn log_chunks(out: Seq<char>) -> Seq<Seq<char>> {
    split(out, COMMIT_SEP).skip(1)
}

/// The field a chunk lacks, named as the error names it, when the chunk has
/// fewer than the four fields sha, authored date, subject and body.
pub open spec fn missing_field(fields: Seq<Seq<char>>) -> Option<Seq<char>> {
    if fields.len() < 2 {
        Some("authored date"@)
    } else if fields.len() < 3 {
        Some("subject"@)
    } else if fields.len() < 4 {
        Some("body"@)
    } else {
        None
    }
}

/// The error for a chunk that lacks a field.
pub open spec fn missing_field_error(what: Seq<char>, repo: Seq<char>) -> ErrorView {
    ErrorView {
        operation: "parse "@ + what + " from git log output"@,
        input: repo,
        cause: "field separator missing"@,
        remediation: "report this as a Grafite defect; the git log format is internal"@,
    }
}

/// The fifth field, when there is one: the `--name-only` path list.
pub open spec fn name_field(fields: Seq<Seq<char>>) -> Seq<char> {
    if fields.len() > 4 {
        fields[4]
    } else {
        Seq::empty()
    }
}

/// The non-empty trimmed lines of the path list.
pub open spec fn touched_paths(fields: Seq<Seq<char>>) -> Set<Seq<char>> {
    let ls = lines(name_field(fields));
    Set::new(|p: Seq<char>| p.len() > 0 && exists|k: int| 0 <= k < ls.len() && trim(ls[k]) == p)
}

/// The commit a complete chunk describes: its fields trimmed (the body only
/// at its end) and its paths sorted without duplicates.
pub open spec fn commit_of_fields(c: RawCommitView, fields: Seq<Seq<char>>) -> bool {
    &&& c.sha == trim(fields[0])
    &&& c.authored_at == trim(fields[1])
    &&& c.subject == trim(fields[2])
    &&& c.body == trim_end(fields[3])
    &&& sorted_strict(c.touched)
    &&& c.touched.to_set() == touched_paths(fields)
}

pub open spec fn chunk_fields(out: Seq<char>, i: int) -> Seq<Seq<char>> {
    split(log_chunks(out)[i], FIELD_SEP)
}

/// Whether every chunk of the output has its four fields.
pub open spec fn log_complete(out: Seq<char>) -> bool {
    forall|i: int| 0 <= i < log_chunks(out).len() ==> missing_field(#[trigger] chunk_fields(out, i)) is None
}

/// Field `index` of a split chunk, or the error that names `what` is missing.
pub fn next_field(fields: &Vec<String>, index: usize, what: &str, repo: &str) -> (r: Result<String>)
    ensures
        match r {
            Ok(f) => index < fields@.len() && f@ == fields@[index as int]@,
            Err(e) => index >= fields@.len() && e@ == missing_field_error(what@, repo@),
        },
{
    if index < fields.len() {
        Ok(fields[index].clone())
    } else {
        let operation = String::from_str("parse ").concat(what).concat(" from git log output");
        Err(
            Error::new(
                operation.as_str(),
                repo,
                "field separator missing",
                "report this as a Grafite defect; the git log format is internal",
            ),
        )
    }
}

/// The sorted, duplicate-free, non-empty trimmed lines of a path list.
fn touched_of(field: &str) -> (r: Vec<String>)
    ensures
        sorted_strict(strs(r@)),
        strs(r@).to_set() == Set::new(
            |p: Seq<char>|
                p.len() > 0 && exists|k: int|
                    0 <= k < lines(field@).len() && trim(lines(field@)[k]) == p,
        ),
{
    let ls = lines_str(field);
    let ghost lv = strs(ls@);
    let mut touched: Vec<String> = Vec::new();
    let mut i: usize = 0;
    assert(strs(touched@).to_set() =~= Set::new(
        |p: Seq<char>| p.len() > 0 && exists|k: int| 0 <= k < 0 && trim(lv[k]) == p,
    ));
    while i < ls.len()
        invariant
            lv == strs(ls@),
            lv == lines(field@),
            0 <= i <= ls@.len(),
            sorted_strict(strs(touched@)),
            strs(touched@).to_set() == Set::new(
                |p: Seq<char>| p.len() > 0 && exists|k: int| 0 <= k < i && trim(lv[k]) == p,
            ),
        decreases ls@.len() - i,
    {
        let t = trim_str(ls[i].as_str());
        let ghost before = strs(touched@).to_set();
        let ghost tv = t@;
        if t.as_str().is_empty() {
            assert(strs(touched@).to_set() =~= Set::new(
                |p: Seq<char>| p.len() > 0 && exists|k: int| 0 <= k < i + 1 && trim(lv[k]) == p,
            )) by {
                assert forall|p: Seq<char>| #![trigger before.contains(p)]
                    (p.len() > 0 && exists|k: int| 0 <= k < i + 1 && trim(lv[k]) == p)
                    implies before.contains(p) by {
                    let k = choose|k: int| 0 <= k < i + 1 && trim(lv[k]) == p;
                    if k == i {
                        assert(false);
                    }
                }
            }
        } else {
            insert_sorted_unique(&mut touched, t);
            assert(strs(touched@).to_set() =~= Set::new(
                |p: Seq<char>| p.len() > 0 && exists|k: int| 0 <= k < i + 1 && trim(lv[k]) == p,
            )) by {
                assert(trim(lv[i as int]) == tv);
                assert forall|p: Seq<char>| #![trigger before.insert(tv).contains(p)]
                    (p.len() > 0 && exists|k: int| 0 <= k < i + 1 && trim(lv[k]) == p)
                    implies before.insert(tv).contains(p) by {
                    let k = choose|k: int| 0 <= k < i + 1 && trim(lv[k]) == p;
                    if k < i {
                        assert(before.contains(p));
                    }
                }
            }
        }
        i += 1;
    }
    touched
}

pub fn parse_log(stdout: &str, repo: &str) -> (r: Result<Vec<RawCommit>>)
    ensures
        match r {
            Ok(commits) => {
                &&& log_complete(stdout@)
                &&& commits@.len() == log_chunks(stdout@).len()
                &&& forall|i: int|
                    0 <= i < commits@.len() ==> commit_of_fields(
                        #[trigger] commits@[i]@,
                        chunk_fields(stdout@, i),
                    )
            },
            Err(e) => exists|i: int|
                {
                    &&& 0 <= i < log_chunks(stdout@).len()
                    &&& forall|j: int|
                        0 <= j < i ==> missing_field(#[trigger] chunk_fields(stdout@, j)) is None
                    &&& missing_field(chunk_fields(stdout@, i)) is Some
                    &&& e@ == missing_field_error(
                        missing_field(chunk_fields(stdout@, i))->0,
                        repo@,
                    )
                },
        },
{
    let chunks = split_str(stdout, COMMIT_SEP);
    let ghost cv = strs(chunks@);
    proof {
        lemma_split_nonempty(stdout@, COMMIT_SEP);
    }
    let mut commits: Vec<RawCommit> = Vec::new();
    let mut i: usize = 1;
    while i < chunks.len()
        invariant
            cv == strs(chunks@),
            cv == split(stdout@, COMMIT_SEP),
            cv.skip(1) == log_chunks(stdout@),
            1 <= i <= chunks@.len(),
            commits@.len() == i - 1,
            forall|j: int| 0 <= j < i - 1 ==> missing_field(#[trigger] chunk_fields(stdout@, j)) is None,
            forall|j: int|
                0 <= j < i - 1 ==> commit_of_fields(#[trigger] commits@[j]@, chunk_fields(stdout@, j)),
        decreases chunks@.len() - i,
    {
        let fields = split_str(chunks[i].as_str(), FIELD_SEP);
        let ghost fv = strs(fields@);
        proof {
            lemma_split_nonempty(cv[i as int], FIELD_SEP);
            assert(log_chunks(stdout@)[i - 1] == cv[i as int]);
            assert(fv == chunk_fields(stdout@, i - 1));
        }
        let sha = match next_field(&fields, 0, "sha", repo) {
            Ok(f) => f,
            Err(e) => {
                return Err(e);
            },
        };
        let authored_at = match next_field(&fields, 1, "authored date", repo) {
            Ok(f) => f,
            Err(e) => {
                return Err(e);
            },
        };
        let subject = match next_field(&fields, 2, "subject", repo) {
            Ok(f) => f,
            Err(e) => {
                return Err(e);
            },
        };
        let body = match next_field(&fields, 3, "body", repo) {
            Ok(f) => f,
            Err(e) => {
                return Err(e);
            },
        };
        let names = if fields.len() > 4 {
            fields[4].clone()
        } else {
            String::new()
        };
        assert(names@ == name_field(fv));
        let touched = touched_of(names.as_str());
        assert(strs(touched@).to_set() =~= touched_paths(fv));
        let commit = RawCommit {
            sha: trim_str(sha.as_str()),
            authored_at: trim_str(authored_at.as_str()),
            subject: trim_str(subject.as_str()),
            body: trim_end_str(body.as_str()),
            touched,
        };
        commits.push(commit);
        i += 1;
    }
    Ok(commits)
}

/// The commits read from a `git log` output are determined by that output:
/// two readings that both meet `parse_log`'s contract agree.
pub proof fn lemma_commits_determined(out: Seq<char>, c1: Seq<RawCommitView>, c2: Seq<RawCommitView>)
    requires
        c1.len() == log_chunks(out).len(),
        c2.len() == log_chunks(out).len(),
        forall|i: int| 0 <= i < c1.len() ==> commit_of_fields(#[trigger] c1[i], chunk_fields(out, i)),
        forall|i: int| 0 <= i < c2.len() ==> commit_of_fields(#[trigger] c2[i], chunk_fields(out, i)),
    ensures
        c1 == c2,
{
    assert forall|i: int| 0 <= i < c1.len() implies c1[i] == c2[i] by {
        assert(commit_of_fields(c1[i], chunk_fields(out, i)));
        assert(commit_of_fields(c2[i], chunk_fields(out, i)));
        lemma_sorted_strict_unique(c1[i].touched, c2[i].touched);
    }
    assert(c1 =~= c2);
}

} // verus!
