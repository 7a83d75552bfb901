//! Building provenance records from the commits Git reports.
use vstd::prelude::*;
use vstd::utf8::{decode_utf8, encode_utf8, is_char_boundary};
use crate::extract::{
    graph_sync_title, is_graph_sync, parse_rationale, parse_title, rationale_view, title_view,
};
use crate::git::{RawCommit, RawCommitView, commits_view};
use crate::paths::{classify, classify_view, excluded, is_excluded};
use crate::record::{
    Edge, EdgeType, EdgeView, Kind, Record, RecordView, SCHEMA_VERSION, edges_view, records_view,
    target_id,
};
use crate::text::{
    chars_of, insert_sorted_unique, lemma_sorted_strict_unique, opt_str, push_char, sorted_strict, strs,
    trim,
};

verus! {

pub open spec fn records_path_view(repo: Seq<char>) -> Seq<char> {
    let base = if repo.len() > 0 && repo.last() != '/' {
        repo.push('/')
    } else {
        repo
    };
    base + ".grafite/state/records/decisions.jsonl"@
}

/// Where `sync` writes the records of the repository at `repo`: the repository
/// path joined, as `Path::join` joins, with `.grafite/state/records/decisions.jsonl`.
pub fn records_path(repo: &str) -> (r: String)
    ensures
        r@ == records_path_view(repo@),
{
    let mut r = String::from_str(repo);
    let v = chars_of(repo);
    if v.len() > 0 && v[v.len() - 1] != '/' {
        push_char(&mut r, '/');
    }
    r.append(".grafite/state/records/decisions.jsonl");
    r
}

/// The first eight bytes of the UTF-8 encoding of `sha`, when they end on a
/// character boundary.
pub open spec fn short_id_view(sha: Seq<char>) -> Option<Seq<char>> {
    let bytes = encode_utf8(sha);
    if is_char_boundary(bytes, 8) {
        Some(decode_utf8(bytes.subrange(0, 8)))
    } else {
        None
    }
}

fn short_id(sha: &str) -> (r: Option<String>)
    ensures
        opt_str(r) == short_id_view(sha@),
{
    // Fixed width: git's auto-abbreviation varies with repository size.
    proof {
        vstd::utf8::encode_utf8_valid_utf8(sha@);
    }
    if sha.is_char_boundary(8) {
        let (head, _) = sha.split_at(8);
        proof {
            vstd::utf8::encode_utf8_decode_utf8(head@);
            assert(encode_utf8(head@) =~= encode_utf8(sha@).subrange(0, 8));
            assert(is_char_boundary(encode_utf8(sha@), 8));
        }
        let r = head.to_owned();
        assert(r@ == decode_utf8(encode_utf8(sha@).subrange(0, 8)));
        Some(r)
    } else {
        None
    }
}

/// A short id is a prefix of the full SHA whose UTF-8 encoding is exactly
/// eight bytes long.
pub proof fn lemma_short_id_is_eight_byte_prefix(sha: Seq<char>)
    ensures
        short_id_view(sha) matches Some(h) ==> h == sha.take(h.len() as int) && encode_utf8(h).len() == 8,
{
    let bytes = encode_utf8(sha);
    if is_char_boundary(bytes, 8) {
        vstd::utf8::encode_utf8_valid_utf8(sha);
        vstd::utf8::encode_utf8_decode_utf8(sha);
        vstd::utf8::decode_utf8_split(bytes, 8);
        vstd::utf8::valid_utf8_split(bytes, 8);
        let head = bytes.subrange(0, 8);
        vstd::utf8::decode_utf8_encode_utf8(head);
        let h = decode_utf8(head);
        let t = decode_utf8(bytes.subrange(8, bytes.len() as int));
        assert(sha == h + t);
        assert(sha.take(h.len() as int) =~= h);
    }
}

/// The commits that yield records: all but the graph-sync commits.
pub open spec fn kept_commits(cs: Seq<RawCommitView>) -> Seq<RawCommitView> {
    cs.filter(|c: RawCommitView| trim(c.subject) != graph_sync_title())
}

/// The identities of the targets a commit touches, excluded paths left out.
pub open spec fn edge_targets(c: RawCommitView) -> Set<Seq<char>> {
    Set::new(
        |id: Seq<char>|
            exists|k: int|
                0 <= k < c.touched.len() && !excluded(c.touched[k]) && id == target_id(
                    classify_view(#[trigger] c.touched[k]),
                ),
    )
}

pub open spec fn edge_ends(edges: Seq<EdgeView>) -> Seq<Seq<char>> {
    edges.map_values(|e: EdgeView| e.to)
}

/// The record a commit yields: identity from the full SHA, the parsed title
/// and rationale, and one `TOUCHES` edge per distinct target, sorted.
pub open spec fn record_of(r: RecordView, c: RawCommitView) -> bool {
    let title = title_view(c.subject);
    &&& r.schema_version == SCHEMA_VERSION
    &&& r.id == "commit:"@ + c.sha
    &&& r.short_id == short_id_view(c.sha)
    &&& r.kind == Kind::Commit
    &&& r.gitmoji == title.gitmoji
    &&& r.subject == Some(title.subject)
    &&& r.scope == title.scope
    &&& r.authored_at == Some(c.authored_at)
    &&& r.rationale == Some(rationale_view(c.body))
    &&& forall|k: int| 0 <= k < r.edges.len() ==> (#[trigger] r.edges[k]).edge_type == EdgeType::Touches
    &&& sorted_strict(edge_ends(r.edges))
    &&& edge_ends(r.edges).to_set() == edge_targets(c)
}

/// The records of `commits`: one per commit that is not a graph-sync, in order.
pub open spec fn records_of(rs: Seq<RecordView>, cs: Seq<RawCommitView>) -> bool {
    let kept = kept_commits(cs);
    &&& rs.len() == kept.len()
    &&& forall|i: int| 0 <= i < rs.len() ==> record_of(#[trigger] rs[i], kept[i])
}

fn edges_of(commit: &RawCommit) -> (edges: Vec<Edge>)
    ensures
        forall|k: int| 0 <= k < edges@.len() ==> (#[trigger] edges@[k]).edge_type == EdgeType::Touches,
        sorted_strict(edge_ends(edges_view(edges@))),
        edge_ends(edges_view(edges@)).to_set() == edge_targets(commit@),
{
    let ghost c = commit@;
    let mut ids: Vec<String> = Vec::new();
    let mut i: usize = 0;
    assert(strs(ids@).to_set() =~= Set::new(
        |id: Seq<char>|
            exists|k: int|
                0 <= k < 0 && !excluded(c.touched[k]) && id == target_id(
                    classify_view(#[trigger] c.touched[k]),
                ),
    ));
    while i < commit.touched.len()
        invariant
            c == commit@,
            0 <= i <= c.touched.len(),
            sorted_strict(strs(ids@)),
            strs(ids@).to_set() == Set::new(
                |id: Seq<char>|
                    exists|k: int|
                        0 <= k < i && !excluded(c.touched[k]) && id == target_id(
                            classify_view(#[trigger] c.touched[k]),
                        ),
            ),
        decreases c.touched.len() - i,
    {
        let path = commit.touched[i].as_str();
        let ghost before = strs(ids@).to_set();
        if !is_excluded(path) {
            let id = classify(path).id();
            let ghost idv = id@;
            insert_sorted_unique(&mut ids, id);
            assert(strs(ids@).to_set() =~= Set::new(
                |id: Seq<char>|
                    exists|k: int|
                        0 <= k < i + 1 && !excluded(c.touched[k]) && id == target_id(
                            classify_view(#[trigger] c.touched[k]),
                        ),
            )) by {
                assert forall|x: Seq<char>| #![trigger before.insert(idv).contains(x)]
                    (exists|k: int|
                        0 <= k < i + 1 && !excluded(c.touched[k]) && x == target_id(
                            classify_view(#[trigger] c.touched[k]),
                        )) implies before.insert(idv).contains(x) by {
                    let k = choose|k: int|
                        0 <= k < i + 1 && !excluded(c.touched[k]) && x == target_id(
                            classify_view(#[trigger] c.touched[k]),
                        );
                    if k < i {
                        assert(before.contains(x));
                    }
                }
                assert(before.insert(idv).contains(idv) ==> exists|k: int|
                    0 <= k < i + 1 && !excluded(c.touched[k]) && idv == target_id(
                        classify_view(#[trigger] c.touched[k]),
                    )) by {
                    assert(c.touched[i as int] == path@);
                }
            }
        } else {
            assert(strs(ids@).to_set() =~= Set::new(
                |id: Seq<char>|
                    exists|k: int|
                        0 <= k < i + 1 && !excluded(c.touched[k]) && id == target_id(
                            classify_view(#[trigger] c.touched[k]),
                        ),
            )) by {
                assert forall|x: Seq<char>| #![trigger before.contains(x)]
                    (exists|k: int|
                        0 <= k < i + 1 && !excluded(c.touched[k]) && x == target_id(
                            classify_view(#[trigger] c.touched[k]),
                        )) implies before.contains(x) by {
                    let k = choose|k: int|
                        0 <= k < i + 1 && !excluded(c.touched[k]) && x == target_id(
                            classify_view(#[trigger] c.touched[k]),
                        );
                    if k == i {
                        assert(c.touched[i as int] == path@);
                    }
                }
            }
        }
        i += 1;
    }
    let mut edges: Vec<Edge> = Vec::new();
    let mut j: usize = 0;
    while j < ids.len()
        invariant
            0 <= j <= ids@.len(),
            edges@.len() == j,
            forall|k: int| 0 <= k < j ==> (#[trigger] edges@[k]).edge_type == EdgeType::Touches,
            forall|k: int| 0 <= k < j ==> (#[trigger] edges@[k]).to@ == ids@[k]@,
        decreases ids@.len() - j,
    {
        edges.push(Edge { edge_type: EdgeType::Touches, to: ids[j].clone() });
        j += 1;
    }
    assert(edge_ends(edges_view(edges@)) =~= strs(ids@));
    edges
}

pub fn build_records(commits: &[RawCommit]) -> (records: Vec<Record>)
    ensures
        records_of(records_view(records@), commits_view(commits@)),
{
    let ghost cs = commits_view(commits@);
    let mut records: Vec<Record> = Vec::new();
    let mut i: usize = 0;
    while i < commits.len()
        invariant
            cs == commits_view(commits@),
            0 <= i <= commits@.len(),
            records_of(records_view(records@), cs.take(i as int)),
        decreases commits@.len() - i,
    {
        let commit = &commits[i];
        let ghost before = records_view(records@);
        proof {
            assert(cs.take(i + 1).drop_last() =~= cs.take(i as int));
            reveal_with_fuel(Seq::filter, 1);
        }
        if is_graph_sync(commit.subject.as_str()) {
            assert(kept_commits(cs.take(i + 1)) == kept_commits(cs.take(i as int)));
        } else {
            let title = parse_title(commit.subject.as_str());
            let record = Record {
                schema_version: SCHEMA_VERSION,
                id: String::from_str("commit:").concat(commit.sha.as_str()),
                short_id: short_id(commit.sha.as_str()),
                kind: Kind::Commit,
                gitmoji: title.gitmoji,
                subject: Some(title.subject),
                scope: title.scope,
                authored_at: Some(commit.authored_at.clone()),
                rationale: Some(parse_rationale(commit.body.as_str())),
                edges: edges_of(commit),
            };
            assert(kept_commits(cs.take(i + 1)) == kept_commits(cs.take(i as int)).push(cs[i as int]));
            assert(record_of(record@, cs[i as int]));
            records.push(record);
            assert(records_view(records@) =~= before.push(records@.last()@));
        }
        i += 1;
    }
    assert(cs.take(commits@.len() as int) =~= cs);
    records
}

/// Distinct paths have distinct target identities: the identity is the
/// five-character kind prefix followed by the path.
pub proof fn lemma_target_id_injective(p: Seq<char>, q: Seq<char>)
    ensures
        target_id(classify_view(p)) == target_id(classify_view(q)) ==> p == q,
{
    reveal_strlit("spec:");
    reveal_strlit("plan:");
    reveal_strlit("file:");
    assert(target_id(classify_view(p)).skip(5) =~= p);
    assert(target_id(classify_view(q)).skip(5) =~= q);
}

/// The records of a history are determined by the history: any two lists of
/// records that both meet `build_records`' contract for the same commits are
/// equal, so repeated runs over the same history produce the same records.
pub proof fn lemma_records_determined(
    cs: Seq<RawCommitView>,
    r1: Seq<RecordView>,
    r2: Seq<RecordView>,
)
    requires
        records_of(r1, cs),
        records_of(r2, cs),
    ensures
        r1 == r2,
{
    assert forall|i: int| 0 <= i < r1.len() implies r1[i] == r2[i] by {
        let a = r1[i];
        let b = r2[i];
        assert(record_of(a, kept_commits(cs)[i]));
        assert(record_of(b, kept_commits(cs)[i]));
        lemma_sorted_strict_unique(edge_ends(a.edges), edge_ends(b.edges));
        assert forall|k: int| 0 <= k < a.edges.len() implies a.edges[k] == b.edges[k] by {
            assert(edge_ends(a.edges)[k] == edge_ends(b.edges)[k]);
            assert(a.edges[k].edge_type == EdgeType::Touches);
            assert(b.edges[k].edge_type == EdgeType::Touches);
        }
        assert(a.edges =~= b.edges);
    }
    assert(r1 =~= r2);
}

/// No record carries an edge to an excluded path.
pub proof fn lemma_no_excluded_edges(
    rs: Seq<RecordView>,
    cs: Seq<RawCommitView>,
    i: int,
    k: int,
    p: Seq<char>,
)
    requires
        records_of(rs, cs),
        0 <= i < rs.len(),
        0 <= k < rs[i].edges.len(),
        excluded(p),
    ensures
        rs[i].edges[k].to != target_id(classify_view(p)),
{
    let c = kept_commits(cs)[i];
    assert(record_of(rs[i], c));
    let ends = edge_ends(rs[i].edges);
    assert(ends[k] == rs[i].edges[k].to);
    assert(ends.to_set().contains(ends[k]));
    assert(edge_targets(c).contains(ends[k]));
    let m = choose|m: int|
        0 <= m < c.touched.len() && !excluded(c.touched[m]) && ends[k] == target_id(
            classify_view(#[trigger] c.touched[m]),
        );
    lemma_target_id_injective(c.touched[m], p);
}

} // verus!
