//! The native `why` query over provenance records.
use vstd::prelude::*;
use crate::commands::{edge_ends, edge_targets, kept_commits, record_of, records_of};
use crate::git::RawCommitView;
use crate::paths::{classify, classify_view, excluded};
use crate::record::{Record, RecordView, records_view, target_id};
use crate::text::{lemma_lex_asymmetric, lemma_lex_le_transitive, lex_less, lex_lt, str_eq};

verus! {

/// Whether a record has an edge to `target`.
pub open spec fn touches(r: RecordView, target: Seq<char>) -> bool {
    exists|k: int| 0 <= k < r.edges.len() && (#[trigger] r.edges[k]).to == target
}

/// The records with an edge to `target`, in their order.
pub open spec fn touching(rs: Seq<RecordView>, target: Seq<char>) -> Seq<RecordView> {
    rs.filter(|r: RecordView| touches(r, target))
}

/// `sorted` with `r` placed after every record whose id is not greater.
pub open spec fn insert_by_id(sorted: Seq<RecordView>, r: RecordView) -> Seq<RecordView>
    decreases sorted.len(),
{
    if sorted.len() == 0 {
        seq![r]
    } else if lex_lt(r.id, sorted.last().id) {
        insert_by_id(sorted.drop_last(), r).push(sorted.last())
    } else {
        sorted.push(r)
    }
}

/// `rs` sorted by id, records with equal ids kept in their order (a stable sort).
pub open spec fn sort_by_id(rs: Seq<RecordView>) -> Seq<RecordView>
    decreases rs.len(),
{
    if rs.len() == 0 {
        rs
    } else {
        insert_by_id(sort_by_id(rs.drop_last()), rs.last())
    }
}

/// What `why` answers: the records that touch the target `path` classifies
/// as, sorted by id.
pub open spec fn why_view(rs: Seq<RecordView>, path: Seq<char>) -> Seq<RecordView> {
    sort_by_id(touching(rs, target_id(classify_view(path))))
}

proof fn lemma_insert_at(s: Seq<RecordView>, r: RecordView, p: int)
    requires
        0 <= p <= s.len(),
        forall|q: int| p <= q < s.len() ==> lex_lt(r.id, #[trigger] s[q].id),
        p == 0 || !lex_lt(r.id, s[p - 1].id),
    ensures
        insert_by_id(s, r) == s.take(p).push(r) + s.skip(p),
    decreases s.len(),
{
    if p == s.len() {
        if s.len() > 0 {
            assert(s.take(p) =~= s);
        }
        assert(s.take(p).push(r) + s.skip(p) =~= s.push(r));
    } else {
        assert(lex_lt(r.id, s.last().id));
        lemma_insert_at(s.drop_last(), r, p);
        assert(s.drop_last().take(p) =~= s.take(p));
        assert(s.take(p).push(r) + s.skip(p) =~= (s.take(p).push(r) + s.drop_last().skip(p)).push(
            s.last(),
        ));
    }
}

fn touches_target(record: &Record, target: &str) -> (r: bool)
    ensures
        r == touches(record@, target@),
{
    let mut k: usize = 0;
    while k < record.edges.len()
        invariant
            0 <= k <= record.edges@.len(),
            forall|m: int| 0 <= m < k ==> (#[trigger] record@.edges[m]).to != target@,
        decreases record.edges@.len() - k,
    {
        if str_eq(record.edges[k].to.as_str(), target) {
            assert(record@.edges[k as int].to == target@);
            return true;
        }
        k += 1;
    }
    false
}

/// Records that touched `path`. Reports association only; asserts no causality.
pub fn why(records: &[Record], path: &str) -> (found: Vec<Record>)
    ensures
        records_view(found@) == why_view(records_view(records@), path@),
{
    let target = classify(path).id();
    let ghost rv = records_view(records@);
    let ghost t = target@;
    let mut found: Vec<Record> = Vec::new();
    let mut i: usize = 0;
    while i < records.len()
        invariant
            rv == records_view(records@),
            t == target@,
            t == target_id(classify_view(path@)),
            0 <= i <= records@.len(),
            records_view(found@) == sort_by_id(touching(rv.take(i as int), t)),
        decreases records@.len() - i,
    {
        proof {
            assert(rv.take(i + 1).drop_last() =~= rv.take(i as int));
            reveal_with_fuel(Seq::filter, 1);
        }
        let record = &records[i];
        if touches_target(record, target.as_str()) {
            let ghost sorted = records_view(found@);
            let ghost x = record@;
            let mut p = found.len();
            while p > 0 && lex_less(record.id.as_str(), found[p - 1].id.as_str())
                invariant
                    sorted == records_view(found@),
                    x == record@,
                    0 <= p <= found@.len(),
                    forall|q: int| p <= q < sorted.len() ==> lex_lt(x.id, #[trigger] sorted[q].id),
                decreases p,
            {
                p -= 1;
            }
            proof {
                lemma_insert_at(sorted, x, p as int);
                let prev = touching(rv.take(i as int), t);
                assert(touching(rv.take(i + 1), t) == prev.push(x));
                assert(prev.push(x).drop_last() =~= prev);
                assert(sort_by_id(prev.push(x)) == insert_by_id(sort_by_id(prev), x));
            }
            found.insert(p, record.clone());
            assert(records_view(found@) =~= sorted.take(p as int).push(x) + sorted.skip(p as int));
        } else {
            assert(touching(rv.take(i + 1), t) == touching(rv.take(i as int), t));
        }
        i += 1;
    }
    assert(rv.take(records@.len() as int) =~= rv);
    found
}

/// Non-decreasing by id.
pub open spec fn sorted_by_id(t: Seq<RecordView>) -> bool {
    forall|i: int, j: int| 0 <= i < j < t.len() ==> !lex_lt(#[trigger] t[j].id, #[trigger] t[i].id)
}

proof fn lemma_insert_by_id_multiset(s: Seq<RecordView>, r: RecordView)
    ensures
        insert_by_id(s, r).to_multiset() == s.to_multiset().insert(r),
    decreases s.len(),
{
    broadcast use vstd::seq_lib::group_to_multiset_ensures;

    if s.len() == 0 {
        assert(seq![r] =~= s.push(r));
    } else if lex_lt(r.id, s.last().id) {
        lemma_insert_by_id_multiset(s.drop_last(), r);
        assert(s.drop_last().push(s.last()) =~= s);
        assert(insert_by_id(s, r).to_multiset() =~= s.to_multiset().insert(r));
    }
}

proof fn lemma_sort_by_id_multiset(s: Seq<RecordView>)
    ensures
        sort_by_id(s).to_multiset() == s.to_multiset(),
    decreases s.len(),
{
    broadcast use vstd::seq_lib::group_to_multiset_ensures;

    if s.len() > 0 {
        lemma_sort_by_id_multiset(s.drop_last());
        lemma_insert_by_id_multiset(sort_by_id(s.drop_last()), s.last());
        assert(s.drop_last().push(s.last()) =~= s);
    }
}

proof fn lemma_insert_by_id_sorted(s: Seq<RecordView>, r: RecordView)
    requires
        sorted_by_id(s),
    ensures
        sorted_by_id(insert_by_id(s, r)),
        forall|i: int|
            0 <= i < insert_by_id(s, r).len() ==> (#[trigger] insert_by_id(s, r)[i] == r
                || s.contains(insert_by_id(s, r)[i])),
        insert_by_id(s, r).len() == s.len() + 1,
    decreases s.len(),
{
    if s.len() == 0 {
    } else if lex_lt(r.id, s.last().id) {
        let d = s.drop_last();
        lemma_insert_by_id_sorted(d, r);
        let t = insert_by_id(d, r);
        let u = t.push(s.last());
        assert forall|i: int, j: int| 0 <= i < j < u.len() implies !lex_lt(
            #[trigger] u[j].id,
            #[trigger] u[i].id,
        ) by {
            if j == u.len() - 1 {
                if t[i] == r {
                    lemma_lex_asymmetric(r.id, s.last().id);
                } else {
                    let m = choose|m: int| 0 <= m < d.len() && d[m] == t[i];
                    assert(!lex_lt(s[s.len() - 1].id, s[m].id));
                }
            } else {
                assert(u[i] == t[i] && u[j] == t[j]);
            }
        }
        assert forall|i: int| 0 <= i < u.len() implies (#[trigger] u[i] == r || s.contains(u[i])) by {
            if i == u.len() - 1 {
                assert(s[s.len() - 1] == u[i]);
            } else if t[i] != r {
                let m = choose|m: int| 0 <= m < d.len() && d[m] == t[i];
                assert(s[m] == u[i]);
            }
        }
    } else {
        let u = s.push(r);
        assert forall|i: int, j: int| 0 <= i < j < u.len() implies !lex_lt(
            #[trigger] u[j].id,
            #[trigger] u[i].id,
        ) by {
            if j == u.len() - 1 {
                if i < s.len() - 1 {
                    assert(!lex_lt(s[s.len() - 1].id, s[i].id));
                    lemma_lex_le_transitive(s[i].id, s.last().id, r.id);
                }
            } else {
                assert(u[i] == s[i] && u[j] == s[j]);
            }
        }
        assert forall|i: int| 0 <= i < u.len() implies (#[trigger] u[i] == r || s.contains(u[i])) by {
            if i < s.len() {
                assert(s[i] == u[i]);
            }
        }
    }
}

proof fn lemma_sort_by_id_sorted(s: Seq<RecordView>)
    ensures
        sorted_by_id(sort_by_id(s)),
    decreases s.len(),
{
    if s.len() > 0 {
        lemma_sort_by_id_sorted(s.drop_last());
        lemma_insert_by_id_sorted(sort_by_id(s.drop_last()), s.last());
    }
}

/// The answer to `why` is sorted by id, and holds exactly the records that
/// touch the path's target, each as often as it occurs among the records.
pub proof fn lemma_why_sorted_and_complete(rs: Seq<RecordView>, path: Seq<char>)
    ensures
        sorted_by_id(why_view(rs, path)),
        why_view(rs, path).to_multiset() == touching(rs, target_id(classify_view(path))).to_multiset(),
        forall|i: int|
            0 <= i < why_view(rs, path).len() ==> touches(
                #[trigger] why_view(rs, path)[i],
                target_id(classify_view(path)),
            ),
{
    broadcast use vstd::seq_lib::group_to_multiset_ensures;

    let t = target_id(classify_view(path));
    let m = touching(rs, t);
    lemma_sort_by_id_sorted(m);
    lemma_sort_by_id_multiset(m);
    assert forall|i: int| 0 <= i < why_view(rs, path).len() implies touches(
        #[trigger] why_view(rs, path)[i],
        t,
    ) by {
        let x = why_view(rs, path)[i];
        assert(why_view(rs, path).to_multiset().count(x) > 0);
        assert(m.contains(x));
        let k = choose|k: int| 0 <= k < m.len() && m[k] == x;
        rs.lemma_filter_pred(|r: RecordView| touches(r, t), k);
    }
}

/// `why` matches targets exactly: every record in its answer has an edge
/// whose target is exactly the id of the target the path classifies as, and
/// a record none of whose edges points at that id is never in the answer,
/// however much its targets share with it.
pub proof fn lemma_why_matches_exact_target(rs: Seq<RecordView>, path: Seq<char>, r: RecordView)
    ensures
        forall|i: int|
            0 <= i < why_view(rs, path).len() ==> exists|k: int|
                0 <= k < (#[trigger] why_view(rs, path)[i]).edges.len() && (#[trigger] why_view(rs, path)[i].edges[k]).to
                    == target_id(classify_view(path)),
        (forall|k: int| 0 <= k < r.edges.len() ==> (#[trigger] r.edges[k]).to != target_id(classify_view(path)))
            ==> !why_view(rs, path).contains(r),
{
    broadcast use vstd::seq_lib::group_to_multiset_ensures;

    let t = target_id(classify_view(path));
    lemma_why_sorted_and_complete(rs, path);
    if why_view(rs, path).contains(r) {
        let i = choose|i: int| 0 <= i < why_view(rs, path).len() && why_view(rs, path)[i] == r;
        assert(touches(why_view(rs, path)[i], t));
    }
}

/// The records of `rs` whose id is `x`, in their order.
pub open spec fn with_id(rs: Seq<RecordView>, x: Seq<char>) -> Seq<RecordView> {
    rs.filter(|r: RecordView| r.id == x)
}

proof fn lemma_insert_by_id_with_id(s: Seq<RecordView>, r: RecordView, x: Seq<char>)
    ensures
        with_id(insert_by_id(s, r), x) == if r.id == x {
            with_id(s, x).push(r)
        } else {
            with_id(s, x)
        },
    decreases s.len(),
{
    broadcast use Seq::lemma_filter_push;

    if s.len() == 0 {
        assert(seq![r] =~= s.push(r));
    } else if lex_lt(r.id, s.last().id) {
        let d = s.drop_last();
        lemma_insert_by_id_with_id(d, r, x);
        crate::text::lemma_lex_irreflexive(r.id);
        assert(d.push(s.last()) =~= s);
    }
}

proof fn lemma_sort_by_id_with_id(s: Seq<RecordView>, x: Seq<char>)
    ensures
        with_id(sort_by_id(s), x) == with_id(s, x),
    decreases s.len(),
{
    broadcast use Seq::lemma_filter_push;

    if s.len() > 0 {
        let d = s.drop_last();
        lemma_sort_by_id_with_id(d, x);
        lemma_insert_by_id_with_id(sort_by_id(d), s.last(), x);
        assert(d.push(s.last()) =~= s);
    }
}

/// `why` sorts stably: the records of its answer that share an id come in
/// the order in which they stand among the records that touch the target.
pub proof fn lemma_why_keeps_order_of_equal_ids(rs: Seq<RecordView>, path: Seq<char>, x: Seq<char>)
    ensures
        with_id(why_view(rs, path), x) == with_id(touching(rs, target_id(classify_view(path))), x),
{
    lemma_sort_by_id_with_id(touching(rs, target_id(classify_view(path))), x);
}

/// What `sync` records, `why` finds: when a commit that yields a record
/// touched a path that is not excluded, asking `why` about that path over the
/// records answers with that commit's record.
pub proof fn lemma_why_finds_recorded_commit(
    rs: Seq<RecordView>,
    cs: Seq<RawCommitView>,
    i: int,
    k: int,
)
    requires
        records_of(rs, cs),
        0 <= i < kept_commits(cs).len(),
        0 <= k < kept_commits(cs)[i].touched.len(),
        !excluded(kept_commits(cs)[i].touched[k]),
    ensures
        why_view(rs, kept_commits(cs)[i].touched[k]).contains(rs[i]),
{
    broadcast use vstd::seq_lib::group_to_multiset_ensures;

    let c = kept_commits(cs)[i];
    let p = c.touched[k];
    let t = target_id(classify_view(p));
    assert(record_of(rs[i], c));
    assert(edge_targets(c).contains(t));
    let ends = edge_ends(rs[i].edges);
    assert(ends.to_set().contains(t));
    let m = choose|m: int| 0 <= m < ends.len() && ends[m] == t;
    assert(rs[i].edges[m].to == t);
    assert(touches(rs[i], t));
    rs.lemma_filter_contains(|r: RecordView| touches(r, t), i);
    lemma_why_sorted_and_complete(rs, p);
    assert(touching(rs, t).to_multiset().count(rs[i]) > 0);
    assert(why_view(rs, p).to_multiset().count(rs[i]) > 0);
}

} // verus!
