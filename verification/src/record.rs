//! The canonical provenance record, its edges, and the JSON Lines framing of
//! record files.
use vstd::prelude::*;
use crate::text::{
    lemma_split_append_plain, lemma_split_append_sep, lines, lines_str, opt_str, push_char, split,
    strip_cr, strs, trim, trim_str,
};

verus! {

pub const SCHEMA_VERSION: u32 = 1;

#[derive(Debug, Clone, Copy, PartialEq, Eq, Structural)]
pub enum Kind {
    Commit,
    Spec,
    Plan,
    Adr,
}

/// The artifact an edge points at. Classification is by path, never by content.
#[derive(Debug, PartialEq, Eq)]
pub enum Target {
    Spec(String),
    Plan(String),
    Adr(String),
    File(String),
}

/// A [`Target`] with its path as a character sequence.
pub enum TargetView {
    Spec(Seq<char>),
    Plan(Seq<char>),
    Adr(Seq<char>),
    File(Seq<char>),
}

impl View for Target {
    type V = TargetView;

    open spec fn view(&self) -> TargetView {
        match self {
            Target::Spec(p) => TargetView::Spec(p@),
            Target::Plan(p) => TargetView::Plan(p@),
            Target::Adr(p) => TargetView::Adr(p@),
            Target::File(p) => TargetView::File(p@),
        }
    }
}

/// The identity of a target: its kind, a colon, and its path.
pub open spec fn target_id(t: TargetView) -> Seq<char> {
    match t {
        TargetView::Spec(p) => "spec:"@ + p,
        TargetView::Plan(p) => "plan:"@ + p,
        TargetView::Adr(p) => "adr:"@ + p,
        TargetView::File(p) => "file:"@ + p,
    }
}

impl Target {
    pub fn id(&self) -> (r: String)
        ensures
            r@ == target_id(self@),
    {
        match self {
            Target::Spec(p) => String::from_str("spec:").concat(p.as_str()),
            Target::Plan(p) => String::from_str("plan:").concat(p.as_str()),
            Target::Adr(p) => String::from_str("adr:").concat(p.as_str()),
            Target::File(p) => String::from_str("file:").concat(p.as_str()),
        }
    }
}

#[derive(Debug, Clone, Copy, PartialEq, Eq, Structural)]
pub enum EdgeType {
    Touches,
}

#[derive(Debug, PartialEq, Eq)]
pub struct Edge {
    pub edge_type: EdgeType,
    pub to: String,
}

pub struct EdgeView {
    pub edge_type: EdgeType,
    pub to: Seq<char>,
}

impl View for Edge {
    type V = EdgeView;

    open spec fn view(&self) -> EdgeView {
        EdgeView { edge_type: self.edge_type, to: self.to@ }
    }
}

impl Clone for Edge {
    fn clone(&self) -> (r: Self)
        ensures
            r@ == self@,
    {
        Edge { edge_type: self.edge_type, to: self.to.clone() }
    }
}

#[derive(Debug, Default, PartialEq, Eq)]
pub struct Rationale {
    pub new_features: Vec<String>,
    pub architecture: Vec<String>,
    pub validations: Vec<String>,
    pub security: Vec<String>,
    pub outcome: Vec<String>,
}

pub struct RationaleView {
    pub new_features: Seq<Seq<char>>,
    pub architecture: Seq<Seq<char>>,
    pub validations: Seq<Seq<char>>,
    pub security: Seq<Seq<char>>,
    pub outcome: Seq<Seq<char>>,
}

impl View for Rationale {
    type V = RationaleView;

    open spec fn view(&self) -> RationaleView {
        RationaleView {
            new_features: strs(self.new_features@),
            architecture: strs(self.architecture@),
            validations: strs(self.validations@),
            security: strs(self.security@),
            outcome: strs(self.outcome@),
        }
    }
}

/// A copy of a list of strings with the same contents.
pub fn clone_strings(v: &Vec<String>) -> (r: Vec<String>)
    ensures
        strs(r@) == strs(v@),
{
    let mut r: Vec<String> = Vec::new();
    let mut i: usize = 0;
    while i < v.len()
        invariant
            0 <= i <= v@.len(),
            strs(r@) == strs(v@).take(i as int),
        decreases v@.len() - i,
    {
        let ghost before = strs(r@);
        let c = v[i].clone();
        assert(c@ == strs(v@)[i as int]);
        r.push(c);
        assert(strs(r@) =~= before.push(strs(v@)[i as int]));
        assert(strs(v@).take(i + 1) =~= strs(v@).take(i as int).push(strs(v@)[i as int]));
        i += 1;
    }
    assert(strs(v@).take(v@.len() as int) =~= strs(v@));
    r
}

impl Clone for Rationale {
    fn clone(&self) -> (r: Self)
        ensures
            r@ == self@,
    {
        Rationale {
            new_features: clone_strings(&self.new_features),
            architecture: clone_strings(&self.architecture),
            validations: clone_strings(&self.validations),
            security: clone_strings(&self.security),
            outcome: clone_strings(&self.outcome),
        }
    }
}

#[derive(Debug, PartialEq, Eq)]
pub struct Record {
    pub schema_version: u32,
    pub id: String,
    pub short_id: Option<String>,
    pub kind: Kind,
    pub gitmoji: Option<String>,
    pub subject: Option<String>,
    pub scope: Option<String>,
    pub authored_at: Option<String>,
    pub rationale: Option<Rationale>,
    pub edges: Vec<Edge>,
}

pub struct RecordView {
    pub schema_version: u32,
    pub id: Seq<char>,
    pub short_id: Option<Seq<char>>,
    pub kind: Kind,
    pub gitmoji: Option<Seq<char>>,
    pub subject: Option<Seq<char>>,
    pub scope: Option<Seq<char>>,
    pub authored_at: Option<Seq<char>>,
    pub rationale: Option<RationaleView>,
    pub edges: Seq<EdgeView>,
}

pub open spec fn edges_view(v: Seq<Edge>) -> Seq<EdgeView> {
    v.map_values(|e: Edge| e@)
}

impl View for Record {
    type V = RecordView;

    open spec fn view(&self) -> RecordView {
        RecordView {
            schema_version: self.schema_version,
            id: self.id@,
            short_id: opt_str(self.short_id),
            kind: self.kind,
            gitmoji: opt_str(self.gitmoji),
            subject: opt_str(self.subject),
            scope: opt_str(self.scope),
            authored_at: opt_str(self.authored_at),
            rationale: match self.rationale {
                Some(r) => Some(r@),
                None => None,
            },
            edges: edges_view(self.edges@),
        }
    }
}

pub fn clone_opt_string(o: &Option<String>) -> (r: Option<String>)
    ensures
        opt_str(r) == opt_str(*o),
{
    match o {
        Some(s) => Some(s.clone()),
        None => None,
    }
}

impl Clone for Record {
    fn clone(&self) -> (r: Self)
        ensures
            r@ == self@,
    {
        let mut edges: Vec<Edge> = Vec::new();
        let mut i: usize = 0;
        while i < self.edges.len()
            invariant
                0 <= i <= self.edges@.len(),
                edges_view(edges@) == edges_view(self.edges@).take(i as int),
            decreases self.edges@.len() - i,
        {
            let ghost before = edges_view(edges@);
            let e = self.edges[i].clone();
            assert(e@ == edges_view(self.edges@)[i as int]);
            edges.push(e);
            assert(edges_view(edges@) =~= before.push(edges_view(self.edges@)[i as int]));
            assert(edges_view(self.edges@).take(i + 1) =~= edges_view(self.edges@).take(
                i as int,
            ).push(edges_view(self.edges@)[i as int]));
            i += 1;
        }
        assert(edges_view(self.edges@).take(self.edges@.len() as int) =~= edges_view(
            self.edges@,
        ));
        let rationale = match &self.rationale {
            Some(r) => Some(r.clone()),
            None => None,
        };
        Record {
            schema_version: self.schema_version,
            id: self.id.clone(),
            short_id: clone_opt_string(&self.short_id),
            kind: self.kind,
            gitmoji: clone_opt_string(&self.gitmoji),
            subject: clone_opt_string(&self.subject),
            scope: clone_opt_string(&self.scope),
            authored_at: clone_opt_string(&self.authored_at),
            rationale,
            edges,
        }
    }
}

pub open spec fn records_view(v: Seq<Record>) -> Seq<RecordView> {
    v.map_values(|r: Record| r@)
}

/// JSON Lines text: each line followed by a newline.
pub open spec fn jsonl_text(ls: Seq<Seq<char>>) -> Seq<char>
    decreases ls.len(),
{
    if ls.len() == 0 {
        Seq::empty()
    } else {
        jsonl_text(ls.drop_last()) + ls.last().push('\n')
    }
}

/// The text of a record file made of the given serialized records, one per line.
pub fn join_lines(lines: &[String]) -> (out: String)
    ensures
        out@ == jsonl_text(strs(lines@)),
{
    let mut out = String::new();
    let mut i: usize = 0;
    while i < lines.len()
        invariant
            0 <= i <= lines@.len(),
            out@ == jsonl_text(strs(lines@).take(i as int)),
        decreases lines@.len() - i,
    {
        out.append(lines[i].as_str());
        push_char(&mut out, '\n');
        assert(strs(lines@).take(i + 1).drop_last() =~= strs(lines@).take(i as int));
        assert(out@ =~= jsonl_text(strs(lines@).take(i + 1)));
        i += 1;
    }
    assert(strs(lines@).take(lines@.len() as int) =~= strs(lines@));
    out
}

/// The non-blank lines of `ls`, each with its line number counted from one.
pub open spec fn numbered_lines(ls: Seq<Seq<char>>) -> Seq<(int, Seq<char>)>
    decreases ls.len(),
{
    if ls.len() == 0 {
        Seq::empty()
    } else if trim(ls.last()).len() == 0 {
        numbered_lines(ls.drop_last())
    } else {
        numbered_lines(ls.drop_last()).push((ls.len() as int, ls.last()))
    }
}

pub open spec fn numbered_view(v: Seq<(usize, String)>) -> Seq<(int, Seq<char>)> {
    v.map_values(|p: (usize, String)| (p.0 as int, p.1@))
}

/// The lines of a record file that hold a record, each with its line number:
/// blank lines hold none.
pub fn record_lines(text: &str) -> (r: Vec<(usize, String)>)
    ensures
        numbered_view(r@) == numbered_lines(lines(text@)),
{
    let ls = lines_str(text);
    let ghost lv = strs(ls@);
    let mut r: Vec<(usize, String)> = Vec::new();
    let mut i: usize = 0;
    while i < ls.len()
        invariant
            lv == strs(ls@),
            0 <= i <= ls@.len(),
            numbered_view(r@) == numbered_lines(lv.take(i as int)),
        decreases ls@.len() - i,
    {
        assert(lv.take(i + 1).drop_last() =~= lv.take(i as int));
        let blank = trim_str(ls[i].as_str());
        if !blank.as_str().is_empty() {
            let ghost before = numbered_view(r@);
            r.push((i + 1, ls[i].clone()));
            assert(numbered_view(r@) =~= before.push(((i + 1) as int, lv[i as int])));
        }
        i += 1;
    }
    assert(lv.take(ls@.len() as int) =~= lv);
    r
}

/// The record lines of a file are exactly its non-blank lines, each paired
/// with its position counted from one, in the order of the file.
pub proof fn lemma_numbered_lines_exact(ls: Seq<Seq<char>>)
    ensures
        forall|e: int|
            0 <= e < numbered_lines(ls).len() ==> {
                &&& 1 <= (#[trigger] numbered_lines(ls)[e]).0 <= ls.len()
                &&& ls[numbered_lines(ls)[e].0 - 1] == numbered_lines(ls)[e].1
                &&& trim(numbered_lines(ls)[e].1).len() > 0
            },
        forall|e: int, f: int|
            0 <= e < f < numbered_lines(ls).len() ==> (#[trigger] numbered_lines(ls)[e]).0
                < (#[trigger] numbered_lines(ls)[f]).0,
        forall|k: int|
            0 <= k < ls.len() && trim(#[trigger] ls[k]).len() > 0 ==> exists|e: int|
                0 <= e < numbered_lines(ls).len() && #[trigger] numbered_lines(ls)[e] == (k + 1, ls[k]),
    decreases ls.len(),
{
    if ls.len() > 0 {
        let d = ls.drop_last();
        lemma_numbered_lines_exact(d);
        let nd = numbered_lines(d);
        let nl = numbered_lines(ls);
        assert forall|e: int| 0 <= e < nd.len() implies ls[(#[trigger] nd[e]).0 - 1] == d[nd[e].0 - 1] by {}
        assert forall|k: int| 0 <= k < ls.len() && trim(#[trigger] ls[k]).len() > 0 implies exists|e: int|
            0 <= e < nl.len() && #[trigger] nl[e] == (k + 1, ls[k]) by {
            if k < d.len() {
                assert(d[k] == ls[k]);
                let e = choose|e: int| 0 <= e < nd.len() && #[trigger] nd[e] == (k + 1, d[k]);
                assert(nl[e] == nd[e]);
            } else {
                assert(nl[nl.len() - 1] == (k + 1, ls[k]));
            }
        }
    }
}

/// A line that can stand in a record file on its own: not blank, free of
/// newlines, and not ending in a carriage return. Serialized JSON values are
/// such lines.
pub open spec fn standalone_line(l: Seq<char>) -> bool {
    &&& trim(l).len() > 0
    &&& !l.contains('\n')
    &&& l.last() != '\r'
}

proof fn lemma_split_jsonl(ls: Seq<Seq<char>>)
    requires
        forall|k: int| 0 <= k < ls.len() ==> !(#[trigger] ls[k]).contains('\n'),
    ensures
        split(jsonl_text(ls), '\n') == ls.push(Seq::empty()),
    decreases ls.len(),
{
    if ls.len() == 0 {
        assert(split(jsonl_text(ls), '\n') =~= ls.push(Seq::empty()));
    } else {
        let d = ls.drop_last();
        let l = ls.last();
        assert(!ls[ls.len() - 1].contains('\n'));
        lemma_split_jsonl(d);
        lemma_split_append_plain(jsonl_text(d), l, '\n');
        lemma_split_append_sep(jsonl_text(d) + l, '\n');
        assert(jsonl_text(ls) =~= (jsonl_text(d) + l).push('\n'));
        assert(Seq::<char>::empty() + l =~= l);
        assert(d.push(Seq::empty()).update(d.len() as int, l) =~= ls);
    }
}

proof fn lemma_numbered_all(ls: Seq<Seq<char>>)
    requires
        forall|k: int| 0 <= k < ls.len() ==> trim(#[trigger] ls[k]).len() > 0,
    ensures
        numbered_lines(ls) == Seq::new(ls.len(), |i: int| (i + 1, ls[i])),
    decreases ls.len(),
{
    if ls.len() > 0 {
        assert(trim(ls[ls.len() - 1]).len() > 0);
        lemma_numbered_all(ls.drop_last());
        assert(numbered_lines(ls) =~= Seq::new(ls.len(), |i: int| (i + 1, ls[i])));
    } else {
        assert(numbered_lines(ls) =~= Seq::new(ls.len(), |i: int| (i + 1, ls[i])));
    }
}

/// Reading back a record file that was framed from standalone lines yields
/// those lines, in order, numbered from one: one record per line.
pub proof fn lemma_framed_lines_read_back(ls: Seq<Seq<char>>)
    requires
        forall|k: int| 0 <= k < ls.len() ==> standalone_line(#[trigger] ls[k]),
    ensures
        lines(jsonl_text(ls)) == ls,
        numbered_lines(lines(jsonl_text(ls))) == Seq::new(ls.len(), |i: int| (i + 1, ls[i])),
{
    assert forall|k: int| 0 <= k < ls.len() implies !(#[trigger] ls[k]).contains('\n') by {
        assert(standalone_line(ls[k]));
    }
    lemma_split_jsonl(ls);
    let p = split(jsonl_text(ls), '\n');
    assert(p.drop_last() =~= ls);
    assert forall|k: int| 0 <= k < ls.len() implies strip_cr(#[trigger] ls[k]) == ls[k] by {
        assert(standalone_line(ls[k]));
    }
    assert(ls.map_values(|l: Seq<char>| strip_cr(l)) =~= ls);
    assert forall|k: int| 0 <= k < ls.len() implies trim(#[trigger] ls[k]).len() > 0 by {
        assert(standalone_line(ls[k]));
    }
    lemma_numbered_all(ls);
}

} // verus!
