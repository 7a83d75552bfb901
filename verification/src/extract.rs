//! Interpretation of a commit message: the title's gitmoji, subject and
//! scope, and the five rationale sections of the body.
use vstd::prelude::*;
use crate::record::{Rationale, RationaleView};
use crate::text::{
    chars_of, lines, lines_str, skip_ws_forward, starts_with, str_eq, string_of, strs, trim,
    trim_range, trim_start, trim_str,
};
use crate::text::{lemma_trim_is_subrange, lemma_trim_start_suffix, opt_str, push_char};
use crate::text::{lemma_split_append_plain, lemma_split_append_sep, lemma_split_nonempty, split, strip_cr};

verus! {

#[derive(Debug, PartialEq, Eq)]
pub struct ParsedTitle {
    pub gitmoji: Option<String>,
    pub subject: String,
    pub scope: Option<String>,
}

pub struct ParsedTitleView {
    pub gitmoji: Option<Seq<char>>,
    pub subject: Seq<char>,
    pub scope: Option<Seq<char>>,
}

impl View for ParsedTitle {
    type V = ParsedTitleView;

    open spec fn view(&self) -> ParsedTitleView {
        ParsedTitleView { gitmoji: opt_str(self.gitmoji), subject: self.subject@, scope: opt_str(self.scope) }
    }
}

pub open spec fn is_ascii_alphanumeric(c: char) -> bool {
    ('0' <= c && c <= '9') || ('a' <= c && c <= 'z') || ('A' <= c && c <= 'Z')
}

pub open spec fn has_ascii_alphanumeric(s: Seq<char>) -> bool {
    exists|k: int| 0 <= k < s.len() && is_ascii_alphanumeric(#[trigger] s[k])
}

/// The index of the first `c` in `s`.
pub open spec fn find_first(s: Seq<char>, c: char) -> Option<int>
    decreases s.len(),
{
    if s.len() == 0 {
        None
    } else if s[0] == c {
        Some(0)
    } else {
        match find_first(s.drop_first(), c) {
            Some(i) => Some(i + 1),
            None => None,
        }
    }
}

/// The index of the last `": "` in `s`.
pub open spec fn find_last_colon_space(s: Seq<char>) -> Option<int>
    decreases s.len(),
{
    if s.len() < 2 {
        None
    } else if s[s.len() - 2] == ':' && s[s.len() - 1] == ' ' {
        Some(s.len() - 2)
    } else {
        find_last_colon_space(s.drop_last())
    }
}

/// Title shape `<gitmoji> <outcome>: <context>`. A leading token free of
/// ASCII alphanumerics is the gitmoji; the text after the last `": "` is the
/// scope.
pub open spec fn title_view(title: Seq<char>) -> ParsedTitleView {
    let trimmed = trim(title);
    let gitmoji: Option<Seq<char>> = match find_first(trimmed, ' ') {
        Some(i) => if i > 0 && !has_ascii_alphanumeric(trimmed.take(i)) {
            Some(trimmed.take(i))
        } else {
            None
        },
        None => None,
    };
    let rest = match gitmoji {
        Some(g) => trim_start(trimmed.skip(g.len() as int + 1)),
        None => trimmed,
    };
    match find_last_colon_space(rest) {
        Some(j) => ParsedTitleView {
            gitmoji,
            subject: trim(rest.take(j)),
            scope: Some(trim(rest.skip(j + 2))),
        },
        None => ParsedTitleView { gitmoji, subject: rest, scope: None },
    }
}

proof fn lemma_find_first(s: Seq<char>, c: char, i: int)
    requires
        0 <= i <= s.len(),
        forall|k: int| 0 <= k < i ==> s[k] != c,
        i < s.len() ==> s[i] == c,
    ensures
        find_first(s, c) == (if i < s.len() {
            Some(i)
        } else {
            None::<int>
        }),
    decreases s.len(),
{
    if s.len() > 0 && i > 0 {
        lemma_find_first(s.drop_first(), c, i - 1);
    }
}

/// Index of the first `c` in `v[lo..hi]`, relative to `lo`.
fn find_char(v: &Vec<char>, lo: usize, hi: usize, c: char) -> (r: Option<usize>)
    requires
        lo <= hi <= v@.len(),
    ensures
        match r {
            Some(i) => lo + i < hi && find_first(v@.subrange(lo as int, hi as int), c) == Some(
                i as int,
            ),
            None => find_first(v@.subrange(lo as int, hi as int), c) == None::<int>,
        },
{
    let mut i = lo;
    while i < hi && v[i] != c
        invariant
            lo <= i <= hi <= v@.len(),
            forall|k: int| lo <= k < i ==> v@[k] != c,
        decreases hi - i,
    {
        i += 1;
    }
    proof {
        lemma_find_first(v@.subrange(lo as int, hi as int), c, i - lo);
    }
    if i < hi {
        Some(i - lo)
    } else {
        None
    }
}

/// Index of the last `": "` in `v[lo..hi]`, relative to `lo`.
fn find_colon_space(v: &Vec<char>, lo: usize, hi: usize) -> (r: Option<usize>)
    requires
        lo <= hi <= v@.len(),
    ensures
        match r {
            Some(j) => lo + j + 2 <= hi && find_last_colon_space(v@.subrange(lo as int, hi as int))
                == Some(j as int),
            None => find_last_colon_space(v@.subrange(lo as int, hi as int)) == None::<int>,
        },
{
    let mut j = hi;
    while j - lo >= 2
        invariant
            lo <= j <= hi <= v@.len(),
            find_last_colon_space(v@.subrange(lo as int, hi as int)) == find_last_colon_space(
                v@.subrange(lo as int, j as int),
            ),
        decreases j,
    {
        if v[j - 2] == ':' && v[j - 1] == ' ' {
            return Some(j - 2 - lo);
        }
        assert(v@.subrange(lo as int, j as int).drop_last() =~= v@.subrange(lo as int, j - 1));
        j -= 1;
    }
    None
}

fn range_has_ascii_alphanumeric(v: &Vec<char>, lo: usize, hi: usize) -> (r: bool)
    requires
        lo <= hi <= v@.len(),
    ensures
        r == has_ascii_alphanumeric(v@.subrange(lo as int, hi as int)),
{
    let mut i = lo;
    while i < hi
        invariant
            lo <= i <= hi <= v@.len(),
            forall|k: int| lo <= k < i ==> !is_ascii_alphanumeric(#[trigger] v@[k]),
        decreases hi - i,
    {
        let c = v[i];
        if ('0' <= c && c <= '9') || ('a' <= c && c <= 'z') || ('A' <= c && c <= 'Z') {
            assert(is_ascii_alphanumeric(v@.subrange(lo as int, hi as int)[i - lo]));
            return true;
        }
        i += 1;
    }
    proof {
        let s = v@.subrange(lo as int, hi as int);
        assert forall|k: int| 0 <= k < s.len() implies !is_ascii_alphanumeric(#[trigger] s[k]) by {
            assert(s[k] == v@[lo + k]);
        }
    }
    false
}

/// Title shape: `<gitmoji> <outcome>: <context>`.
pub fn parse_title(title: &str) -> (p: ParsedTitle)
    ensures
        p@ == title_view(title@),
{
    let t = trim_str(title);
    let v = chars_of(t.as_str());
    let n = v.len();
    let ghost trimmed = trim(title@);
    assert(v@.subrange(0, n as int) =~= trimmed);
    let mut gitmoji: Option<String> = None;
    let mut rest_lo: usize = 0;
    match find_char(&v, 0, n, ' ') {
        Some(i) => {
            // A leading token containing no ASCII alphanumeric is treated as the gitmoji.
            if i > 0 && !range_has_ascii_alphanumeric(&v, 0, i) {
                gitmoji = Some(string_of(&v, 0, i));
                rest_lo = skip_ws_forward(&v, i + 1, n);
                assert(v@.subrange(0, i as int) =~= trimmed.take(i as int));
                assert(v@.subrange(i + 1, n as int) =~= trimmed.skip(i + 1));
            } else {
                assert(v@.subrange(0, i as int) =~= trimmed.take(i as int));
            }
        },
        None => {},
    }
    let ghost rest = v@.subrange(rest_lo as int, n as int);
    assert(rest == match opt_str(gitmoji) {
        Some(g) => trim_start(trimmed.skip(g.len() as int + 1)),
        None => trimmed,
    });
    match find_colon_space(&v, rest_lo, n) {
        Some(j) => {
            let (a, b) = trim_range(&v, rest_lo, rest_lo + j);
            let (c, d) = trim_range(&v, rest_lo + j + 2, n);
            assert(v@.subrange(rest_lo as int, rest_lo + j) =~= rest.take(j as int));
            assert(v@.subrange(rest_lo + j + 2, n as int) =~= rest.skip(j + 2));
            ParsedTitle {
                gitmoji,
                subject: string_of(&v, a, b),
                scope: Some(string_of(&v, c, d)),
            }
        },
        None => ParsedTitle { gitmoji, subject: string_of(&v, rest_lo, n), scope: None },
    }
}

pub open spec fn graph_sync_title() -> Seq<char> {
    "🕸️ sync knowledge graph"@
}

/// Commits with this title carry no body by design and are discarded.
pub fn is_graph_sync(subject: &str) -> (r: bool)
    ensures
        r == (trim(subject@) == graph_sync_title()),
{
    let t = trim_str(subject);
    str_eq(t.as_str(), "🕸️ sync knowledge graph")
}

/// The five section headings fixed by the commit conventions, in order.
pub open spec fn heading_view(line: Seq<char>) -> Option<int> {
    if line == "### ✅ New features"@ {
        Some(0)
    } else if line == "### 💡 Architecture improvements"@ {
        Some(1)
    } else if line == "### 🧼 Best practices & validations"@ {
        Some(2)
    } else if line == "### 🔐 Security & Access Control"@ {
        Some(3)
    } else if line == "### 🚀 Outcome"@ {
        Some(4)
    } else {
        None
    }
}

/// The position of a section heading among the five.
pub fn heading_index(line: &str) -> (r: Option<usize>)
    ensures
        match r {
            Some(i) => heading_view(line@) == Some(i as int),
            None => heading_view(line@) == None::<int>,
        },
{
    if str_eq(line, "### ✅ New features") {
        Some(0)
    } else if str_eq(line, "### 💡 Architecture improvements") {
        Some(1)
    } else if str_eq(line, "### 🧼 Best practices & validations") {
        Some(2)
    } else if str_eq(line, "### 🔐 Security & Access Control") {
        Some(3)
    } else if str_eq(line, "### 🚀 Outcome") {
        Some(4)
    } else {
        None
    }
}

/// Where the reading of a body stands: the section being read, if any, and
/// the entries gathered so far in each of the five sections.
pub struct SectionState {
    pub current: Option<int>,
    pub sections: Seq<Seq<Seq<char>>>,
}

pub open spec fn initial_state() -> SectionState {
    SectionState { current: None, sections: Seq::new(5, |k: int| Seq::<Seq<char>>::empty()) }
}

/// One line of a body. A heading opens its section; text before the first
/// heading and blank lines are ignored; a line starting with `- ` opens an
/// entry; any other line opens the section's first entry, or else joins the
/// last entry after a space.
pub open spec fn read_line(st: SectionState, line: Seq<char>) -> SectionState {
    let content = trim(line);
    match heading_view(content) {
        Some(k) => SectionState { current: Some(k), sections: st.sections },
        None => match st.current {
            None => st,
            Some(k) => {
                let entries = st.sections[k];
                if content.len() == 0 {
                    st
                } else if starts_with(content, "- "@) {
                    SectionState {
                        current: st.current,
                        sections: st.sections.update(k, entries.push(trim(content.skip(2)))),
                    }
                } else if entries.len() == 0 {
                    SectionState {
                        current: st.current,
                        sections: st.sections.update(k, entries.push(content)),
                    }
                } else {
                    SectionState {
                        current: st.current,
                        sections: st.sections.update(
                            k,
                            entries.update(entries.len() - 1, entries.last() + seq![' '] + content),
                        ),
                    }
                }
            },
        },
    }
}

/// The state after reading `ls` in order.
pub open spec fn read_lines(ls: Seq<Seq<char>>) -> SectionState
    decreases ls.len(),
{
    if ls.len() == 0 {
        initial_state()
    } else {
        read_line(read_lines(ls.drop_last()), ls.last())
    }
}

/// The rationale a body declares: its lines read in order, each section's
/// entries in the order they appear.
pub open spec fn rationale_view(body: Seq<char>) -> RationaleView {
    let st = read_lines(lines(body));
    RationaleView {
        new_features: st.sections[0],
        architecture: st.sections[1],
        validations: st.sections[2],
        security: st.sections[3],
        outcome: st.sections[4],
    }
}

pub open spec fn sections_view(v: Seq<Vec<String>>) -> Seq<Seq<Seq<char>>> {
    v.map_values(|b: Vec<String>| strs(b@))
}

/// Split a structured body into its five sections. A body without headings
/// yields an empty rationale; that is a valid outcome, not a parse failure.
pub fn parse_rationale(body: &str) -> (r: Rationale)
    ensures
        r@ == rationale_view(body@),
{
    let body_lines = lines_str(body);
    let ghost ls = strs(body_lines@);
    let mut sections: Vec<Vec<String>> = Vec::new();
    sections.push(Vec::new());
    sections.push(Vec::new());
    sections.push(Vec::new());
    sections.push(Vec::new());
    sections.push(Vec::new());
    let mut current: Option<usize> = None;
    assert(sections_view(sections@) =~= initial_state().sections) by {
        assert forall|k: int| 0 <= k < 5 implies sections_view(sections@)[k] =~= Seq::<
            Seq<char>,
        >::empty() by {
            assert(sections@[k]@.len() == 0);
        }
    }
    let mut i: usize = 0;
    while i < body_lines.len()
        invariant
            0 <= i <= body_lines@.len(),
            ls == strs(body_lines@),
            sections@.len() == 5,
            read_lines(ls.take(i as int)) == (SectionState {
                current: match current {
                    Some(k) => Some(k as int),
                    None => None,
                },
                sections: sections_view(sections@),
            }),
            match current {
                Some(k) => k < 5,
                None => true,
            },
        decreases body_lines@.len() - i,
    {
        let line = body_lines[i].as_str();
        let ghost st = read_lines(ls.take(i as int));
        assert(ls.take(i + 1).drop_last() =~= ls.take(i as int));
        let content = trim_str(line);
        match heading_index(content.as_str()) {
            Some(k) => {
                current = Some(k);
            },
            None => {
                match current {
                    None => {},
                    Some(k) => {
                        let cv = chars_of(content.as_str());
                        let ghost entries = st.sections[k as int];
                        if cv.len() == 0 {
                        } else if cv.len() >= 2 && cv[0] == '-' && cv[1] == ' ' {
                            let (a, b) = trim_range(&cv, 2, cv.len());
                            let entry = string_of(&cv, a, b);
                            proof {
                                reveal_strlit("- ");
                                assert(cv@.subrange(0, 2) =~= "- "@);
                                assert(cv@.subrange(2, cv@.len() as int) =~= content@.skip(2));
                            }
                            let ghost ev = entry@;
                            let ghost before = sections_view(sections@);
                            let mut bucket = sections.remove(k);
                            assert(strs(bucket@) == entries);
                            bucket.push(entry);
                            assert(strs(bucket@) =~= entries.push(ev));
                            sections.insert(k, bucket);
                            assert(sections_view(sections@) =~= before.update(
                                k as int,
                                entries.push(ev),
                            ));
                        } else {
                            proof {
                                reveal_strlit("- ");
                                if cv@.len() >= 2 {
                                    assert(cv@.subrange(0, 2) != "- "@) by {
                                        if cv@[0] != '-' {
                                            assert(cv@.subrange(0, 2)[0] != "- "@[0]);
                                        } else {
                                            assert(cv@.subrange(0, 2)[1] != "- "@[1]);
                                        }
                                    }
                                }
                            }
                            let ghost before = sections_view(sections@);
                            let ghost cnt = content@;
                            let mut bucket = sections.remove(k);
                            assert(strs(bucket@) == entries);
                            if bucket.len() == 0 {
                                bucket.push(content);
                                assert(strs(bucket@) =~= entries.push(cnt));
                                sections.insert(k, bucket);
                                assert(sections_view(sections@) =~= before.update(
                                    k as int,
                                    entries.push(cnt),
                                ));
                            } else {
                                let mut last = bucket.pop().unwrap();
                                assert(last@ == entries.last());
                                push_char(&mut last, ' ');
                                last.append(content.as_str());
                                assert(last@ =~= entries.last() + seq![' '] + cnt);
                                let ghost lv = last@;
                                bucket.push(last);
                                assert(strs(bucket@) =~= entries.update(
                                    entries.len() - 1,
                                    lv,
                                ));
                                sections.insert(k, bucket);
                                assert(sections_view(sections@) =~= before.update(
                                    k as int,
                                    entries.update(entries.len() - 1, lv),
                                ));
                            }
                        }
                    },
                }
            },
        }
        i += 1;
    }
    assert(ls.take(body_lines@.len() as int) =~= ls);
    let outcome = sections.pop().unwrap();
    let security = sections.pop().unwrap();
    let validations = sections.pop().unwrap();
    let architecture = sections.pop().unwrap();
    let new_features = sections.pop().unwrap();
    Rationale { new_features, architecture, validations, security, outcome }
}

proof fn lemma_headingless_lines(ls: Seq<Seq<char>>)
    requires
        forall|k: int| 0 <= k < ls.len() ==> heading_view(trim(#[trigger] ls[k])) is None,
    ensures
        read_lines(ls) == initial_state(),
    decreases ls.len(),
{
    if ls.len() > 0 {
        lemma_headingless_lines(ls.drop_last());
        assert(heading_view(trim(ls[ls.len() - 1])) is None);
    }
}

/// A body none of whose lines is a section heading yields an empty
/// rationale, not a failure.
pub proof fn lemma_headingless_body_is_empty(body: Seq<char>)
    requires
        forall|k: int| 0 <= k < lines(body).len() ==> heading_view(trim(#[trigger] lines(body)[k])) is None,
    ensures
        rationale_view(body) == (RationaleView {
            new_features: Seq::empty(),
            architecture: Seq::empty(),
            validations: Seq::empty(),
            security: Seq::empty(),
            outcome: Seq::empty(),
        }),
{
    lemma_headingless_lines(lines(body));
}

/// The gitmoji of a title is its whole first token: when the trimmed title
/// has a non-empty first space-separated token (of any length) in which no
/// character is an ASCII letter or digit, that token is the gitmoji, and the
/// subject is taken from the text after it.
pub proof fn lemma_leading_token_is_gitmoji(title: Seq<char>, i: int)
    requires
        0 < i < trim(title).len(),
        trim(title)[i] == ' ',
        forall|k: int| 0 <= k < i ==> #[trigger] trim(title)[k] != ' ',
        forall|k: int|
            0 <= k < i ==> !(('0' <= #[trigger] trim(title)[k] && trim(title)[k] <= '9') || ('a'
                <= trim(title)[k] && trim(title)[k] <= 'z') || ('A' <= trim(title)[k]
                && trim(title)[k] <= 'Z')),
    ensures
        title_view(title).gitmoji == Some(trim(title).take(i)),
        exists|a: int, b: int|
            0 <= a <= b <= trim(title).len() - (i + 1) && title_view(title).subject == #[trigger] trim(
                title,
            ).skip(i + 1).subrange(a, b),
{
    let t = trim(title);
    lemma_find_first(t, ' ', i);
    assert forall|k: int| 0 <= k < i implies !is_ascii_alphanumeric(#[trigger] t.take(i)[k]) by {
        assert(t.take(i)[k] == t[k]);
    }
    let after = t.skip(i + 1);
    let rest = trim_start(after);
    assert(t.take(i).len() == i);
    lemma_trim_start_suffix(after);
    let m = choose|m: int| 0 <= m <= after.len() && rest == after.skip(m);
    match find_last_colon_space(rest) {
        Some(j) => {
            lemma_find_last_colon_space_bound(rest);
            lemma_trim_is_subrange(rest.take(j));
            let (a, b) = choose|a: int, b: int|
                0 <= a <= b <= rest.take(j).len() && trim(rest.take(j)) == rest.take(j).subrange(a, b);
            assert(rest.take(j).subrange(a, b) =~= after.subrange(m + a, m + b));
        },
        None => {
            assert(rest =~= after.subrange(m, after.len() as int));
        },
    }
}

/// Without a first token free of ASCII letters and digits there is no
/// gitmoji: a title whose trimmed text has no space, or whose first token is
/// empty or holds an ASCII letter or digit, has none.
pub proof fn lemma_no_gitmoji_without_symbol_token(title: Seq<char>, i: int)
    requires
        0 <= i <= trim(title).len(),
        i < trim(title).len() ==> trim(title)[i] == ' ',
        forall|k: int| 0 <= k < i ==> #[trigger] trim(title)[k] != ' ',
        i == trim(title).len() || i == 0 || exists|k: int|
            0 <= k < i && (('0' <= #[trigger] trim(title)[k] && trim(title)[k] <= '9') || ('a'
                <= trim(title)[k] && trim(title)[k] <= 'z') || ('A' <= trim(title)[k]
                && trim(title)[k] <= 'Z')),
    ensures
        title_view(title).gitmoji == None::<Seq<char>>,
{
    let t = trim(title);
    lemma_find_first(t, ' ', i);
    if 0 < i < t.len() {
        let k = choose|k: int|
            0 <= k < i && (('0' <= #[trigger] t[k] && t[k] <= '9') || ('a' <= t[k] && t[k] <= 'z')
                || ('A' <= t[k] && t[k] <= 'Z'));
        assert(t.take(i)[k] == t[k]);
        assert(is_ascii_alphanumeric(t.take(i)[k]));
    }
}

/// The entries of section `s` of a rationale, the sections numbered in the
/// order of their headings.
pub open spec fn section(r: RationaleView, s: int) -> Seq<Seq<char>> {
    if s == 0 {
        r.new_features
    } else if s == 1 {
        r.architecture
    } else if s == 2 {
        r.validations
    } else if s == 3 {
        r.security
    } else {
        r.outcome
    }
}

proof fn lemma_read_lines_shape(ls: Seq<Seq<char>>)
    ensures
        read_lines(ls).sections.len() == 5,
        read_lines(ls).current matches Some(k) ==> 0 <= k < 5,
    decreases ls.len(),
{
    if ls.len() > 0 {
        lemma_read_lines_shape(ls.drop_last());
    }
}

/// After reading `ls`, the open section is the one the last heading named.
proof fn lemma_open_section(ls: Seq<Seq<char>>, j: int, s: int)
    requires
        0 <= j < ls.len(),
        heading_view(trim(ls[j])) == Some(s),
        forall|k: int| j < k < ls.len() ==> heading_view(trim(#[trigger] ls[k])) is None,
    ensures
        read_lines(ls).current == Some(s),
    decreases ls.len(),
{
    if j < ls.len() - 1 {
        lemma_open_section(ls.drop_last(), j, s);
        assert(heading_view(trim(ls[ls.len() - 1])) is None);
    }
}

/// Appending a line break and a non-empty line without one adds that line
/// to the lines of a body that does not end in a line break.
proof fn lemma_lines_append_line(body: Seq<char>, line: Seq<char>)
    requires
        body.len() > 0,
        body.last() != '\n',
        body.last() != '\r',
        line.len() > 0,
        !line.contains('\n'),
    ensures
        lines(body + seq!['\n'] + line) == lines(body).push(line),
{
    let p = split(body, '\n');
    lemma_split_nonempty(body.drop_last(), '\n');
    assert(p.last() == split(body.drop_last(), '\n').last().push(body.last()));
    assert(p.last().len() > 0);
    assert(strip_cr(p.last()) == p.last());
    assert(body + seq!['\n'] == body.push('\n'));
    lemma_split_append_sep(body, '\n');
    lemma_split_append_plain(body.push('\n'), line, '\n');
    let q = split(body + seq!['\n'] + line, '\n');
    assert(Seq::<char>::empty() + line =~= line);
    assert(q =~= p.push(line));
    assert(q.drop_last() =~= p);
    assert(p.map_values(|l: Seq<char>| strip_cr(l)) =~= p.drop_last().map_values(
        |l: Seq<char>| strip_cr(l),
    ).push(p.last()));
}

/// Reading one more line after a body whose last heading opened section `s`:
/// a line that starts with `- ` adds an entry holding the text after the
/// marker; any other line that is neither blank nor a heading continues the
/// section's last entry, joined to it by one space, or opens the section's
/// first entry when it has none. The section's earlier entries and every
/// other section stay as they were.
pub proof fn lemma_appended_line(body: Seq<char>, line: Seq<char>, j: int, s: int)
    requires
        body.len() > 0,
        body.last() != '\n',
        body.last() != '\r',
        !line.contains('\n'),
        trim(line).len() > 0,
        heading_view(trim(line)) is None,
        0 <= j < lines(body).len(),
        heading_view(trim(lines(body)[j])) == Some(s),
        forall|k: int| j < k < lines(body).len() ==> heading_view(trim(#[trigger] lines(body)[k])) is None,
    ensures
        forall|x: int|
            0 <= x < 5 && x != s ==> #[trigger] section(rationale_view(body + seq!['\n'] + line), x)
                == section(rationale_view(body), x),
        (trim(line).len() >= 2 && trim(line)[0] == '-' && trim(line)[1] == ' ') ==> section(
            rationale_view(body + seq!['\n'] + line),
            s,
        ) == section(rationale_view(body), s).push(trim(trim(line).skip(2))),
        (!(trim(line).len() >= 2 && trim(line)[0] == '-' && trim(line)[1] == ' ') && section(
            rationale_view(body),
            s,
        ).len() == 0) ==> section(rationale_view(body + seq!['\n'] + line), s) == seq![trim(line)],
        (!(trim(line).len() >= 2 && trim(line)[0] == '-' && trim(line)[1] == ' ') && section(
            rationale_view(body),
            s,
        ).len() > 0) ==> section(rationale_view(body + seq!['\n'] + line), s) == section(
            rationale_view(body),
            s,
        ).update(
            section(rationale_view(body), s).len() - 1,
            section(rationale_view(body), s).last() + seq![' '] + trim(line),
        ),
{
    let ls = lines(body);
    let c = trim(line);
    lemma_lines_append_line(body, line);
    let ls2 = lines(body + seq!['\n'] + line);
    assert(ls2.drop_last() =~= ls);
    assert(ls2.last() == line);
    lemma_read_lines_shape(ls);
    lemma_open_section(ls, j, s);
    let st = read_lines(ls);
    let st2 = read_lines(ls2);
    assert(st2 == read_line(st, line));
    reveal_strlit("- ");
    if c.len() >= 2 && c[0] == '-' && c[1] == ' ' {
        assert(c.subrange(0, 2) =~= "- "@);
    } else if c.len() >= 2 {
        assert(c.subrange(0, 2) != "- "@) by {
            if c[0] != '-' {
                assert(c.subrange(0, 2)[0] != "- "@[0]);
            } else {
                assert(c.subrange(0, 2)[1] != "- "@[1]);
            }
        }
    }
    assert(0 <= s < 5);
}

proof fn lemma_find_first_bound(s: Seq<char>, c: char)
    ensures
        find_first(s, c) matches Some(i) ==> 0 <= i < s.len() && s[i] == c,
    decreases s.len(),
{
    if s.len() > 0 && s[0] != c {
        lemma_find_first_bound(s.drop_first(), c);
    }
}

/// `find_last_colon_space` finds the last `": "`, and finds none only where
/// there is none.
proof fn lemma_find_last_colon_space_last(s: Seq<char>)
    ensures
        match find_last_colon_space(s) {
            Some(j) => {
                &&& 0 <= j && j + 2 <= s.len()
                &&& s[j] == ':' && s[j + 1] == ' '
                &&& forall|m: int| j < m < s.len() - 1 ==> !(#[trigger] s[m] == ':' && s[m + 1] == ' ')
            },
            None => forall|m: int| 0 <= m < s.len() - 1 ==> !(#[trigger] s[m] == ':' && s[m + 1] == ' '),
        },
    decreases s.len(),
{
    if s.len() >= 2 && !(s[s.len() - 2] == ':' && s[s.len() - 1] == ' ') {
        let d = s.drop_last();
        lemma_find_last_colon_space_last(d);
        assert forall|m: int| 0 <= m < d.len() - 1 implies #[trigger] s[m] == d[m] && s[m + 1] == d[m + 1] by {}
    }
}

/// The scope is what follows the title's last `": "`, trimmed: a title with a
/// scope has a `": "` at some position of its trimmed text with none after
/// it, and the scope is the trimmed text after it; without a gitmoji the
/// subject is then the trimmed text before it. A title with no gitmoji and no
/// `": "` has no scope, and its subject is the whole trimmed title.
pub proof fn lemma_scope_after_last_separator(title: Seq<char>)
    ensures
        title_view(title).scope matches Some(sc) ==> exists|j: int|
            {
                &&& 0 <= j && j + 2 <= trim(title).len()
                &&& #[trigger] trim(title)[j] == ':' && trim(title)[j + 1] == ' '
                &&& forall|m: int|
                    j < m < trim(title).len() - 1 ==> !(#[trigger] trim(title)[m] == ':' && trim(title)[m
                        + 1] == ' ')
                &&& sc == trim(trim(title).skip(j + 2))
                &&& title_view(title).gitmoji is None ==> title_view(title).subject == trim(
                    trim(title).take(j),
                )
            },
        (title_view(title).gitmoji is None && forall|m: int|
            0 <= m < trim(title).len() - 1 ==> !(#[trigger] trim(title)[m] == ':' && trim(title)[m + 1]
                == ' ')) ==> title_view(title).scope is None && title_view(title).subject == trim(title),
{
    let t = trim(title);
    let g = title_view(title).gitmoji;
    lemma_find_first_bound(t, ' ');
    let off: int = match g {
        Some(gm) => {
            let after = t.skip(gm.len() as int + 1);
            lemma_trim_start_suffix(after);
            let m = choose|m: int| 0 <= m <= after.len() && trim_start(after) == after.skip(m);
            assert(after.skip(m) =~= t.skip(gm.len() + 1 + m));
            gm.len() + 1 + m
        },
        None => 0,
    };
    let rest = t.skip(off);
    assert(g is None ==> rest =~= t);
    assert(0 <= off <= t.len());
    lemma_find_last_colon_space_last(rest);
    match find_last_colon_space(rest) {
        Some(jr) => {
            let j = off + jr;
            assert(t[j] == rest[jr]);
            assert(t[j + 1] == rest[jr + 1]);
            assert forall|m: int| j < m < t.len() - 1 implies !(#[trigger] t[m] == ':' && t[m + 1] == ' ') by {
                assert(rest[m - off] == t[m]);
                assert(rest[m - off + 1] == t[m + 1]);
            }
            assert(rest.skip(jr + 2) =~= t.skip(j + 2));
            if g is None {
                assert(rest.take(jr) =~= t.take(j));
            }
        },
        None => {},
    }
}

proof fn lemma_find_last_colon_space_bound(s: Seq<char>)
    ensures
        find_last_colon_space(s) matches Some(j) ==> 0 <= j && j + 2 <= s.len(),
    decreases s.len(),
{
    if s.len() >= 2 && !(s[s.len() - 2] == ':' && s[s.len() - 1] == ' ') {
        lemma_find_last_colon_space_bound(s.drop_last());
    }
}

} // verus!
