//! Classification of edge targets by path, and the exclusion policy that
//! keeps secret-bearing paths out of every record.
use vstd::prelude::*;
use crate::record::{Target, TargetView};
use crate::text::{
    ends_with, ends_with_str, split, split_str, starts_with, starts_with_str, str_eq, strs,
};

verus! {

// Built-in document sources. The spec allows overriding these through
// .grafite/config.toml; reading that file is deferred.
pub const SPEC_PREFIX: &'static str = "docs/superpowers/specs/";

pub const PLAN_PREFIX: &'static str = "docs/superpowers/plans/";

/// The target a path classifies as: a Markdown file under the specs prefix
/// is a spec, one under the plans prefix a plan, anything else a file.
pub open spec fn classify_view(path: Seq<char>) -> TargetView {
    let is_markdown = ends_with(path, ".md"@);
    if is_markdown && starts_with(path, SPEC_PREFIX@) {
        TargetView::Spec(path)
    } else if is_markdown && starts_with(path, PLAN_PREFIX@) {
        TargetView::Plan(path)
    } else {
        TargetView::File(path)
    }
}

/// Classify an edge target by path. Reads no file content.
pub fn classify(path: &str) -> (t: Target)
    ensures
        t@ == classify_view(path@),
{
    let is_markdown = ends_with_str(path, ".md");
    if is_markdown && starts_with_str(path, SPEC_PREFIX) {
        return Target::Spec(path.to_owned());
    }
    if is_markdown && starts_with_str(path, PLAN_PREFIX) {
        return Target::Plan(path.to_owned());
    }
    Target::File(path.to_owned())
}

/// Only Markdown paths are documents. A target always carries the path it
/// was classified from; a path that does not end in `.md` is a file target;
/// a spec is a Markdown path under `docs/superpowers/specs/`, a plan one
/// under `docs/superpowers/plans/`, and every Markdown path under one of
/// those directories is the spec or plan it names.
pub proof fn lemma_classify_markdown_only(path: Seq<char>)
    ensures
        !(path.len() >= 3 && path[path.len() - 3] == '.' && path[path.len() - 2] == 'm'
            && path[path.len() - 1] == 'd') ==> classify_view(path) == TargetView::File(path),
        classify_view(path) is Spec ==> {
            &&& classify_view(path) == TargetView::Spec(path)
            &&& path.len() >= 3 && path[path.len() - 3] == '.' && path[path.len() - 2] == 'm'
                && path[path.len() - 1] == 'd'
            &&& path.len() >= 23 && path.subrange(0, 23) == "docs/superpowers/specs/"@
        },
        classify_view(path) is Plan ==> {
            &&& classify_view(path) == TargetView::Plan(path)
            &&& path.len() >= 3 && path[path.len() - 3] == '.' && path[path.len() - 2] == 'm'
                && path[path.len() - 1] == 'd'
            &&& path.len() >= 23 && path.subrange(0, 23) == "docs/superpowers/plans/"@
        },
        !(classify_view(path) is Adr),
        classify_view(path) is File ==> classify_view(path) == TargetView::File(path),
        (path.len() >= 23 && path.subrange(0, 23) == "docs/superpowers/specs/"@ && path.len() >= 3
            && path.subrange(path.len() - 3, path.len() as int) == ".md"@) ==> classify_view(path)
            == TargetView::Spec(path),
        (path.len() >= 23 && path.subrange(0, 23) == "docs/superpowers/plans/"@ && path.len() >= 3
            && path.subrange(path.len() - 3, path.len() as int) == ".md"@) ==> classify_view(path)
            == TargetView::Plan(path),
{
    reveal_strlit(".md");
    reveal_strlit("docs/superpowers/specs/");
    reveal_strlit("docs/superpowers/plans/");
    let n = path.len();
    if n >= 3 {
        let tail = path.subrange(n - 3, n as int);
        assert(tail[0] == path[n - 3]);
        assert(tail[1] == path[n - 2]);
        assert(tail[2] == path[n - 1]);
        if path[n - 3] == '.' && path[n - 2] == 'm' && path[n - 1] == 'd' {
            assert(tail =~= ".md"@);
        }
    }
    if n >= 23 && path.subrange(0, 23) == "docs/superpowers/specs/"@ {
        assert(path.subrange(0, 23)[17] == 's');
        assert("docs/superpowers/plans/"@[17] == 'p');
    }
}

/// Directory names whose contents never become edge targets.
pub open spec fn excluded_directory(component: Seq<char>) -> bool {
    component == "state"@ || component == "scratch"@
}

/// File names that carry secrets.
pub open spec fn secret_file_name(name: Seq<char>) -> bool {
    ||| starts_with(name, ".env"@)
    ||| starts_with(name, "id_ed25519"@)
    ||| starts_with(name, ".agent-sandbox.toml"@)
    ||| ends_with(name, ".pass"@)
    ||| name == "keyring.pass"@
}

/// A path is excluded when one of its `/`-separated components is an
/// excluded directory, or when its last component is a secret file name.
pub open spec fn excluded(path: Seq<char>) -> bool {
    let components = split(path, '/');
    ||| exists|i: int| 0 <= i < components.len() && excluded_directory(#[trigger] components[i])
    ||| secret_file_name(components.last())
}

/// The exclusion policy in full: a path is excluded exactly when one of its
/// `/`-separated components is `state` or `scratch`, or its last component
/// starts with `.env`, `id_ed25519` or `.agent-sandbox.toml`, or ends with
/// `.pass`. Any other dot file, such as `.gitignore`, is kept.
pub proof fn lemma_excluded_exactly(path: Seq<char>)
    ensures
        excluded(path) <==> {
            ||| exists|i: int|
                0 <= i < split(path, '/').len() && (#[trigger] split(path, '/')[i] == "state"@
                    || split(path, '/')[i] == "scratch"@)
            ||| starts_with(split(path, '/').last(), ".env"@)
            ||| starts_with(split(path, '/').last(), "id_ed25519"@)
            ||| starts_with(split(path, '/').last(), ".agent-sandbox.toml"@)
            ||| ends_with(split(path, '/').last(), ".pass"@)
        },
{
    reveal_strlit("keyring.pass");
    reveal_strlit(".pass");
    let name = split(path, '/').last();
    if name == "keyring.pass"@ {
        assert(name.subrange(name.len() - 5, name.len() as int) =~= ".pass"@);
    }
}

/// Mirrors the exclusion policy of the Graphify project configuration, so
/// exclusions stay consistent across providers.
pub fn is_excluded(path: &str) -> (r: bool)
    ensures
        r == excluded(path@),
{
    let components = split_str(path, '/');
    let ghost comps = strs(components@);
    proof {
        crate::text::lemma_split_nonempty(path@, '/');
    }
    let n = components.len();
    let mut i: usize = 0;
    while i < n
        invariant
            n == components@.len(),
            comps == strs(components@),
            comps == split(path@, '/'),
            0 <= i <= n,
            forall|k: int| 0 <= k < i ==> !excluded_directory(#[trigger] comps[k]),
        decreases n - i,
    {
        let c = components[i].as_str();
        if str_eq(c, "state") || str_eq(c, "scratch") {
            assert(excluded_directory(comps[i as int]));
            return true;
        }
        i += 1;
    }
    let file_name = components[n - 1].as_str();
    str_eq(file_name, "keyring.pass") || starts_with_str(file_name, ".env") || starts_with_str(
        file_name,
        "id_ed25519",
    ) || starts_with_str(file_name, ".agent-sandbox.toml") || ends_with_str(file_name, ".pass")
}

} // verus!
