//! Turning an include directive into a candidate path, and canonical paths.

use vstd::prelude::*;
use crate::directive::{Directive, DirectiveView};
use crate::text::{chars_of, starts_with, starts_with_chars};

verus! {

/// The parent directory of a path as `std::path::Path::parent` gives it, or
/// the empty path where there is none.
pub uninterp spec fn parent_of(path: Seq<char>) -> Seq<char>;

/// A relative path joined onto a base as `std::path::Path::join` does it.
pub uninterp spec fn joined(base: Seq<char>, rel: Seq<char>) -> Seq<char>;

/// Relies on `std::path::Path::parent`: the directory part of `path`.
#[verifier::external_body]
fn parent_dir(path: &str) -> (r: String)
    ensures
        r@ == parent_of(path@),
{
    match std::path::Path::new(path).parent() {
        Some(p) => p.to_string_lossy().into_owned(),
        None => String::new(),
    }
}

/// Relies on `std::path::Path::join`: `rel` appended to `base`.
#[verifier::external_body]
fn join_path(base: &str, rel: &str) -> (r: String)
    ensures
        r@ == joined(base@, rel@),
{
    std::path::Path::new(base).join(rel).to_string_lossy().into_owned()
}

/// A `.` or `..` component starts at index `j` of `p`.
pub open spec fn dot_component_at(p: Seq<char>, j: int) -> bool {
    ||| (j < p.len() && p[j] == '.' && (j + 1 == p.len() || p[j + 1] == '/'))
    ||| (j + 1 < p.len() && p[j] == '.' && p[j + 1] == '.' && (j + 2 == p.len() || p[j + 2] == '/'))
}

/// An absolute path on a Unix file system, without `.` or `..` components.
pub open spec fn is_normal_absolute(p: Seq<char>) -> bool {
    &&& p.len() > 0
    &&& p[0] == '/'
    &&& forall|i: int| 0 <= i < p.len() && p[i] == '/' ==> !#[trigger] dot_component_at(p, i + 1)
}

/// Relies on `std::path::Path::canonicalize`: the absolute form of an existing
/// path with all intermediate components normalized and symbolic links
/// resolved (on Unix, `realpath`), or `None` where there is none or it is not
/// valid UTF-8. Which path it gives depends on the file system.
#[verifier::external_body]
fn canonical_form(path: &str) -> (r: Option<String>)
    ensures
        r matches Some(c) ==> is_normal_absolute(c@),
{
    match std::path::Path::new(path).canonicalize() {
        Ok(p) => p.to_str().map(String::from),
        Err(_) => None,
    }
}

/// The canonical absolute form of `path`, the identity of a file; `None`
/// where the path does not exist or cannot be resolved.
pub fn good_path(path: &str) -> (r: Option<String>)
    ensures
        r matches Some(c) ==> is_normal_absolute(c@),
{
    canonical_form(path)
}

/// Where an include directive may point: a path, and whether that path
/// counts only if a file exists there.
pub struct Candidate {
    pub path: String,
    pub must_exist: bool,
}

/// Whether an angle-bracket specifier may be looked up under the search root:
/// always where no namespace prefixes are configured, else only where it
/// starts with one of them.
pub open spec fn prefix_allowed(prefixes: Seq<String>, spec: Seq<char>) -> bool {
    prefixes.len() == 0 || exists|i: int| 0 <= i < prefixes.len() && starts_with(spec, #[trigger] prefixes[i]@)
}

/// The candidate of a directive found in the file at `current`: a quoted
/// include next to that file, existing or not; an allowed angle-bracket
/// include under the search root, if a file is there; nothing for other lines.
pub open spec fn candidate_spec(
    d: DirectiveView,
    current: Seq<char>,
    search_root: Seq<char>,
    prefixes: Seq<String>,
) -> Option<(Seq<char>, bool)> {
    match d {
        DirectiveView::Local { spec } => Some((joined(parent_of(current), spec), false)),
        DirectiveView::SearchPath { spec } => if prefix_allowed(prefixes, spec) {
            Some((joined(search_root, spec), true))
        } else {
            None
        },
        _ => None,
    }
}

fn has_allowed_prefix(prefixes: &Vec<String>, spec: &String) -> (r: bool)
    ensures
        r == prefix_allowed(prefixes@, spec@),
{
    if prefixes.len() == 0 {
        return true;
    }
    let s = chars_of(spec.as_str());
    let mut i: usize = 0;
    while i < prefixes.len()
        invariant
            i <= prefixes@.len(),
            s@ == spec@,
            forall|j: int| 0 <= j < i ==> !starts_with(spec@, #[trigger] prefixes@[j]@),
        decreases prefixes@.len() - i,
    {
        if starts_with_chars(&s, &chars_of(prefixes[i].as_str())) {
            return true;
        }
        i = i + 1;
    }
    false
}

/// The candidate path of `d`, read in the file at `current`.
pub fn candidate(d: &Directive, current: &str, search_root: &str, prefixes: &Vec<String>) -> (r:
    Option<Candidate>)
    ensures
        r matches Some(c) ==> candidate_spec(d@, current@, search_root@, prefixes@) == Some(
            (c.path@, c.must_exist),
        ),
        r is None ==> candidate_spec(d@, current@, search_root@, prefixes@) is None,
{
    match d {
        Directive::Local { spec } => {
            let dir = parent_dir(current);
            Some(Candidate { path: join_path(dir.as_str(), spec.as_str()), must_exist: false })
        },
        Directive::SearchPath { spec } => {
            if has_allowed_prefix(prefixes, spec) {
                Some(Candidate { path: join_path(search_root, spec.as_str()), must_exist: true })
            } else {
                None
            }
        },
        _ => None,
    }
}

} // verus!
