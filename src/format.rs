//! The line formatter: verbatim, preserve-mode and compacting output of one line.

use vstd::prelude::*;
use crate::text::{
    chars_of, collapse_ws, is_whitespace, is_ws, regex_collapse_ws, slice_chars, string_of,
    trim, trim_chars, trim_end, trim_start,
};

verus! {

/// The first index at or after `i` where a line comment `//` starts, or the
/// length of `s` where none does.
pub open spec fn comment_from(s: Seq<char>, i: int) -> int
    decreases s.len() - i,
{
    if i < 0 || i + 1 >= s.len() {
        s.len() as int
    } else if s[i] == '/' && s[i + 1] == '/' {
        i
    } else {
        comment_from(s, i + 1)
    }
}

pub open spec fn comment_at(s: Seq<char>, j: int) -> bool {
    0 <= j && j + 1 < s.len() && s[j] == '/' && s[j + 1] == '/'
}

pub open spec fn comment_start(s: Seq<char>) -> int {
    comment_from(s, 0)
}

/// `s` cut at its first line comment, without the whitespace before the cut.
pub open spec fn strip_comment(s: Seq<char>) -> Seq<char> {
    let k = comment_start(s);
    if k < s.len() {
        trim_end(s.take(k))
    } else {
        s
    }
}

/// The normal-mode form of a line that is not a preprocessor line: trimmed,
/// each whitespace run collapsed to one space, and any line comment dropped.
pub open spec fn compact(line: Seq<char>) -> Seq<char> {
    strip_comment(collapse_ws(trim(line)))
}

pub open spec fn on_own_line(t: Seq<char>, ends_with_newline: bool) -> Seq<char> {
    if ends_with_newline {
        t.push('\n')
    } else {
        seq!['\n'] + t.push('\n')
    }
}

/// The fragment that `line` contributes and whether the output then ends
/// with a newline, given whether it did before, whether preserve mode is on,
/// and whether formatting is enabled at all.
pub open spec fn format_spec(
    line: Seq<char>,
    ends_with_newline: bool,
    preserve: bool,
    enabled: bool,
) -> (Seq<char>, bool) {
    if !enabled {
        (line.push('\n'), true)
    } else if preserve {
        (on_own_line(line, ends_with_newline), true)
    } else {
        let t = trim(line);
        if t.len() == 0 {
            (t, ends_with_newline)
        } else if t[0] == '#' {
            (on_own_line(t, ends_with_newline), true)
        } else {
            (compact(line), false)
        }
    }
}

fn find_comment(s: &Vec<char>) -> (r: usize)
    ensures
        r == comment_start(s@),
{
    let n = s.len();
    let mut i: usize = 0;
    while n - i > 1
        invariant
            i <= n == s@.len(),
            comment_from(s@, i as int) == comment_start(s@),
        decreases n - i,
    {
        if s[i] == '/' && s[i + 1] == '/' {
            return i;
        }
        i = i + 1;
    }
    n
}

fn trim_end_prefix(s: &Vec<char>, k: usize) -> (r: Vec<char>)
    requires
        k <= s@.len(),
    ensures
        r@ == trim_end(s@.take(k as int)),
{
    let mut hi: usize = k;
    while hi > 0 && is_whitespace(s[hi - 1])
        invariant
            hi <= k <= s@.len(),
            trim_end(s@.take(k as int)) == trim_end(s@.take(hi as int)),
        decreases hi,
    {
        assert(s@.take(hi as int).drop_last() =~= s@.take(hi as int - 1));
        hi = hi - 1;
    }
    assert(s@.take(hi as int) =~= s@.subrange(0, hi as int));
    slice_chars(s, 0, hi)
}

pub(crate) fn push_str(out: &mut Vec<char>, s: &Vec<char>)
    ensures
        final(out)@ == old(out)@ + s@,
{
    let mut i: usize = 0;
    while i < s.len()
        invariant
            i <= s@.len(),
            out@ == old(out)@ + s@.take(i as int),
        decreases s@.len() - i,
    {
        out.push(s[i]);
        i = i + 1;
        assert(out@ =~= old(out)@ + s@.take(i as int));
    }
    assert(s@.take(i as int) =~= s@);
}

fn own_line(t: &Vec<char>, ends_with_newline: bool) -> (r: String)
    ensures
        r@ == on_own_line(t@, ends_with_newline),
{
    let mut out: Vec<char> = Vec::new();
    if !ends_with_newline {
        out.push('\n');
    }
    push_str(&mut out, t);
    out.push('\n');
    assert(out@ =~= on_own_line(t@, ends_with_newline));
    string_of(out.as_slice())
}

/// Formats one line; returns the fragment to append and whether the output
/// ends with a newline after it.
pub fn format_line(line: &str, ends_with_newline: bool, preserve: bool, enabled: bool) -> (r: (
    String,
    bool,
))
    ensures
        (r.0@, r.1) == format_spec(line@, ends_with_newline, preserve, enabled),
{
    let chars = chars_of(line);
    if !enabled {
        return (own_line(&chars, true), true);
    }
    if preserve {
        return (own_line(&chars, ends_with_newline), true);
    }
    let t = trim_chars(&chars);
    if t.len() == 0 {
        return (string_of(t.as_slice()), ends_with_newline);
    }
    if t[0] == '#' {
        return (own_line(&t, ends_with_newline), true);
    }
    let collapsed = chars_of(&regex_collapse_ws(&string_of(t.as_slice())));
    let k = find_comment(&collapsed);
    if k < collapsed.len() {
        let cut = trim_end_prefix(&collapsed, k);
        (string_of(cut.as_slice()), false)
    } else {
        (string_of(collapsed.as_slice()), false)
    }
}

/// A compacted line: every whitespace character is a single space standing
/// between two other characters, and no line comment is left.
pub open spec fn compact_form(s: Seq<char>) -> bool {
    &&& forall|i: int|
        0 <= i < s.len() && #[trigger] is_ws(s[i]) ==> s[i] == ' ' && 0 < i && i + 1 < s.len()
            && !is_ws(s[i + 1])
    &&& comment_start(s) == s.len()
}

/// Every whitespace character of `s` is a space followed by no other whitespace.
pub open spec fn single_spaced(s: Seq<char>) -> bool {
    forall|i: int|
        0 <= i < s.len() && #[trigger] is_ws(s[i]) ==> s[i] == ' ' && (i + 1 < s.len() ==> !is_ws(
            s[i + 1],
        ))
}

proof fn lemma_trim_start(s: Seq<char>)
    ensures
        trim_start(s).len() <= s.len(),
        trim_start(s) == s.subrange(s.len() - trim_start(s).len(), s.len() as int),
        trim_start(s).len() > 0 ==> !is_ws(trim_start(s)[0]),
    decreases s.len(),
{
    if s.len() > 0 && is_ws(s[0]) {
        lemma_trim_start(s.drop_first());
        assert(s.drop_first().subrange(
            s.drop_first().len() - trim_start(s).len(),
            s.drop_first().len() as int,
        ) =~= s.subrange(s.len() - trim_start(s).len(), s.len() as int));
    } else {
        assert(s.subrange(0, s.len() as int) =~= s);
    }
}

proof fn lemma_trim_end(s: Seq<char>)
    ensures
        trim_end(s).len() <= s.len(),
        trim_end(s) == s.take(trim_end(s).len() as int),
        trim_end(s).len() > 0 ==> !is_ws(trim_end(s).last()),
    decreases s.len(),
{
    if s.len() > 0 && is_ws(s.last()) {
        lemma_trim_end(s.drop_last());
        assert(s.drop_last().take(trim_end(s).len() as int) =~= s.take(
            trim_end(s).len() as int,
        ));
    } else {
        assert(s.take(s.len() as int) =~= s);
    }
}

proof fn lemma_trim_bounds(s: Seq<char>)
    ensures
        trim(s).len() > 0 ==> !is_ws(trim(s)[0]) && !is_ws(trim(s).last()),
{
    lemma_trim_start(s);
    lemma_trim_end(trim_start(s));
    if trim(s).len() > 0 {
        assert(trim(s)[0] == trim_start(s)[0]);
    }
}

proof fn lemma_collapse(s: Seq<char>)
    ensures
        single_spaced(collapse_ws(s)),
        s.len() > 0 && !is_ws(s[0]) ==> collapse_ws(s).len() > 0 && collapse_ws(s)[0] == s[0],
        s.len() > 0 && !is_ws(s.last()) ==> collapse_ws(s).len() > 0 && collapse_ws(s).last()
            == s.last(),
        s.len() > 0 && is_ws(s.last()) ==> collapse_ws(s).len() > 0 && is_ws(
            collapse_ws(s).last(),
        ),
    decreases s.len(),
{
    if s.len() > 0 {
        let p = s.drop_last();
        lemma_collapse(p);
        let r = collapse_ws(s);
        let q = collapse_ws(p);
        if s.len() >= 2 {
            assert(p.last() == s[s.len() - 2]);
        }
        if s.len() > 1 && !is_ws(s[0]) {
            assert(p[0] == s[0]);
        }
        assert forall|i: int| 0 <= i < r.len() && #[trigger] is_ws(r[i]) implies r[i] == ' ' && (
        i + 1 < r.len() ==> !is_ws(r[i + 1])) by {
            if i < q.len() {
                assert(r[i] == q[i]);
                if i + 1 < r.len() && i + 1 == q.len() {
                    assert(is_ws(q.last()));
                }
            }
        }
    }
}

proof fn lemma_single_spaced_fixed(s: Seq<char>)
    requires
        single_spaced(s),
    ensures
        collapse_ws(s) == s,
    decreases s.len(),
{
    if s.len() > 0 {
        let p = s.drop_last();
        assert forall|i: int| 0 <= i < p.len() && #[trigger] is_ws(p[i]) implies p[i] == ' ' && (
        i + 1 < p.len() ==> !is_ws(p[i + 1])) by {
            assert(s[i] == p[i]);
        }
        lemma_single_spaced_fixed(p);
        if is_ws(s.last()) && s.len() >= 2 {
            assert(!is_ws(s[s.len() - 2]) || !is_ws(s[s.len() - 1]));
        }
        assert(p.push(s.last()) =~= s);
    }
}

proof fn lemma_comment_from(s: Seq<char>, i: int)
    requires
        0 <= i,
    ensures
        i <= comment_from(s, i) <= s.len() || (i > s.len() && comment_from(s, i) == s.len()),
        forall|j: int| i <= j < comment_from(s, i) ==> !#[trigger] comment_at(s, j),
        comment_from(s, i) < s.len() ==> comment_from(s, i) + 1 < s.len() && s[comment_from(s, i)]
            == '/' && s[comment_from(s, i) + 1] == '/',
    decreases s.len() - i,
{
    if i + 1 < s.len() && !(s[i] == '/' && s[i + 1] == '/') {
        lemma_comment_from(s, i + 1);
    }
}

proof fn lemma_no_comment(s: Seq<char>, i: int)
    requires
        0 <= i,
        forall|j: int| !#[trigger] comment_at(s, j),
    ensures
        comment_from(s, i) == s.len(),
    decreases s.len() - i,
{
    if i + 1 < s.len() {
        assert(!comment_at(s, i));
        lemma_no_comment(s, i + 1);
    }
}

proof fn lemma_compact_form(line: Seq<char>)
    ensures
        compact_form(compact(line)),
{
    let t = trim(line);
    let p = collapse_ws(t);
    lemma_trim_bounds(line);
    lemma_collapse(t);
    lemma_comment_from(p, 0);
    let k = comment_start(p);
    let r = compact(line);
    if k < p.len() {
        let q = p.take(k);
        lemma_trim_end(q);
        assert(r == trim_end(q));
        assert forall|j: int| !#[trigger] comment_at(r, j) by {
            if comment_at(r, j) {
                assert(r[j] == p[j] && r[j + 1] == p[j + 1]);
                assert(comment_at(p, j));
            }
        }
        lemma_no_comment(r, 0);
        assert forall|i: int| 0 <= i < r.len() && #[trigger] is_ws(r[i]) implies r[i] == ' ' && 0 < i
            && i + 1 < r.len() && !is_ws(r[i + 1]) by {
            assert(r[i] == p[i]);
            if i == 0 {
                assert(r[0] == p[0]);
            }
            if i + 1 < r.len() {
                assert(r[i + 1] == p[i + 1]);
            }
        }
    } else {
        assert(r == p);
        if p.len() > 0 {
            assert(is_ws(t.last()) == false);
        }
    }
}

proof fn lemma_compact_form_fixed(s: Seq<char>)
    requires
        compact_form(s),
    ensures
        trim(s) == s,
        compact(s) == s,
        s.len() > 0 ==> !is_ws(s[0]),
{
    if s.len() > 0 {
        assert(!is_ws(s[0]));
        assert(!is_ws(s.last()));
    }
    assert(trim_start(s) == s);
    assert(trim_end(s) == s);
    lemma_single_spaced_fixed(s);
}

/// Compacting a line twice gives what compacting it once gave.
pub proof fn lemma_compact_idempotent(line: Seq<char>)
    ensures
        compact(compact(line)) == compact(line),
{
    lemma_compact_form(line);
    lemma_compact_form_fixed(compact(line));
}

/// Formatting in normal mode is a fixed point on its own output: a fragment
/// produced for a line that is not a preprocessor line formats to itself,
/// whatever the newline state was on either run, and a non-empty one leaves
/// the output without a newline both times.
pub proof fn lemma_format_idempotent(line: Seq<char>, first_ends: bool, second_ends: bool)
    requires
        trim(line).len() == 0 || trim(line)[0] != '#',
    ensures
        format_spec(format_spec(line, first_ends, false, true).0, second_ends, false, true).0
            == format_spec(line, first_ends, false, true).0,
        format_spec(line, first_ends, false, true).0.len() > 0 ==> format_spec(
            format_spec(line, first_ends, false, true).0,
            second_ends,
            false,
            true,
        ) == format_spec(line, first_ends, false, true),
{
    let t = trim(line);
    if t.len() > 0 {
        let o = compact(line);
        lemma_compact_form(line);
        lemma_compact_form_fixed(o);
        lemma_trim_bounds(line);
        lemma_collapse(t);
        let p = collapse_ws(t);
        lemma_comment_from(p, 0);
        if o.len() > 0 {
            if comment_start(p) < p.len() {
                lemma_trim_end(p.take(comment_start(p)));
                assert(o[0] == p[0]);
            }
            assert(o[0] == t[0]);
        }
    }
}

/// A preprocessor line, formatted after a completed line, comes out on its
/// own line; formatting that output again, in the same state, gives it back
/// with the same flag.
pub proof fn lemma_directive_line_idempotent(line: Seq<char>)
    requires
        trim(line).len() > 0,
        trim(line)[0] == '#',
    ensures
        format_spec(format_spec(line, true, false, true).0, true, false, true) == format_spec(
            line,
            true,
            false,
            true,
        ),
{
    let t = trim(line);
    lemma_trim_bounds(line);
    let o = t.push('\n');
    assert(!is_ws(o[0]));
    assert(trim_start(o) == o);
    assert(o.drop_last() =~= t);
    assert(trim_end(o) == trim_end(t));
    assert(trim_end(t) == t);
    assert(trim(o) == t);
}

/// Inside a preserved region a line comes out as it is, blank or not, on a
/// line of its own.
pub proof fn lemma_preserved_verbatim(line: Seq<char>, ends_with_newline: bool)
    ensures
        format_spec(line, ends_with_newline, true, true) == (
            if ends_with_newline {
                line.push('\n')
            } else {
                seq!['\n'] + line.push('\n')
            },
            true,
        ),
{
}

} // verus!
