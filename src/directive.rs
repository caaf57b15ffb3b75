//! Classification of one source line.

use vstd::prelude::*;
use crate::text::{
    chars_of, eq_chars, remove_ws, regex_remove_ws, slice_chars, starts_with, starts_with_chars,
    string_of, trim, trim_chars,
};

verus! {

/// What one physical line of a source file is.
pub enum Directive {
    /// A quoted include, resolved next to the including file.
    Local { spec: String },
    /// An angle-bracket include, resolved under the search root.
    SearchPath { spec: String },
    PragmaOnce,
    PreserveBegin,
    PreserveEnd,
    /// Any other line, kept as it is.
    Plain { text: String },
}

pub enum DirectiveView {
    Local { spec: Seq<char> },
    SearchPath { spec: Seq<char> },
    PragmaOnce,
    PreserveBegin,
    PreserveEnd,
    Plain { text: Seq<char> },
}

impl View for Directive {
    type V = DirectiveView;

    open spec fn view(&self) -> DirectiveView {
        match self {
            Directive::Local { spec } => DirectiveView::Local { spec: spec@ },
            Directive::SearchPath { spec } => DirectiveView::SearchPath { spec: spec@ },
            Directive::PragmaOnce => DirectiveView::PragmaOnce,
            Directive::PreserveBegin => DirectiveView::PreserveBegin,
            Directive::PreserveEnd => DirectiveView::PreserveEnd,
            Directive::Plain { text } => DirectiveView::Plain { text: text@ },
        }
    }
}

pub open spec fn pragma_once_token() -> Seq<char> {
    "#pragmaonce"@
}

pub open spec fn begin_sentinel() -> Seq<char> {
    "// BEGIN_PRESERVE_NEWLINES"@
}

pub open spec fn end_sentinel() -> Seq<char> {
    "// END_PRESERVE_NEWLINES"@
}

pub open spec fn local_opener() -> Seq<char> {
    "#include\""@
}

pub open spec fn search_opener() -> Seq<char> {
    "#include<"@
}

/// `s` without any trailing copies of `c`.
pub open spec fn strip_trailing(s: Seq<char>, c: char) -> Seq<char>
    decreases s.len(),
{
    if s.len() > 0 && s.last() == c {
        strip_trailing(s.drop_last(), c)
    } else {
        s
    }
}

/// The specifier of an include whose whitespace-free form `w` starts with `opener`:
/// what follows the opener, without the closing characters at its end.
pub open spec fn specifier(w: Seq<char>, opener: Seq<char>, close: char) -> Seq<char> {
    strip_trailing(w.subrange(opener.len() as int, w.len() as int), close)
}

/// The classification of `line`, by the first rule that applies: a `#pragma once`
/// in any spacing, the two preserve sentinels (trimmed, exact), a quoted include,
/// an angle-bracket include, and otherwise plain text.
pub open spec fn directive_of(line: Seq<char>) -> DirectiveView {
    let w = remove_ws(line);
    if w == pragma_once_token() {
        DirectiveView::PragmaOnce
    } else if trim(line) == begin_sentinel() {
        DirectiveView::PreserveBegin
    } else if trim(line) == end_sentinel() {
        DirectiveView::PreserveEnd
    } else if starts_with(w, local_opener()) {
        DirectiveView::Local { spec: specifier(w, local_opener(), '"') }
    } else if starts_with(w, search_opener()) {
        DirectiveView::SearchPath { spec: specifier(w, search_opener(), '>') }
    } else {
        DirectiveView::Plain { text: line }
    }
}

fn strip_trailing_chars(s: &Vec<char>, lo: usize, c: char) -> (r: Vec<char>)
    requires
        lo <= s@.len(),
    ensures
        r@ == strip_trailing(s@.subrange(lo as int, s@.len() as int), c),
{
    let mut hi: usize = s.len();
    assert(s@.subrange(lo as int, hi as int) =~= s@.subrange(lo as int, s@.len() as int));
    while hi > lo && s[hi - 1] == c
        invariant
            lo <= hi <= s@.len(),
            strip_trailing(s@.subrange(lo as int, s@.len() as int), c) == strip_trailing(
                s@.subrange(lo as int, hi as int),
                c,
            ),
        decreases hi,
    {
        assert(s@.subrange(lo as int, hi as int).drop_last() =~= s@.subrange(
            lo as int,
            hi as int - 1,
        ));
        hi = hi - 1;
    }
    slice_chars(s, lo, hi)
}

/// Classifies one line.
pub fn classify(line: &str) -> (r: Directive)
    ensures
        r@ == directive_of(line@),
{
    let w = chars_of(&regex_remove_ws(line));
    if eq_chars(&w, &chars_of("#pragmaonce")) {
        return Directive::PragmaOnce;
    }
    let t = trim_chars(&chars_of(line));
    if eq_chars(&t, &chars_of("// BEGIN_PRESERVE_NEWLINES")) {
        return Directive::PreserveBegin;
    }
    if eq_chars(&t, &chars_of("// END_PRESERVE_NEWLINES")) {
        return Directive::PreserveEnd;
    }
    let local = chars_of("#include\"");
    if starts_with_chars(&w, &local) {
        let spec = strip_trailing_chars(&w, local.len(), '"');
        return Directive::Local { spec: string_of(spec.as_slice()) };
    }
    let search = chars_of("#include<");
    if starts_with_chars(&w, &search) {
        let spec = strip_trailing_chars(&w, search.len(), '>');
        return Directive::SearchPath { spec: string_of(spec.as_slice()) };
    }
    Directive::Plain { text: string_of(chars_of(line).as_slice()) }
}

} // verus!
