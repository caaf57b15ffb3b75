//! The final document: hoisted external references, the body, and a trailer.

use vstd::prelude::*;
use crate::format::push_str;
use crate::graph::{bundle, bundle_spec, graph_wf, texts, Bundle, SourceFile};
use crate::text::{chars_of, string_of};

verus! {

/// Each external reference on a line of its own, in the order given.
pub open spec fn reference_block(refs: Seq<Seq<char>>) -> Seq<char>
    decreases refs.len(),
{
    if refs.len() == 0 {
        Seq::empty()
    } else {
        reference_block(refs.drop_last()) + refs.last().push('\n')
    }
}

/// The three trailer lines: author, provenance and generation time.
pub open spec fn trailer(author: Seq<char>, timestamp: Seq<char>) -> Seq<char> {
    "// Author: "@ + author + "\n"@ + "// converted by https://github.com/kk2a/cpp-bundle\n"@ + "// "@ + timestamp + "\n"@
}

/// The reference block, a blank line, the body, a newline where the body
/// does not end with one, and the trailer.
pub open spec fn document(
    refs: Seq<Seq<char>>,
    body: Seq<char>,
    ends_with_newline: bool,
    author: Seq<char>,
    timestamp: Seq<char>,
) -> Seq<char> {
    reference_block(refs) + "\n"@ + body + (if ends_with_newline {
        Seq::empty()
    } else {
        "\n"@
    }) + trailer(author, timestamp)
}

/// Puts the document together.
pub fn assemble(
    externals: &Vec<String>,
    body: &String,
    ends_with_newline: bool,
    author: &str,
    timestamp: &str,
) -> (r: String)
    ensures
        r@ == document(texts(externals@), body@, ends_with_newline, author@, timestamp@),
{
    let mut out: Vec<char> = Vec::new();
    let mut j: usize = 0;
    while j < externals.len()
        invariant
            j <= externals@.len(),
            out@ == reference_block(texts(externals@).take(j as int)),
        decreases externals@.len() - j,
    {
        push_str(&mut out, &chars_of(externals[j].as_str()));
        out.push('\n');
        proof {
            let t = texts(externals@);
            assert(t.take(j as int + 1).drop_last() =~= t.take(j as int));
            assert(t[j as int] == externals@[j as int]@);
        }
        j = j + 1;
        assert(out@ =~= reference_block(texts(externals@).take(j as int)));
    }
    assert(texts(externals@).take(j as int) =~= texts(externals@));
    push_str(&mut out, &chars_of("\n"));
    push_str(&mut out, &chars_of(body.as_str()));
    if !ends_with_newline {
        push_str(&mut out, &chars_of("\n"));
    }
    push_str(&mut out, &chars_of("// Author: "));
    push_str(&mut out, &chars_of(author));
    push_str(&mut out, &chars_of("\n"));
    push_str(&mut out, &chars_of("// converted by https://github.com/kk2a/cpp-bundle\n"));
    push_str(&mut out, &chars_of("// "));
    push_str(&mut out, &chars_of(timestamp));
    push_str(&mut out, &chars_of("\n"));
    assert(out@ =~= document(texts(externals@), body@, ends_with_newline, author@, timestamp@));
    string_of(out.as_slice())
}

/// Bundles the graph from `root` and assembles the document around the body.
pub fn bundle_document(
    files: &Vec<SourceFile>,
    root: usize,
    format_enabled: bool,
    author: &str,
    timestamp: &str,
) -> (r: (String, Bundle))
    requires
        graph_wf(files@),
        root < files@.len(),
    ensures
        r.0@ == document(
            texts(r.1.externals@),
            r.1.body@,
            r.1.ends_with_newline,
            author@,
            timestamp@,
        ),
        bundle_spec(files@, root, format_enabled, r.1),
{
    let b = bundle(files, root, format_enabled);
    let doc = assemble(&b.externals, &b.body, b.ends_with_newline, author, timestamp);
    (doc, b)
}

} // verus!
