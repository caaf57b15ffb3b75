use cpp_bundle::assemble::{assemble, bundle_document};
use cpp_bundle::graph::{bundle, check_graph, PathArena, SourceFile};

fn file(lines: &[&str], targets: &[Option<usize>]) -> SourceFile {
    SourceFile {
        lines: lines.iter().map(|s| s.to_string()).collect(),
        targets: targets.to_vec(),
    }
}

#[test]
fn scenario_nested_include_with_pragma() {
    let files = vec![
        file(&["#include \"a.h\"", "int main(){}"], &[Some(1), None]),
        file(&["#pragma once", "#include \"b.h\""], &[None, Some(2)]),
        file(&["int helper(){ return 1; }"], &[None]),
    ];
    let b = bundle(&files, 0, false);
    assert_eq!(b.body, "int helper(){ return 1; }\nint main(){}\n");
    assert!(b.ends_with_newline);
    assert_eq!(b.order, vec![0, 1, 2]);
    let b = bundle(&files, 0, true);
    assert_eq!(b.body, "int helper(){ return 1; } int main(){} ");
    assert!(!b.ends_with_newline);
    assert!(!b.body.contains("pragma"));
}

#[test]
fn shared_header_emitted_once() {
    let files = vec![
        file(&["#include \"a.h\"", "#include \"c.h\"", "int main(){}"], &[Some(1), Some(3), None]),
        file(&["#include \"b.h\""], &[Some(2)]),
        file(&["int helper(){ return 1; }"], &[None]),
        file(&["#include \"b.h\"", "int other();"], &[Some(2), None]),
    ];
    let b = bundle(&files, 0, false);
    assert_eq!(b.body, "int helper(){ return 1; }\nint other();\nint main(){}\n");
    assert_eq!(b.order, vec![0, 1, 2, 3]);
}

#[test]
fn cycle_terminates() {
    let files = vec![
        file(&["#include \"b.h\"", "int a;"], &[Some(1), None]),
        file(&["#include \"a.h\"", "int b;"], &[Some(0), None]),
    ];
    let b = bundle(&files, 0, false);
    assert_eq!(b.body, "int b;\nint a;\n");
    assert_eq!(b.order, vec![0, 1]);
}

#[test]
fn self_include_terminates() {
    let files = vec![file(&["#include \"self.h\"", "x;"], &[Some(0), None])];
    let b = bundle(&files, 0, true);
    assert_eq!(b.body, "x; ");
}

#[test]
fn externals_collected_once_each() {
    let files = vec![
        file(&["#include <vector>", "#include \"a.h\"", "#include <vector>"], &[None, Some(1), None]),
        file(&["#include <vector>", "#include <map>", "int a;"], &[None, None, None]),
    ];
    let b = bundle(&files, 0, false);
    assert_eq!(b.externals, vec!["#include <vector>".to_string(), "#include <map>".to_string()]);
    assert_eq!(b.body, "int a;\n");
}

#[test]
fn externals_keyed_by_raw_text() {
    let files = vec![file(&["#include <set>", "#include  <set>"], &[None, None])];
    let b = bundle(&files, 0, true);
    assert_eq!(b.externals.len(), 2);
}

#[test]
fn preserve_region_is_verbatim() {
    let files = vec![file(
        &[
            "int   a;",
            "// BEGIN_PRESERVE_NEWLINES",
            "  keep   this  // too",
            "",
            "// END_PRESERVE_NEWLINES",
            "int   b;",
            "int   c;",
        ],
        &[None; 7],
    )];
    let b = bundle(&files, 0, true);
    assert_eq!(b.body, "int a; \n  keep   this  // too\n\nint b; int c; ");
}

#[test]
fn unopened_file_contributes_nothing() {
    let files = vec![
        file(&["#include \"missing.h\"", "int z;"], &[Some(1), None]),
        file(&[], &[]),
    ];
    let b = bundle(&files, 0, true);
    assert_eq!(b.body, "int z; ");
    assert!(b.externals.is_empty());
}

#[test]
fn document_layout() {
    let doc = assemble(
        &vec!["#include <vector>".to_string()],
        &"int a; ".to_string(),
        false,
        "alice",
        "2024-01-02 03:04:05",
    );
    assert_eq!(
        doc,
        "#include <vector>\n\nint a; \n// Author: alice\n// converted by https://github.com/kk2a/cpp-bundle\n// 2024-01-02 03:04:05\n"
    );
}

#[test]
fn document_from_graph() {
    let files = vec![file(&["#include <cstdio>", "int main(){}"], &[None, None])];
    let (doc, b) = bundle_document(&files, 0, true, "bob", "T");
    assert_eq!(b.order, vec![0]);
    assert_eq!(doc, "#include <cstdio>\n\nint main(){} \n// Author: bob\n// converted by https://github.com/kk2a/cpp-bundle\n// T\n");
}

#[test]
fn graph_check() {
    assert!(check_graph(&vec![file(&["a"], &[None])]));
    assert!(!check_graph(&vec![file(&["a"], &[Some(1)])]));
    assert!(!check_graph(&vec![file(&["a", "b"], &[None])]));
}

#[test]
fn arena_interns_once() {
    let mut arena = PathArena::new();
    assert_eq!(arena.intern("/x/a.h"), 0);
    assert_eq!(arena.intern("/x/b.h"), 1);
    assert_eq!(arena.intern("/x/a.h"), 0);
    assert_eq!(arena.len(), 2);
    assert_eq!(arena.path(1), "/x/b.h");
}
