use cpp_bundle::directive::{classify, Directive};

fn spec_of(d: &Directive) -> Option<(bool, String)> {
    match d {
        Directive::Local { spec } => Some((true, spec.clone())),
        Directive::SearchPath { spec } => Some((false, spec.clone())),
        _ => None,
    }
}

#[test]
fn pragma_once_in_any_spacing() {
    assert!(matches!(classify("#pragma once"), Directive::PragmaOnce));
    assert!(matches!(classify("  #  pragma   once  "), Directive::PragmaOnce));
    assert!(matches!(classify("#pragmaonce"), Directive::PragmaOnce));
    assert!(matches!(classify("\t#pragma\tonce"), Directive::PragmaOnce));
    assert!(!matches!(classify("#pragma once extra"), Directive::PragmaOnce));
}

#[test]
fn preserve_sentinels_trimmed_exact() {
    assert!(matches!(classify("// BEGIN_PRESERVE_NEWLINES"), Directive::PreserveBegin));
    assert!(matches!(classify("   // BEGIN_PRESERVE_NEWLINES  "), Directive::PreserveBegin));
    assert!(matches!(classify("// END_PRESERVE_NEWLINES"), Directive::PreserveEnd));
    assert!(matches!(classify("//BEGIN_PRESERVE_NEWLINES"), Directive::Plain { .. }));
}

#[test]
fn quoted_include_is_local() {
    let d = classify("#include \"a.h\"");
    assert_eq!(spec_of(&d), Some((true, "a.h".to_string())));
    let d = classify("  # include   \"dir/b.hpp\"  ");
    assert_eq!(spec_of(&d), Some((true, "dir/b.hpp".to_string())));
}

#[test]
fn whitespace_inside_spec_is_removed() {
    let d = classify("#include \"my file.h\"");
    assert_eq!(spec_of(&d), Some((true, "myfile.h".to_string())));
}

#[test]
fn angle_include_is_search_path() {
    let d = classify("#include <vector>");
    assert_eq!(spec_of(&d), Some((false, "vector".to_string())));
    let d = classify("#include <user/graph.hpp>");
    assert_eq!(spec_of(&d), Some((false, "user/graph.hpp".to_string())));
}

#[test]
fn other_lines_are_plain() {
    match classify("int main() {}") {
        Directive::Plain { text } => assert_eq!(text, "int main() {}"),
        _ => panic!("expected plain"),
    }
    assert!(matches!(classify("#define N 10"), Directive::Plain { .. }));
    assert!(matches!(classify(""), Directive::Plain { .. }));
}
