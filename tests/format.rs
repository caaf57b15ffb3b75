use cpp_bundle::format::format_line;

#[test]
fn compacts_spaces_and_strips_comment() {
    let (out, nl) = format_line("int   x   =   1; // comment", true, false, true);
    assert_eq!(out, "int x = 1;");
    assert!(!nl);
}

#[test]
fn collapses_tabs_and_trims() {
    let (out, nl) = format_line("\t  a\t\tb  c  ", false, false, true);
    assert_eq!(out, "a b c");
    assert!(!nl);
}

#[test]
fn comment_only_line_is_empty_fragment() {
    let (out, nl) = format_line("   // just a note", false, false, true);
    assert_eq!(out, "");
    assert!(!nl);
}

#[test]
fn blank_line_is_skipped_in_normal_mode() {
    assert_eq!(format_line("   ", true, false, true), (String::new(), true));
    assert_eq!(format_line("", false, false, true), (String::new(), false));
}

#[test]
fn preprocessor_line_on_its_own_line() {
    assert_eq!(format_line("  #define N 10  ", true, false, true), ("#define N 10\n".to_string(), true));
    assert_eq!(format_line("#define N 10", false, false, true), ("\n#define N 10\n".to_string(), true));
}

#[test]
fn preserve_mode_keeps_line_verbatim() {
    assert_eq!(format_line("  int   y;  // keep", true, true, true), ("  int   y;  // keep\n".to_string(), true));
    assert_eq!(format_line("", false, true, true), ("\n\n".to_string(), true));
}

#[test]
fn disabled_formatting_passes_through() {
    assert_eq!(format_line("  a   b // c", false, false, false), ("  a   b // c\n".to_string(), true));
}

#[test]
fn formatting_twice_is_stable() {
    for line in ["int   x   =   1; // comment", "  a  /  b  ", "f(x)  //  g", "x //", "  y\t=\t2;"] {
        let (once, _) = format_line(line, true, false, true);
        let (twice, _) = format_line(&once, false, false, true);
        assert_eq!(once, twice);
    }
}
