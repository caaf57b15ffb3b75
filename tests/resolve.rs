use cpp_bundle::directive::classify;
use cpp_bundle::resolve::{candidate, good_path};

#[test]
fn local_candidate_next_to_file() {
    let c = candidate(&classify("#include \"a.h\""), "/x/y/main.cpp", "/inc", &vec![]).unwrap();
    assert_eq!(c.path, "/x/y/a.h");
    assert!(!c.must_exist);
}

#[test]
fn search_candidate_under_root() {
    let c = candidate(&classify("#include <user/g.hpp>"), "/x/main.cpp", "/inc", &vec![]).unwrap();
    assert_eq!(c.path, "/inc/user/g.hpp");
    assert!(c.must_exist);
}

#[test]
fn namespace_prefixes_restrict_search() {
    let prefixes = vec!["user/".to_string()];
    assert!(candidate(&classify("#include <vector>"), "/x/m.cpp", "/inc", &prefixes).is_none());
    let c = candidate(&classify("#include <user/g.hpp>"), "/x/m.cpp", "/inc", &prefixes).unwrap();
    assert_eq!(c.path, "/inc/user/g.hpp");
}

#[test]
fn plain_line_has_no_candidate() {
    assert!(candidate(&classify("int a;"), "/x/m.cpp", "/inc", &vec![]).is_none());
    assert!(candidate(&classify("#pragma once"), "/x/m.cpp", "/inc", &vec![]).is_none());
}

#[test]
fn canonical_path_of_existing_dir() {
    let p = good_path(".").unwrap();
    assert!(!p.is_empty());
    assert!(p.starts_with('/'));
    assert!(!p.contains("/./") && !p.contains("/../") && !p.ends_with("/.") && !p.ends_with("/.."));
    let q = good_path("./../.").unwrap();
    assert!(q.starts_with('/'));
    assert!(good_path("/definitely/not/here/x.h").is_none());
}
