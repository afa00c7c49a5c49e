use hypercompress::selection::{all_have_ext, any_has_ext};

#[test]
fn any_path_with_the_extension_matches_ignoring_case() {
    assert!(any_has_ext(&["docs/readme.txt", "backup/site.HC"], "hc"));
    assert!(!any_has_ext(&["docs/readme.txt", "notes.md"], "hc"));
    assert!(!any_has_ext(&[], "hc"));
}

#[test]
fn all_paths_must_have_the_extension() {
    assert!(all_have_ext(&["a.hc", "b/c.Hc", "d.tar.hc"], "hc"));
    assert!(!all_have_ext(&["a.hc", "b.zip"], "hc"));
    assert!(!all_have_ext(&[], "hc"));
}

#[test]
fn a_leading_dot_is_not_an_extension() {
    assert!(!any_has_ext(&[".hc"], "hc"));
    assert!(any_has_ext(&[".config.hc"], "hc"));
    assert!(!any_has_ext(&["folder.hc/"], "zip"));
    assert!(!any_has_ext(&["noext"], ""));
}
