use rwave::path::{extract_extension, is_built_in_extension};
use rwave::signal::leaf_of;

#[test]
fn extract_lowercase_normalises_uppercase() {
    assert_eq!(extract_extension("data.FOO"), "foo");
    assert_eq!(extract_extension("data.Foo"), "foo");
}

#[test]
fn extract_uses_last_extension_for_multi_dot_filenames() {
    assert_eq!(extract_extension("archive.tar.gz"), "gz");
    assert_eq!(extract_extension("v1.0.data.foo"), "foo");
}

#[test]
fn extract_handles_directory_dots() {
    // Without Path-aware extraction, this used to (mis)parse as a
    // "with/data" extension. Now: file is "data", no extension.
    assert_eq!(extract_extension("dir.with.dot/data"), "");
    assert_eq!(extract_extension("dir.with.dot/data.foo"), "foo");
    assert_eq!(extract_extension("/abs.path/here/file.fst"), "fst");
}

#[test]
fn extract_no_extension_returns_empty() {
    assert_eq!(extract_extension("data"), "");
    assert_eq!(extract_extension(""), "");
    assert_eq!(extract_extension("/some/path"), "");
}

#[test]
fn extract_hidden_file_with_no_real_extension() {
    // Standard convention: ".foo" is a hidden file with no extension.
    assert_eq!(extract_extension(".foo"), "");
    assert_eq!(extract_extension("dir/.gitignore"), "");
}

#[test]
fn extract_trailing_dot_yields_empty() {
    // Path::extension on "foo." returns Some("") — still routes
    // to wellen because is_built_in_extension("") is false and
    // the dispatcher treats empty as "no plugin to ask".
    assert_eq!(extract_extension("foo."), "");
}

#[test]
fn extract_dot_only_filename_yields_empty() {
    // "." and ".." aren't real files but shouldn't blow up.
    assert_eq!(extract_extension("."), "");
    assert_eq!(extract_extension(".."), "");
}

#[test]
fn built_in_recognises_exact_lowercase() {
    for b in ["vcd", "fst", "ghw"] {
        assert!(is_built_in_extension(b));
    }
    assert!(!is_built_in_extension("foo"));
    assert!(!is_built_in_extension(""));
    assert!(!is_built_in_extension("vcd2"));
    assert!(!is_built_in_extension("xvcd"));
}

#[test]
fn plain_path_splits_at_its_scope() {
    assert_eq!(leaf_of("top.u_dma.req", "top.u_dma"), "req");
    assert_eq!(leaf_of("top.status", "top"), "status");
}

#[test]
fn top_level_signal_is_its_own_leaf() {
    assert_eq!(leaf_of("clk", ""), "clk");
}

#[test]
fn escaped_identifier_keeps_its_dots() {
    // verify/fixtures/escaped_trace.vcd: `\foo.bar` declared in scope `tb`.
    // rsplit('.') would answer "bar" and lose half the name.
    assert_eq!(leaf_of(r"tb.\foo.bar", "tb"), r"\foo.bar");
}

#[test]
fn vector_range_travels_with_the_leaf() {
    // The range is folded into the path, not the declared name, so the leaf
    // carries it — `data` and `data[7:0]` both match it as a substring.
    assert_eq!(leaf_of("tb.data[7:0]", "tb"), "data[7:0]");
}

#[test]
fn slash_separated_hierarchy_splits_too() {
    // The built-in FSDB backend emits '/' as a hierarchy separator.
    assert_eq!(leaf_of("top/u_dma/req", "top/u_dma"), "req");
}

#[test]
fn a_scope_that_is_not_a_prefix_yields_the_whole_path() {
    // Defensive: a backend breaking the path/scope contract must not panic
    // or slice mid-character.
    assert_eq!(leaf_of("top.req", "other"), "top.req");
    assert_eq!(leaf_of("ab", "abcdef"), "ab");
    assert_eq!(leaf_of("tb·x", "tb"), "tb·x");
}

#[test]
fn a_scope_as_long_as_the_first_segment_is_no_prefix() {
    assert_eq!(leaf_of("abc.req", "top"), "abc.req");
    assert_eq!(leaf_of("top.req", "top"), "req");
    assert_eq!(leaf_of("top.a.b", "top.a"), "b");
    assert_eq!(leaf_of("top.", "top"), "");
}
