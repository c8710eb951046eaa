use virtual_fs::name::{name_order, NameOrder};
use virtual_fs::path::{format_path, join_child, resolve};

fn segs(names: &[&str]) -> Vec<String> {
    names.iter().map(|s| s.to_string()).collect()
}

#[test]
fn absolute_path_ignores_current_directory() {
    let cwd = segs(&["x", "y"]);
    assert_eq!(resolve("/a/b", &cwd), segs(&["a", "b"]));
    assert_eq!(resolve("/a/b", &[]), segs(&["a", "b"]));
}

#[test]
fn relative_path_starts_from_current_directory() {
    let cwd = segs(&["x", "y"]);
    assert_eq!(resolve("a/b", &cwd), segs(&["x", "y", "a", "b"]));
    assert_eq!(resolve("", &cwd), segs(&["x", "y"]));
}

#[test]
fn empty_and_dot_segments_are_dropped() {
    assert_eq!(resolve("/a//b/./c/", &[]), segs(&["a", "b", "c"]));
    assert_eq!(resolve("./a/.", &segs(&["r"])), segs(&["r", "a"]));
    assert_eq!(resolve("/", &segs(&["r"])), Vec::<String>::new());
    assert_eq!(resolve("///", &segs(&["r"])), Vec::<String>::new());
}

#[test]
fn dot_dot_pops_the_last_segment() {
    assert_eq!(resolve("/a/b/../c", &[]), segs(&["a", "c"]));
    assert_eq!(resolve("..", &segs(&["x", "y"])), segs(&["x"]));
    assert_eq!(resolve("../../z", &segs(&["x", "y"])), segs(&["z"]));
}

#[test]
fn dot_dot_past_the_root_stays_at_the_root() {
    assert_eq!(resolve("..", &[]), Vec::<String>::new());
    assert_eq!(resolve("/../..", &[]), Vec::<String>::new());
    assert_eq!(resolve("/../a", &[]), segs(&["a"]));
    assert_eq!(resolve("../../../a", &segs(&["x"])), segs(&["a"]));
}

#[test]
fn names_with_dots_are_ordinary_segments() {
    assert_eq!(resolve("/.../..a/b..", &[]), segs(&["...", "..a", "b.."]));
    assert_eq!(resolve("/.hidden", &[]), segs(&[".hidden"]));
}

#[test]
fn resolving_twice_yields_the_same_segments() {
    let p = "/usr/./local/../lib//x";
    let once = resolve(p, &[]);
    let twice = resolve(p, &segs(&["elsewhere"]));
    assert_eq!(once, twice);
    assert_eq!(once, segs(&["usr", "lib", "x"]));
    let written = format_path(&once);
    assert_eq!(written, "/usr/lib/x");
    assert_eq!(resolve(&written, &segs(&["elsewhere"])), once);
}

#[test]
fn non_ascii_segments_resolve_by_characters() {
    assert_eq!(resolve("/é/日本/../ü", &[]), segs(&["é", "ü"]));
    assert_eq!(format_path(&segs(&["é", "ü"])), "/é/ü");
}

#[test]
fn format_path_writes_root_and_segments() {
    assert_eq!(format_path(&[]), "/");
    assert_eq!(format_path(&segs(&["a"])), "/a");
    assert_eq!(format_path(&segs(&["a", "b", "c"])), "/a/b/c");
}

#[test]
fn join_child_puts_a_separator_between() {
    assert_eq!(join_child("", "a"), "/a");
    assert_eq!(join_child("/a", "b"), "/a/b");
}

#[test]
fn names_compare_by_their_bytes() {
    assert_eq!(name_order("a", "b"), NameOrder::Before);
    assert_eq!(name_order("b", "a"), NameOrder::After);
    assert_eq!(name_order("abc", "abc"), NameOrder::Same);
    assert_eq!(name_order("ab", "abc"), NameOrder::Before);
    assert_eq!(name_order("abc", "ab"), NameOrder::After);
    assert_eq!(name_order("", "a"), NameOrder::Before);
    assert_eq!(name_order("", ""), NameOrder::Same);
    assert_eq!(name_order("Z", "a"), NameOrder::Before);
    assert_eq!(name_order("z", "é"), NameOrder::Before);
}
