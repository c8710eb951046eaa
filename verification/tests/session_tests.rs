use virtual_fs::{DeleteOption, FileType, FsError, GrepMatch, VirtualFS};

fn hit(path: &str, number: usize, line: &str) -> GrepMatch {
    GrepMatch { file_path: path.to_string(), line_number: number, line_content: line.to_string() }
}

fn session() -> VirtualFS {
    let mut fs = VirtualFS::new();
    assert_eq!(fs.mkdir("/a"), Ok(()));
    assert_eq!(fs.mkdir("/a/b"), Ok(()));
    assert_eq!(fs.create_file("/a/f.txt", b"foo\nbar\nfoobar".to_vec()), Ok(()));
    assert_eq!(fs.create_file("/a/b/g.txt", b"one\ntwo\nthree\nfour\nfive\n".to_vec()), Ok(()));
    fs
}

#[test]
fn new_session_starts_at_the_root() {
    let fs = VirtualFS::new();
    assert_eq!(fs.get_curr_dir(), "/");
    assert_eq!(fs.ls("/"), Ok(vec![]));
    assert_eq!(fs.ls(""), Ok(vec![]));
}

#[test]
fn change_dir_to_parent_of_root_stays_at_root() {
    let mut fs = VirtualFS::new();
    assert_eq!(fs.change_dir(".."), Ok(()));
    assert_eq!(fs.get_curr_dir(), "/");
    assert_eq!(fs.change_dir("../../.."), Ok(()));
    assert_eq!(fs.get_curr_dir(), "/");
}

#[test]
fn change_dir_follows_absolute_and_relative_paths() {
    let mut fs = session();
    assert_eq!(fs.change_dir("/a"), Ok(()));
    assert_eq!(fs.get_curr_dir(), "/a");
    assert_eq!(fs.change_dir("b"), Ok(()));
    assert_eq!(fs.get_curr_dir(), "/a/b");
    assert_eq!(fs.change_dir(".."), Ok(()));
    assert_eq!(fs.get_curr_dir(), "/a");
    assert_eq!(fs.change_dir("./b/../b/"), Ok(()));
    assert_eq!(fs.get_curr_dir(), "/a/b");
    assert_eq!(fs.change_dir("/"), Ok(()));
    assert_eq!(fs.get_curr_dir(), "/");
}

#[test]
fn change_dir_to_nothing_leaves_the_session_alone() {
    let mut fs = session();
    assert_eq!(fs.change_dir("/a"), Ok(()));
    assert_eq!(fs.change_dir("nope"), Err(FsError::NotFound { matched: 1 }));
    assert_eq!(fs.get_curr_dir(), "/a");
    assert_eq!(fs.change_dir("/x/y"), Err(FsError::NotFound { matched: 0 }));
    assert_eq!(fs.get_curr_dir(), "/a");
    assert_eq!(fs.change_dir("f.txt"), Err(FsError::NotFound { matched: 1 }));
    assert_eq!(fs.get_curr_dir(), "/a");
}

#[test]
fn all_files_names_the_current_directory() {
    let mut fs = session();
    assert_eq!(fs.all_files(), "Current virtual directory: /");
    assert_eq!(fs.change_dir("a/b"), Ok(()));
    assert_eq!(fs.all_files(), "Current virtual directory: /a/b");
}

#[test]
fn ls_reports_directories_and_files() {
    let mut fs = VirtualFS::new();
    assert_eq!(fs.mkdir("/a"), Ok(()));
    assert_eq!(fs.mkdir("/a/b"), Ok(()));
    assert_eq!(fs.ls("/a"), Ok(vec![("b".to_string(), FileType::Dir)]));
    assert_eq!(fs.create_file("/a/f.txt", vec![]), Ok(()));
    assert_eq!(
        fs.ls("/a"),
        Ok(vec![("b".to_string(), FileType::Dir), ("f.txt".to_string(), FileType::File)])
    );
}

#[test]
fn operations_resolve_against_the_current_directory() {
    let mut fs = session();
    assert_eq!(fs.change_dir("/a"), Ok(()));
    assert_eq!(fs.mkdir("c"), Ok(()));
    assert_eq!(fs.create_file("c/n.txt", b"n".to_vec()), Ok(()));
    assert_eq!(fs.cat("/a/c/n.txt"), Ok(b"n".to_vec()));
    assert_eq!(fs.cat("./c/../f.txt"), Ok(b"foo\nbar\nfoobar".to_vec()));
    assert_eq!(
        fs.ls("."),
        Ok(vec![
            ("b".to_string(), FileType::Dir),
            ("c".to_string(), FileType::Dir),
            ("f.txt".to_string(), FileType::File),
        ])
    );
    assert_eq!(fs.ls(".."), Ok(vec![("a".to_string(), FileType::Dir)]));
}

#[test]
fn mkdir_errors_pass_through() {
    let mut fs = session();
    assert_eq!(fs.mkdir("/a"), Err(FsError::AlreadyExists));
    assert_eq!(fs.mkdir("/"), Err(FsError::AlreadyExists));
    assert_eq!(fs.mkdir("/x/y"), Err(FsError::NotFound { matched: 0 }));
    assert_eq!(fs.create_file("/a/f.txt", vec![]), Err(FsError::AlreadyExists));
}

#[test]
fn rm_then_lookup_fails() {
    let mut fs = session();
    assert_eq!(fs.mkdir("/d"), Ok(()));
    assert_eq!(fs.rm("/d", None), Ok(()));
    assert_eq!(fs.change_dir("/d"), Err(FsError::NotFound { matched: 0 }));
    assert_eq!(fs.ls("/d"), Err(FsError::NotFound { matched: 0 }));
}

#[test]
fn rm_non_recursive_on_full_directory_changes_nothing() {
    let mut fs = session();
    assert_eq!(fs.rm("/a", None), Err(FsError::NotEmpty));
    assert_eq!(
        fs.ls("/a"),
        Ok(vec![("b".to_string(), FileType::Dir), ("f.txt".to_string(), FileType::File)])
    );
    assert_eq!(fs.cat("/a/b/g.txt"), Ok(b"one\ntwo\nthree\nfour\nfive\n".to_vec()));
}

#[test]
fn rm_recursive_leaves_nothing_to_query() {
    let mut fs = session();
    assert_eq!(fs.rm("/a", Some(DeleteOption::R)), Ok(()));
    assert_eq!(fs.ls("/"), Ok(vec![]));
    assert_eq!(fs.cat("/a/f.txt"), Err(FsError::NotFound { matched: 0 }));
    assert_eq!(fs.cat("/a/b/g.txt"), Err(FsError::NotFound { matched: 0 }));
    assert_eq!(fs.change_dir("/a/b"), Err(FsError::NotFound { matched: 0 }));
    assert_eq!(fs.grep("/", "o", true), Ok(vec![]));
}

#[test]
fn rm_refuses_the_root_and_the_current_directory_chain() {
    let mut fs = session();
    assert_eq!(fs.rm("/", Some(DeleteOption::R)), Err(FsError::InvalidArgument));
    assert_eq!(fs.change_dir("/a/b"), Ok(()));
    assert_eq!(fs.rm("/a", Some(DeleteOption::R)), Err(FsError::InvalidArgument));
    assert_eq!(fs.rm(".", Some(DeleteOption::R)), Err(FsError::InvalidArgument));
    assert_eq!(fs.rm("..", Some(DeleteOption::R)), Err(FsError::InvalidArgument));
    assert_eq!(fs.get_curr_dir(), "/a/b");
    assert_eq!(fs.cat("g.txt"), Ok(b"one\ntwo\nthree\nfour\nfive\n".to_vec()));
    assert_eq!(fs.rm("g.txt", None), Ok(()));
    assert_eq!(fs.rm("/a/f.txt", None), Ok(()));
    assert_eq!(fs.ls("/a"), Ok(vec![("b".to_string(), FileType::Dir)]));
}

#[test]
fn cat_multiple_with_a_missing_file_returns_nothing() {
    let fs = session();
    let paths = vec!["/a/f.txt".to_string(), "/a/missing".to_string()];
    assert_eq!(fs.cat_multiple(&paths), Err(FsError::NotFound { matched: 1 }));
    assert_eq!(fs.cat("/a/f.txt"), Ok(b"foo\nbar\nfoobar".to_vec()));
}

#[test]
fn cat_multiple_joins_without_separators() {
    let mut fs = session();
    assert_eq!(fs.change_dir("/a"), Ok(()));
    let paths = vec!["f.txt".to_string(), "b/g.txt".to_string()];
    assert_eq!(
        fs.cat_multiple(&paths),
        Ok(b"foo\nbar\nfoobarone\ntwo\nthree\nfour\nfive\n".to_vec())
    );
}

#[test]
fn grep_on_foo_bar_foobar() {
    let fs = session();
    assert_eq!(
        fs.grep("/a/f.txt", "foo", false),
        Ok(vec![hit("/a/f.txt", 1, "foo"), hit("/a/f.txt", 3, "foobar")])
    );
}

#[test]
fn grep_reports_canonical_absolute_paths() {
    let mut fs = session();
    assert_eq!(fs.change_dir("/a/b"), Ok(()));
    assert_eq!(fs.grep("../b/./g.txt", "t", false), Ok(vec![
        hit("/a/b/g.txt", 2, "two"),
        hit("/a/b/g.txt", 3, "three"),
    ]));
    assert_eq!(fs.grep("..", "f", true), Ok(vec![
        hit("/a/b/g.txt", 4, "four"),
        hit("/a/b/g.txt", 5, "five"),
        hit("/a/f.txt", 1, "foo"),
        hit("/a/f.txt", 3, "foobar"),
    ]));
    assert_eq!(fs.grep("..", "f", false), Err(FsError::InvalidArgument));
}

#[test]
fn head_and_tail_with_two_lines() {
    let fs = session();
    assert_eq!(fs.head("/a/b/g.txt", Some(2)), Ok("one\ntwo\n".to_string()));
    assert_eq!(fs.tail("/a/b/g.txt", Some(2)), Ok("four\nfive\n".to_string()));
    assert_eq!(fs.head("/a/f.txt", Some(2)), Ok("foo\nbar\n".to_string()));
    assert_eq!(fs.tail("/a/f.txt", Some(2)), Ok("bar\nfoobar".to_string()));
    assert_eq!(fs.head("/a/f.txt", None), Ok("foo\nbar\nfoobar".to_string()));
    assert_eq!(fs.head("/a", None), Err(FsError::IsADirectory));
    assert_eq!(fs.tail("/nope", None), Err(FsError::NotFound { matched: 0 }));
}

#[test]
fn sessions_are_independent() {
    let mut one = VirtualFS::new();
    let two = VirtualFS::new();
    assert_eq!(one.mkdir("/only"), Ok(()));
    assert_eq!(one.change_dir("/only"), Ok(()));
    assert_eq!(two.get_curr_dir(), "/");
    assert_eq!(two.ls("/"), Ok(vec![]));
}
