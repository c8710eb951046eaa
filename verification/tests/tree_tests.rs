use virtual_fs::{DeleteOption, Directory, FileType, FsError, GrepMatch};

fn segs(names: &[&str]) -> Vec<String> {
    names.iter().map(|s| s.to_string()).collect()
}

fn hit(path: &str, number: usize, line: &str) -> GrepMatch {
    GrepMatch { file_path: path.to_string(), line_number: number, line_content: line.to_string() }
}

/// /a/b/deep.txt, /a/f.txt, /a/z.txt, /top.txt
fn sample() -> Directory {
    let mut root = Directory::new(String::new());
    assert_eq!(root.mkdir(&segs(&["a"])), Ok(()));
    assert_eq!(root.mkdir(&segs(&["a", "b"])), Ok(()));
    assert_eq!(root.create_file(&segs(&["a", "z.txt"]), b"zeta\nfoo z\n".to_vec()), Ok(()));
    assert_eq!(root.create_file(&segs(&["a", "f.txt"]), b"foo\nbar\nfoobar".to_vec()), Ok(()));
    assert_eq!(root.create_file(&segs(&["a", "b", "deep.txt"]), b"deep foo\n".to_vec()), Ok(()));
    assert_eq!(root.create_file(&segs(&["top.txt"]), b"top\n".to_vec()), Ok(()));
    root
}

#[test]
fn new_directory_is_empty() {
    let root = Directory::new("r".to_string());
    assert_eq!(root.name, "r");
    assert!(root.entries.is_empty());
    assert_eq!(root.ls(&[]), Ok(vec![]));
}

#[test]
fn lookup_finds_directories() {
    let root = sample();
    assert_eq!(root.lookup(&[]).unwrap().name, "");
    assert_eq!(root.lookup(&segs(&["a"])).unwrap().name, "a");
    assert_eq!(root.lookup(&segs(&["a", "b"])).unwrap().name, "b");
}

#[test]
fn lookup_reports_how_much_matched() {
    let root = sample();
    assert_eq!(root.lookup(&segs(&["x"])).err(), Some(FsError::NotFound { matched: 0 }));
    assert_eq!(root.lookup(&segs(&["a", "x", "y"])).err(), Some(FsError::NotFound { matched: 1 }));
    assert_eq!(
        root.lookup(&segs(&["a", "b", "c"])).err(),
        Some(FsError::NotFound { matched: 2 })
    );
}

#[test]
fn lookup_of_a_file_is_not_found() {
    let root = sample();
    assert_eq!(root.lookup(&segs(&["top.txt"])).err(), Some(FsError::NotFound { matched: 0 }));
    assert_eq!(
        root.lookup(&segs(&["a", "f.txt", "x"])).err(),
        Some(FsError::NotFound { matched: 1 })
    );
}

#[test]
fn mkdir_needs_the_parent() {
    let mut root = Directory::new(String::new());
    assert_eq!(root.mkdir(&segs(&["a", "b"])), Err(FsError::NotFound { matched: 0 }));
    assert_eq!(root.mkdir(&segs(&["a"])), Ok(()));
    assert_eq!(root.mkdir(&segs(&["a", "b", "c"])), Err(FsError::NotFound { matched: 1 }));
    assert_eq!(root.mkdir(&segs(&["a", "b"])), Ok(()));
    assert_eq!(root.ls(&segs(&["a"])), Ok(vec![("b".to_string(), FileType::Dir)]));
}

#[test]
fn mkdir_refuses_a_taken_name() {
    let mut root = sample();
    assert_eq!(root.mkdir(&segs(&["a"])), Err(FsError::AlreadyExists));
    assert_eq!(root.mkdir(&segs(&["top.txt"])), Err(FsError::AlreadyExists));
    assert_eq!(root.mkdir(&[]), Err(FsError::AlreadyExists));
    assert_eq!(root.create_file(&segs(&["a"]), vec![]), Err(FsError::AlreadyExists));
    assert_eq!(root.create_file(&segs(&["top.txt"]), vec![]), Err(FsError::AlreadyExists));
    assert_eq!(root.cat(&segs(&["top.txt"])), Ok(b"top\n".to_vec()));
}

#[test]
fn mkdir_under_a_file_is_not_found() {
    let mut root = sample();
    assert_eq!(root.mkdir(&segs(&["top.txt", "x"])), Err(FsError::NotFound { matched: 0 }));
    assert_eq!(
        root.create_file(&segs(&["a", "f.txt", "x"]), vec![]),
        Err(FsError::NotFound { matched: 1 })
    );
}

#[test]
fn ls_lists_entries_by_name_with_their_kind() {
    let root = sample();
    assert_eq!(
        root.ls(&segs(&["a"])),
        Ok(vec![
            ("b".to_string(), FileType::Dir),
            ("f.txt".to_string(), FileType::File),
            ("z.txt".to_string(), FileType::File),
        ])
    );
    assert_eq!(
        root.ls(&[]),
        Ok(vec![("a".to_string(), FileType::Dir), ("top.txt".to_string(), FileType::File)])
    );
}

#[test]
fn ls_order_does_not_depend_on_creation_order() {
    let mut one = Directory::new(String::new());
    let mut two = Directory::new(String::new());
    for n in ["m", "a", "z", "B", "k"] {
        assert_eq!(one.mkdir(&segs(&[n])), Ok(()));
    }
    for n in ["k", "B", "z", "a", "m"] {
        assert_eq!(two.mkdir(&segs(&[n])), Ok(()));
    }
    let names: Vec<String> = one.ls(&[]).unwrap().into_iter().map(|e| e.0).collect();
    assert_eq!(names, segs(&["B", "a", "k", "m", "z"]));
    assert_eq!(one.ls(&[]), two.ls(&[]));
}

#[test]
fn ls_of_a_file_or_of_nothing_is_not_found() {
    let root = sample();
    assert_eq!(root.ls(&segs(&["top.txt"])), Err(FsError::NotFound { matched: 0 }));
    assert_eq!(root.ls(&segs(&["a", "f.txt"])), Err(FsError::NotFound { matched: 1 }));
    assert_eq!(root.ls(&segs(&["nope"])), Err(FsError::NotFound { matched: 0 }));
}

#[test]
fn made_then_removed_directory_is_not_found() {
    let mut root = sample();
    let d = segs(&["a", "fresh"]);
    assert_eq!(root.mkdir(&d), Ok(()));
    assert!(root.lookup(&d).is_ok());
    assert_eq!(root.rm(&d, None), Ok(()));
    assert_eq!(root.lookup(&d).err(), Some(FsError::NotFound { matched: 1 }));
}

#[test]
fn rm_without_flag_refuses_a_directory_with_entries() {
    let mut root = sample();
    assert_eq!(root.rm(&segs(&["a"]), None), Err(FsError::NotEmpty));
    assert_eq!(root.rm(&segs(&["a", "b"]), None), Err(FsError::NotEmpty));
    assert_eq!(
        root.ls(&segs(&["a"])),
        Ok(vec![
            ("b".to_string(), FileType::Dir),
            ("f.txt".to_string(), FileType::File),
            ("z.txt".to_string(), FileType::File),
        ])
    );
    assert_eq!(root.cat(&segs(&["a", "b", "deep.txt"])), Ok(b"deep foo\n".to_vec()));
    assert_eq!(root.cat(&segs(&["a", "f.txt"])), Ok(b"foo\nbar\nfoobar".to_vec()));
}

#[test]
fn rm_with_flag_removes_the_whole_subtree() {
    let mut root = sample();
    assert_eq!(root.rm(&segs(&["a"]), Some(DeleteOption::R)), Ok(()));
    assert_eq!(root.lookup(&segs(&["a"])).err(), Some(FsError::NotFound { matched: 0 }));
    assert_eq!(root.lookup(&segs(&["a", "b"])).err(), Some(FsError::NotFound { matched: 0 }));
    assert_eq!(root.cat(&segs(&["a", "f.txt"])), Err(FsError::NotFound { matched: 0 }));
    assert_eq!(root.cat(&segs(&["a", "b", "deep.txt"])), Err(FsError::NotFound { matched: 0 }));
    assert_eq!(root.ls(&[]), Ok(vec![("top.txt".to_string(), FileType::File)]));
    assert_eq!(root.cat(&segs(&["top.txt"])), Ok(b"top\n".to_vec()));
}

#[test]
fn rm_removes_files_with_or_without_flag() {
    let mut root = sample();
    assert_eq!(root.rm(&segs(&["a", "f.txt"]), None), Ok(()));
    assert_eq!(root.rm(&segs(&["a", "z.txt"]), Some(DeleteOption::R)), Ok(()));
    assert_eq!(root.ls(&segs(&["a"])), Ok(vec![("b".to_string(), FileType::Dir)]));
}

#[test]
fn rm_of_the_root_is_invalid() {
    let mut root = sample();
    assert_eq!(root.rm(&[], None), Err(FsError::InvalidArgument));
    assert_eq!(root.rm(&[], Some(DeleteOption::R)), Err(FsError::InvalidArgument));
    assert_eq!(root.ls(&[]).unwrap().len(), 2);
}

#[test]
fn rm_of_nothing_is_not_found() {
    let mut root = sample();
    assert_eq!(root.rm(&segs(&["nope"]), None), Err(FsError::NotFound { matched: 0 }));
    assert_eq!(root.rm(&segs(&["a", "nope"]), None), Err(FsError::NotFound { matched: 1 }));
    assert_eq!(
        root.rm(&segs(&["x", "y"]), Some(DeleteOption::R)),
        Err(FsError::NotFound { matched: 0 })
    );
}

#[test]
fn cat_returns_the_stored_bytes() {
    let mut root = sample();
    let raw = vec![0u8, 159, 146, 150, 10, 255];
    assert_eq!(root.create_file(&segs(&["raw"]), raw.clone()), Ok(()));
    assert_eq!(root.cat(&segs(&["raw"])), Ok(raw));
    assert_eq!(root.cat(&segs(&["a", "f.txt"])), Ok(b"foo\nbar\nfoobar".to_vec()));
}

#[test]
fn cat_of_a_directory_is_refused() {
    let root = sample();
    assert_eq!(root.cat(&segs(&["a"])), Err(FsError::IsADirectory));
    assert_eq!(root.cat(&[]), Err(FsError::IsADirectory));
    assert_eq!(root.cat(&segs(&["a", "nope"])), Err(FsError::NotFound { matched: 1 }));
}

#[test]
fn cat_multiple_concatenates_in_argument_order() {
    let root = sample();
    let paths = vec![segs(&["top.txt"]), segs(&["a", "f.txt"]), segs(&["top.txt"])];
    assert_eq!(root.cat_multiple(&paths), Ok(b"top\nfoo\nbar\nfoobartop\n".to_vec()));
    assert_eq!(root.cat_multiple(&[]), Ok(vec![]));
}

#[test]
fn cat_multiple_fails_entirely_when_one_is_missing() {
    let root = sample();
    let paths = vec![segs(&["a", "f.txt"]), segs(&["a", "missing"])];
    assert_eq!(root.cat_multiple(&paths), Err(FsError::NotFound { matched: 1 }));
    assert_eq!(root.cat(&segs(&["a", "f.txt"])), Ok(b"foo\nbar\nfoobar".to_vec()));
}

#[test]
fn cat_multiple_reports_the_first_failure() {
    let root = sample();
    let paths = vec![segs(&["top.txt"]), segs(&["a"]), segs(&["missing"])];
    assert_eq!(root.cat_multiple(&paths), Err(FsError::IsADirectory));
    let paths = vec![segs(&["missing"]), segs(&["a"])];
    assert_eq!(root.cat_multiple(&paths), Err(FsError::NotFound { matched: 0 }));
}

#[test]
fn head_and_tail_of_a_five_line_file() {
    let mut root = Directory::new(String::new());
    let p = segs(&["five"]);
    assert_eq!(root.create_file(&p, b"l1\nl2\nl3\nl4\nl5\n".to_vec()), Ok(()));
    assert_eq!(root.head(&p, Some(2)), Ok("l1\nl2\n".to_string()));
    assert_eq!(root.tail(&p, Some(2)), Ok("l4\nl5\n".to_string()));
    assert_eq!(root.head(&p, Some(9)), Ok("l1\nl2\nl3\nl4\nl5\n".to_string()));
    assert_eq!(root.tail(&p, Some(9)), Ok("l1\nl2\nl3\nl4\nl5\n".to_string()));
}

#[test]
fn head_and_tail_default_to_ten_lines() {
    let mut root = Directory::new(String::new());
    let p = segs(&["twelve"]);
    let text: String = (1..=12).map(|i| format!("line{}\n", i)).collect();
    assert_eq!(root.create_file(&p, text.clone().into_bytes()), Ok(()));
    let first: String = (1..=10).map(|i| format!("line{}\n", i)).collect();
    let last: String = (3..=12).map(|i| format!("line{}\n", i)).collect();
    assert_eq!(root.head(&p, None), Ok(first));
    assert_eq!(root.tail(&p, None), Ok(last));
}

#[test]
fn head_and_tail_fail_as_cat_does() {
    let root = sample();
    assert_eq!(root.head(&segs(&["a"]), Some(1)), Err(FsError::IsADirectory));
    assert_eq!(root.tail(&segs(&["a"]), Some(1)), Err(FsError::IsADirectory));
    assert_eq!(root.head(&segs(&["nope"]), None), Err(FsError::NotFound { matched: 0 }));
    assert_eq!(root.tail(&segs(&["a", "nope"]), None), Err(FsError::NotFound { matched: 1 }));
}

#[test]
fn head_and_tail_refuse_content_that_is_not_text() {
    let mut root = Directory::new(String::new());
    let p = segs(&["bin"]);
    assert_eq!(root.create_file(&p, vec![0x61, 0x0a, 0xff, 0x0a]), Ok(()));
    assert_eq!(root.head(&p, Some(1)), Err(FsError::InvalidArgument));
    assert_eq!(root.tail(&p, Some(1)), Err(FsError::InvalidArgument));
}

#[test]
fn grep_in_a_file_finds_lines_one_and_three() {
    let root = sample();
    assert_eq!(
        root.grep(&segs(&["a", "f.txt"]), "foo", false),
        Ok(vec![hit("/a/f.txt", 1, "foo"), hit("/a/f.txt", 3, "foobar")])
    );
    assert_eq!(
        root.grep(&segs(&["a", "f.txt"]), "foo", true),
        Ok(vec![hit("/a/f.txt", 1, "foo"), hit("/a/f.txt", 3, "foobar")])
    );
    assert_eq!(root.grep(&segs(&["a", "f.txt"]), "nothing", false), Ok(vec![]));
}

#[test]
fn grep_in_a_directory_needs_the_recursive_flag() {
    let root = sample();
    assert_eq!(root.grep(&segs(&["a"]), "foo", false), Err(FsError::InvalidArgument));
    assert_eq!(root.grep(&[], "foo", false), Err(FsError::InvalidArgument));
}

#[test]
fn grep_recursive_goes_by_path_then_by_line() {
    let root = sample();
    assert_eq!(
        root.grep(&segs(&["a"]), "foo", true),
        Ok(vec![
            hit("/a/b/deep.txt", 1, "deep foo"),
            hit("/a/f.txt", 1, "foo"),
            hit("/a/f.txt", 3, "foobar"),
            hit("/a/z.txt", 2, "foo z"),
        ])
    );
    assert_eq!(
        root.grep(&[], "o", true),
        Ok(vec![
            hit("/a/b/deep.txt", 1, "deep foo"),
            hit("/a/f.txt", 1, "foo"),
            hit("/a/f.txt", 3, "foobar"),
            hit("/a/z.txt", 2, "foo z"),
            hit("/top.txt", 1, "top"),
        ])
    );
}

#[test]
fn grep_of_nothing_is_not_found() {
    let root = sample();
    assert_eq!(root.grep(&segs(&["nope"]), "x", true), Err(FsError::NotFound { matched: 0 }));
    assert_eq!(root.grep(&segs(&["a", "nope"]), "x", false), Err(FsError::NotFound { matched: 1 }));
}

#[test]
fn grep_treats_binary_content_as_no_match() {
    let mut root = sample();
    assert_eq!(root.create_file(&segs(&["a", "bin"]), vec![0x66, 0x6f, 0x6f, 0xff]), Ok(()));
    assert_eq!(root.grep(&segs(&["a", "bin"]), "foo", false), Ok(vec![]));
    assert_eq!(
        root.grep(&segs(&["a"]), "foo", true).map(|v| v.len()),
        Ok(4)
    );
}

#[test]
fn position_finds_a_name_or_its_place() {
    let mut root = Directory::new(String::new());
    for n in ["b", "d", "f"] {
        assert_eq!(root.mkdir(&segs(&[n])), Ok(()));
    }
    assert_eq!(root.position("b"), Ok(0));
    assert_eq!(root.position("d"), Ok(1));
    assert_eq!(root.position("f"), Ok(2));
    assert_eq!(root.position("a"), Err(0));
    assert_eq!(root.position("c"), Err(1));
    assert_eq!(root.position("e"), Err(2));
    assert_eq!(root.position("g"), Err(3));
    assert_eq!(Directory::new(String::new()).position("x"), Err(0));
}

#[test]
fn entries_know_their_name_and_kind() {
    let root = sample();
    let a = root.lookup(&segs(&["a"])).unwrap();
    let names: Vec<&str> = a.entries.iter().map(|e| e.name_str()).collect();
    assert_eq!(names, vec!["b", "f.txt", "z.txt"]);
    let kinds: Vec<FileType> = a.entries.iter().map(|e| e.file_type()).collect();
    assert_eq!(kinds, vec![FileType::Dir, FileType::File, FileType::File]);
}

#[test]
fn walk_to_stops_after_the_given_segments() {
    let root = sample();
    let path = segs(&["a", "b", "deep.txt"]);
    assert_eq!(root.walk_to(&path, 0).unwrap().name, "");
    assert_eq!(root.walk_to(&path, 1).unwrap().name, "a");
    assert_eq!(root.walk_to(&path, 2).unwrap().name, "b");
    assert_eq!(root.walk_to(&path, 3).err(), Some(FsError::NotFound { matched: 2 }));
}

#[test]
fn find_file_gives_the_file_itself() {
    let root = sample();
    let f = root.find_file(&segs(&["a", "b", "deep.txt"])).unwrap();
    assert_eq!(f.name, "deep.txt");
    assert_eq!(f.content, b"deep foo\n".to_vec());
    assert_eq!(root.find_file(&segs(&["a", "b"])).err(), Some(FsError::IsADirectory));
    assert_eq!(root.find_file(&[]).err(), Some(FsError::IsADirectory));
    assert_eq!(
        root.find_file(&segs(&["a", "b", "x"])).err(),
        Some(FsError::NotFound { matched: 2 })
    );
}

#[test]
fn empty_directory_is_removed_without_flag() {
    let mut root = sample();
    assert_eq!(root.rm(&segs(&["a", "b", "deep.txt"]), None), Ok(()));
    assert_eq!(root.rm(&segs(&["a", "b"]), None), Ok(()));
    assert_eq!(
        root.ls(&segs(&["a"])),
        Ok(vec![("f.txt".to_string(), FileType::File), ("z.txt".to_string(), FileType::File)])
    );
}

#[test]
fn a_name_is_free_again_after_removal() {
    let mut root = sample();
    assert_eq!(root.rm(&segs(&["a"]), Some(DeleteOption::R)), Ok(()));
    assert_eq!(root.create_file(&segs(&["a"]), b"now a file".to_vec()), Ok(()));
    assert_eq!(root.cat(&segs(&["a"])), Ok(b"now a file".to_vec()));
    assert_eq!(root.ls(&segs(&["a"])), Err(FsError::NotFound { matched: 0 }));
}

#[test]
fn grep_recursive_orders_files_by_segments() {
    let mut root = Directory::new(String::new());
    assert_eq!(root.mkdir(&segs(&["a"])), Ok(()));
    assert_eq!(root.mkdir(&segs(&["a-x"])), Ok(()));
    assert_eq!(root.create_file(&segs(&["a", "z"]), b"hit\n".to_vec()), Ok(()));
    assert_eq!(root.create_file(&segs(&["a-x", "b"]), b"hit\n".to_vec()), Ok(()));
    assert_eq!(root.create_file(&segs(&["a.txt"]), b"hit\nhit\n".to_vec()), Ok(()));
    assert_eq!(
        root.grep(&[], "hit", true),
        Ok(vec![
            hit("/a/z", 1, "hit"),
            hit("/a-x/b", 1, "hit"),
            hit("/a.txt", 1, "hit"),
            hit("/a.txt", 2, "hit"),
        ])
    );
}
