use virtual_fs::search::{contains_pattern, matches_at, search_file, search_text, GrepMatch};
use virtual_fs::text::{count_pieces, decode, find_sep, head_end, head_of, tail_of, to_chars};

fn chars(s: &str) -> Vec<char> {
    s.chars().collect()
}

fn hit(path: &str, number: usize, line: &str) -> GrepMatch {
    GrepMatch { file_path: path.to_string(), line_number: number, line_content: line.to_string() }
}

#[test]
fn to_chars_gives_every_character() {
    assert_eq!(to_chars("aé日"), vec!['a', 'é', '日']);
    assert_eq!(to_chars(""), Vec::<char>::new());
}

#[test]
fn decode_accepts_utf8_and_refuses_the_rest() {
    assert_eq!(decode("héllo".as_bytes()), Some("héllo"));
    assert_eq!(decode(&[]), Some(""));
    assert_eq!(decode(&[0x66, 0xff, 0x6f]), None);
    assert_eq!(decode(&[0xc3]), None);
}

#[test]
fn find_sep_stops_at_the_separator_or_the_end() {
    let c = chars("ab/cd");
    assert_eq!(find_sep(&c, 0, '/'), 2);
    assert_eq!(find_sep(&c, 2, '/'), 2);
    assert_eq!(find_sep(&c, 3, '/'), 5);
    assert_eq!(find_sep(&c, 5, '/'), 5);
}

#[test]
fn count_pieces_counts_lines() {
    assert_eq!(count_pieces(&chars(""), '\n'), 0);
    assert_eq!(count_pieces(&chars("a"), '\n'), 1);
    assert_eq!(count_pieces(&chars("a\n"), '\n'), 1);
    assert_eq!(count_pieces(&chars("a\nb"), '\n'), 2);
    assert_eq!(count_pieces(&chars("a\n\nb\n"), '\n'), 3);
    assert_eq!(count_pieces(&chars("\n"), '\n'), 1);
}

#[test]
fn head_end_is_where_the_lines_end() {
    assert_eq!(head_end(&chars("a\nbc\nd"), 0), 0);
    assert_eq!(head_end(&chars("a\nbc\nd"), 1), 2);
    assert_eq!(head_end(&chars("a\nbc\nd"), 2), 5);
    assert_eq!(head_end(&chars("a\nbc\nd"), 3), 6);
    assert_eq!(head_end(&chars("a\nbc\nd"), 9), 6);
}

#[test]
fn head_of_keeps_the_first_lines() {
    let text = "l1\nl2\nl3\nl4\nl5\n";
    assert_eq!(head_of(text, 2), "l1\nl2\n");
    assert_eq!(head_of(text, 0), "");
    assert_eq!(head_of(text, 5), text);
    assert_eq!(head_of(text, 7), text);
    assert_eq!(head_of("no newline", 1), "no newline");
    assert_eq!(head_of("é\nü\n", 1), "é\n");
}

#[test]
fn tail_of_keeps_the_last_lines() {
    let text = "l1\nl2\nl3\nl4\nl5\n";
    assert_eq!(tail_of(text, 2), "l4\nl5\n");
    assert_eq!(tail_of(text, 0), "");
    assert_eq!(tail_of(text, 5), text);
    assert_eq!(tail_of(text, 7), text);
    assert_eq!(tail_of("l1\nl2\nl3", 2), "l2\nl3");
    assert_eq!(tail_of("l1\nl2\nl3", 1), "l3");
    assert_eq!(tail_of("é\nü\n", 1), "ü\n");
}

#[test]
fn matches_at_compares_in_place() {
    let c = chars("hello");
    assert!(matches_at(&c, 1, &chars("ell")));
    assert!(!matches_at(&c, 0, &chars("ell")));
    assert!(matches_at(&c, 5, &chars("")));
}

#[test]
fn contains_pattern_looks_within_the_range() {
    let c = chars("foo bar");
    assert!(contains_pattern(&c, 0, 7, &chars("bar")));
    assert!(contains_pattern(&c, 0, 7, &chars("o b")));
    assert!(!contains_pattern(&c, 0, 6, &chars("bar")));
    assert!(!contains_pattern(&c, 1, 7, &chars("foo")));
    assert!(contains_pattern(&c, 3, 3, &chars("")));
    assert!(!contains_pattern(&c, 0, 2, &chars("foo")));
}

#[test]
fn search_text_numbers_lines_from_one() {
    let mut out = Vec::new();
    search_text("/f", "foo\nbar\nfoobar", &chars("foo"), &mut out);
    assert_eq!(out, vec![hit("/f", 1, "foo"), hit("/f", 3, "foobar")]);
}

#[test]
fn search_text_appends_to_what_is_there() {
    let mut out = vec![hit("/e", 9, "earlier")];
    search_text("/f", "x\ny\n", &chars("y"), &mut out);
    assert_eq!(out, vec![hit("/e", 9, "earlier"), hit("/f", 2, "y")]);
}

#[test]
fn empty_pattern_matches_every_line() {
    let mut out = Vec::new();
    search_text("/f", "a\n\nb\n", &chars(""), &mut out);
    assert_eq!(out, vec![hit("/f", 1, "a"), hit("/f", 2, ""), hit("/f", 3, "b")]);
}

#[test]
fn pattern_is_literal_and_case_sensitive() {
    let mut out = Vec::new();
    search_text("/f", "a.c\nabc\nA.C\n", &chars("a.c"), &mut out);
    assert_eq!(out, vec![hit("/f", 1, "a.c")]);
}

#[test]
fn search_file_skips_content_that_is_not_text() {
    let mut out = Vec::new();
    search_file("/bin", &[0x66, 0x6f, 0x6f, 0xff, 0x0a], &chars("foo"), &mut out);
    assert_eq!(out, Vec::<GrepMatch>::new());
    search_file("/txt", b"foo\n", &chars("foo"), &mut out);
    assert_eq!(out, vec![hit("/txt", 1, "foo")]);
}

#[test]
fn append_bytes_keeps_what_is_there() {
    let mut out = vec![1u8, 2];
    virtual_fs::read::append_bytes(&mut out, &[3, 4, 5]);
    assert_eq!(out, vec![1, 2, 3, 4, 5]);
    virtual_fs::read::append_bytes(&mut out, &[]);
    assert_eq!(out, vec![1, 2, 3, 4, 5]);
}

#[test]
fn head_and_tail_split_a_text_between_them() {
    let text = "a\nb\nc\nd";
    for n in 0..=4 {
        let joined = format!("{}{}", head_of(text, 4 - n), tail_of(text, n));
        assert_eq!(joined, text);
    }
}
