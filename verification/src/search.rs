//! Literal search: which lines of a text hold a pattern.

use vstd::prelude::*;
use vstd::string::*;
use vstd::utf8::*;
use crate::path::path_string;
use crate::text::{decode, find_sep, lines_of, split_on, to_chars};

verus! {

/// One line that a search found.
#[derive(Debug, PartialEq, Eq)]
pub struct GrepMatch {
    /// Canonical absolute path of the file that holds the line.
    pub file_path: String,
    /// Number of the line within that file, counted from one.
    pub line_number: usize,
    /// The whole line, without the newline that ends it.
    pub line_content: String,
}

/// What a `GrepMatch` says, as plain values.
pub struct MatchView {
    pub file_path: Seq<char>,
    pub line_number: nat,
    pub line_content: Seq<char>,
}

impl View for GrepMatch {
    type V = MatchView;

    open spec fn view(&self) -> MatchView {
        MatchView {
            file_path: self.file_path@,
            line_number: self.line_number as nat,
            line_content: self.line_content@,
        }
    }
}

/// The views of a run of matches, in order.
pub open spec fn match_views(ms: Seq<GrepMatch>) -> Seq<MatchView> {
    ms.map_values(|m: GrepMatch| m@)
}

/// `pat` stands in `hay` at index `i`.
pub open spec fn occurs_at(hay: Seq<char>, pat: Seq<char>, i: int) -> bool {
    0 <= i && i + pat.len() <= hay.len() && hay.subrange(i, i + pat.len()) == pat
}

/// `pat` is a contiguous part of `hay`.  The empty pattern is part of
/// every text.
pub open spec fn occurs_in(hay: Seq<char>, pat: Seq<char>) -> bool {
    exists|i: int| occurs_at(hay, pat, i)
}

/// Of `lines`, those that hold `pat`, each with its number counted from one,
/// in the order of the lines.
pub open spec fn matching_lines(lines: Seq<Seq<char>>, pat: Seq<char>) -> Seq<(nat, Seq<char>)>
    decreases lines.len(),
{
    if lines.len() == 0 {
        Seq::empty()
    } else {
        let before = matching_lines(lines.drop_last(), pat);
        if occurs_in(lines.last(), pat) {
            before.push((lines.len(), lines.last()))
        } else {
            before
        }
    }
}

/// The matches that `hits` amount to when they are found in the file at
/// `file_path`.
pub open spec fn shown_hits(file_path: Seq<char>, hits: Seq<(nat, Seq<char>)>) -> Seq<MatchView> {
    hits.map_values(
        |h: (nat, Seq<char>)| MatchView { file_path, line_number: h.0, line_content: h.1 },
    )
}

/// The matches for `pat` in a file at `file_path` that holds `content`.  Content
/// that is not well-formed UTF-8 has no lines and so no match.
pub open spec fn content_matches(file_path: Seq<char>, content: Seq<u8>, pat: Seq<char>) -> Seq<
    MatchView,
> {
    if valid_utf8(content) {
        shown_hits(file_path, matching_lines(lines_of(decode_utf8(content)), pat))
    } else {
        Seq::empty()
    }
}

/// A line that a search found, with the path of its file in segments.
pub struct Hit {
    pub path: Seq<Seq<char>>,
    pub line_number: nat,
    pub line: Seq<char>,
}

impl Hit {
    /// The match that reports this hit: the path written as a string.
    pub open spec fn shown(self) -> MatchView {
        MatchView {
            file_path: path_string(self.path),
            line_number: self.line_number,
            line_content: self.line,
        }
    }
}

/// The matches that report `hits`, in order.
pub open spec fn shown(hits: Seq<Hit>) -> Seq<MatchView> {
    hits.map_values(|h: Hit| h.shown())
}

/// The hits for `pat` in a file at `path` that holds `content`: its lines
/// that hold the pattern, in order.  Content that is not well-formed UTF-8
/// has no lines and so no hit.
pub open spec fn file_hits(path: Seq<Seq<char>>, content: Seq<u8>, pat: Seq<char>) -> Seq<Hit> {
    if valid_utf8(content) {
        matching_lines(lines_of(decode_utf8(content)), pat).map_values(
            |h: (nat, Seq<char>)| Hit { path, line_number: h.0, line: h.1 },
        )
    } else {
        Seq::empty()
    }
}

/// The matches of a file report its hits.
pub proof fn lemma_shown_file_hits(path: Seq<Seq<char>>, content: Seq<u8>, pat: Seq<char>)
    ensures
        shown(file_hits(path, content, pat)) == content_matches(path_string(path), content, pat),
{
    assert(shown(file_hits(path, content, pat)) =~= content_matches(
        path_string(path),
        content,
        pat,
    ));
}

/// Reporting hits one run after the other reports the runs one after the
/// other.
pub proof fn lemma_shown_concat(a: Seq<Hit>, b: Seq<Hit>)
    ensures
        shown(a + b) == shown(a) + shown(b),
{
    assert(shown(a + b) =~= shown(a) + shown(b));
}

/// Every hit names a line of the text that holds the pattern, by its number.
pub proof fn lemma_matching_lines_sound(lines: Seq<Seq<char>>, pat: Seq<char>, i: int)
    requires
        0 <= i < matching_lines(lines, pat).len(),
    ensures
        1 <= matching_lines(lines, pat)[i].0 <= lines.len(),
        matching_lines(lines, pat)[i].1 == lines[matching_lines(lines, pat)[i].0 - 1],
        occurs_in(matching_lines(lines, pat)[i].1, pat),
    decreases lines.len(),
{
    if lines.len() > 0 {
        let before = matching_lines(lines.drop_last(), pat);
        if i < before.len() {
            lemma_matching_lines_sound(lines.drop_last(), pat, i);
        }
    }
}

/// Every line that holds the pattern is among the hits.
pub proof fn lemma_matching_lines_complete(lines: Seq<Seq<char>>, pat: Seq<char>, k: int)
    requires
        0 <= k < lines.len(),
        occurs_in(lines[k], pat),
    ensures
        exists|i: int|
            0 <= i < matching_lines(lines, pat).len() && matching_lines(lines, pat)[i] == (
                (k + 1) as nat,
                lines[k],
            ),
    decreases lines.len(),
{
    let all = matching_lines(lines, pat);
    let before = matching_lines(lines.drop_last(), pat);
    if k == lines.len() - 1 {
        assert(all[all.len() - 1] == ((k + 1) as nat, lines[k]));
    } else {
        lemma_matching_lines_complete(lines.drop_last(), pat, k);
        let i = choose|i: int|
            0 <= i < before.len() && before[i] == ((k + 1) as nat, lines.drop_last()[k]);
        assert(all[i] == before[i]);
    }
}

/// The hits come in the order of their lines, none twice.
pub proof fn lemma_matching_lines_ordered(lines: Seq<Seq<char>>, pat: Seq<char>, i: int, j: int)
    requires
        0 <= i < j < matching_lines(lines, pat).len(),
    ensures
        matching_lines(lines, pat)[i].0 < matching_lines(lines, pat)[j].0,
    decreases lines.len(),
{
    if lines.len() > 0 {
        let before = matching_lines(lines.drop_last(), pat);
        if j < before.len() {
            lemma_matching_lines_ordered(lines.drop_last(), pat, i, j);
        } else {
            lemma_matching_lines_sound(lines.drop_last(), pat, i);
        }
    }
}

/// Whether `pat` stands in `chars` at index `at`.
pub fn matches_at(chars: &[char], at: usize, pat: &[char]) -> (b: bool)
    requires
        at + pat@.len() <= chars@.len(),
    ensures
        b == (chars@.subrange(at as int, at + pat@.len()) == pat@),
{
    let n: usize = chars.len();
    let mut j: usize = 0;
    while j < pat.len()
        invariant
            j <= pat@.len(),
            n == chars@.len(),
            at + pat@.len() <= chars@.len(),
            forall|t: int| 0 <= t < j ==> chars@[at + t] == pat@[t],
        decreases pat@.len() - j,
    {
        if chars[at + j] != pat[j] {
            proof {
                assert(chars@.subrange(at as int, at + pat@.len())[j as int] == chars@[at + j]);
            }
            return false;
        }
        j = j + 1;
    }
    proof {
        assert(chars@.subrange(at as int, at + pat@.len()) =~= pat@);
    }
    true
}

/// Whether `pat` is a contiguous part of `chars[start..end]`.
pub fn contains_pattern(chars: &[char], start: usize, end: usize, pat: &[char]) -> (b: bool)
    requires
        start <= end <= chars@.len(),
    ensures
        b == occurs_in(chars@.subrange(start as int, end as int), pat@),
{
    let ghost line = chars@.subrange(start as int, end as int);
    if pat.len() == 0 {
        proof {
            assert(line.subrange(0, 0) =~= pat@);
            assert(occurs_at(line, pat@, 0));
        }
        return true;
    }
    if pat.len() > end - start {
        return false;
    }
    let last: usize = end - pat.len();
    let mut i: usize = start;
    while i <= last
        invariant
            start <= i <= last + 1,
            last + pat@.len() == end,
            pat@.len() > 0,
            end <= chars@.len(),
            line == chars@.subrange(start as int, end as int),
            forall|t: int| 0 <= t < i - start ==> !occurs_at(line, pat@, t),
        decreases last + 1 - i,
    {
        proof {
            assert(line.subrange(i - start, i - start + pat@.len()) =~= chars@.subrange(
                i as int,
                i + pat@.len(),
            ));
        }
        if matches_at(chars, i, pat) {
            proof {
                assert(occurs_at(line, pat@, i - start));
            }
            return true;
        }
        i = i + 1;
    }
    false
}

/// Appends to `out` one match for every line of `text` that holds `pattern`,
/// in the order of the lines, each under `file_path`.
pub fn search_text(file_path: &str, text: &str, pattern: &[char], out: &mut Vec<GrepMatch>)
    ensures
        match_views(final(out)@) == match_views(old(out)@) + shown_hits(
            file_path@,
            matching_lines(lines_of(text@), pattern@),
        ),
{
    let chars = to_chars(text);
    let ghost all = lines_of(text@);
    let ghost before = match_views(out@);
    let mut pos: usize = 0;
    let mut number: usize = 0;
    proof {
        assert(chars@.skip(0) =~= chars@);
        assert(all.skip(0) =~= all);
        assert(match_views(out@) =~= before + shown_hits(
            file_path@,
            matching_lines(all.take(0), pattern@),
        ));
    }
    while pos < chars.len()
        invariant
            chars@ == text@,
            pos <= chars@.len(),
            number <= pos,
            number <= all.len(),
            all.skip(number as int) == split_on(chars@.skip(pos as int), '\n'),
            match_views(out@) == before + shown_hits(
                file_path@,
                matching_lines(all.take(number as int), pattern@),
            ),
        decreases chars@.len() - pos,
    {
        let k = find_sep(chars.as_slice(), pos, '\n');
        let ghost line = chars@.subrange(pos as int, k as int);
        proof {
            let rest = chars@.skip(pos as int);
            assert(rest.take(k - pos) =~= line);
            if k < chars@.len() {
                assert(rest.skip(k - pos + 1) =~= chars@.skip(k + 1));
            } else {
                assert(rest =~= line);
                assert(split_on(chars@.skip(k as int), '\n') =~= Seq::empty());
            }
            assert(all.skip(number as int)[0] == line);
            assert(all.skip(number as int).len() >= 1);
            assert(number < all.len());
            assert(all[number as int] == all.skip(number as int)[0]);
            assert(all.skip(number as int).skip(1) =~= all.skip(number + 1));
            assert(all.take(number + 1).drop_last() =~= all.take(number as int));
            assert(all.take(number + 1).last() == line);
        }
        number = number + 1;
        if contains_pattern(chars.as_slice(), pos, k, pattern) {
            let found = GrepMatch {
                file_path: file_path.to_owned(),
                line_number: number,
                line_content: text.substring_char(pos, k).to_owned(),
            };
            let ghost prev = out@;
            out.push(found);
            proof {
                let hits = matching_lines(all.take(number as int - 1), pattern@);
                assert(match_views(out@) =~= match_views(prev).push(found@));
                assert(shown_hits(file_path@, hits.push((number as nat, line))) =~= shown_hits(
                    file_path@,
                    hits,
                ).push(found@));
            }
        }
        pos = if k < chars.len() {
            k + 1
        } else {
            k
        };
    }
    proof {
        assert(split_on(chars@.skip(pos as int), '\n').len() == 0);
        assert(all.skip(number as int).len() == 0);
        assert(all.take(number as int) =~= all);
    }
}

/// Appends to `out` the matches for `pattern` in a file at `file_path` that
/// holds `content`.
pub fn search_file(file_path: &str, content: &[u8], pattern: &[char], out: &mut Vec<GrepMatch>)
    ensures
        match_views(final(out)@) == match_views(old(out)@) + content_matches(
            file_path@,
            content@,
            pattern@,
        ),
{
    match decode(content) {
        Some(text) => {
            search_text(file_path, text, pattern, out);
        },
        None => {
            assert(match_views(out@) + Seq::<MatchView>::empty() =~= match_views(out@));
        },
    }
}

} // verus!
