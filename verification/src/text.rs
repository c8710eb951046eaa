//! Text as a sequence of characters: decoding, splitting at a separator, and
//! the leading and trailing lines of a text.

use vstd::prelude::*;
use vstd::string::*;
use vstd::utf8::*;

verus! {

/// The characters of `s`, one by one.
pub fn to_chars(s: &str) -> (v: Vec<char>)
    ensures
        v@ == s@,
{
    let mut v: Vec<char> = Vec::new();
    for c in it: s.chars()
        invariant
            it.seq() == s@,
            v@ =~= s@.take(it.index() as int),
    {
        v.push(c);
    }
    assert(v@ =~= s@);
    v
}

/// Reads `bytes` as UTF-8 text, by `core::str::from_utf8`.  The contract
/// claims that the call succeeds exactly on well-formed UTF-8, and that the
/// text it hands back is encoded by the very bytes that were handed in.
#[verifier::external_body]
pub(crate) fn utf8_text(bytes: &[u8]) -> (res: Option<&str>)
    ensures
        res is Some <==> valid_utf8(bytes@),
        res matches Some(s) ==> s.spec_bytes() == bytes@,
{
    match core::str::from_utf8(bytes) {
        Ok(s) => Some(s),
        Err(_) => None,
    }
}

/// The text that `bytes` encode, where they are well-formed UTF-8.
pub fn decode(bytes: &[u8]) -> (res: Option<&str>)
    ensures
        res is Some <==> valid_utf8(bytes@),
        res matches Some(s) ==> s@ == decode_utf8(bytes@),
{
    let res = utf8_text(bytes);
    proof {
        if let Some(s) = res {
            encode_utf8_decode_utf8(s@);
        }
    }
    res
}

/// Index of the first `sep` in `s`, or the length of `s` where it holds none.
pub open spec fn first_sep(s: Seq<char>, sep: char) -> nat
    decreases s.len(),
{
    if s.len() == 0 || s[0] == sep {
        0
    } else {
        1 + first_sep(s.drop_first(), sep)
    }
}

/// The pieces of `s` between occurrences of `sep`.  A separator ends the piece
/// before it, so a trailing separator opens no further piece and the empty
/// text has no piece at all.
pub open spec fn split_on(s: Seq<char>, sep: char) -> Seq<Seq<char>>
    decreases s.len(),
{
    if s.len() == 0 {
        Seq::empty()
    } else {
        let k = first_sep(s, sep);
        if k >= s.len() {
            seq![s]
        } else {
            seq![s.take(k as int)] + split_on(s.skip(k as int + 1), sep)
        }
    }
}

/// `first_sep` is in range, points at a separator unless it is the length,
/// and no separator stands before it.
pub proof fn lemma_first_sep(s: Seq<char>, sep: char)
    ensures
        first_sep(s, sep) <= s.len(),
        first_sep(s, sep) < s.len() ==> s[first_sep(s, sep) as int] == sep,
        forall|j: int| 0 <= j < first_sep(s, sep) ==> s[j] != sep,
    decreases s.len(),
{
    if s.len() == 0 || s[0] == sep {
    } else {
        let t = s.drop_first();
        lemma_first_sep(t, sep);
        assert forall|j: int| 0 <= j < first_sep(s, sep) implies s[j] != sep by {
            if j > 0 {
                assert(s[j] == t[j - 1]);
            }
        }
    }
}

/// Before a text that starts after `a`, the first separator is sought beyond
/// `a` where `a` holds none.
pub proof fn lemma_first_sep_concat(a: Seq<char>, b: Seq<char>, sep: char)
    requires
        forall|j: int| 0 <= j < a.len() ==> a[j] != sep,
    ensures
        first_sep(a + b, sep) == a.len() + first_sep(b, sep),
    decreases a.len(),
{
    if a.len() == 0 {
        assert(a + b =~= b);
    } else {
        assert((a + b).drop_first() =~= a.drop_first() + b);
        lemma_first_sep_concat(a.drop_first(), b, sep);
    }
}

/// No piece of a split holds the separator.
pub proof fn lemma_split_pieces(s: Seq<char>, sep: char)
    ensures
        forall|i: int, j: int|
            0 <= i < split_on(s, sep).len() && 0 <= j < split_on(s, sep)[i].len() ==> split_on(
                s,
                sep,
            )[i][j] != sep,
    decreases s.len(),
{
    if s.len() > 0 {
        lemma_first_sep(s, sep);
        let k = first_sep(s, sep);
        let pieces = split_on(s, sep);
        if k < s.len() {
            let rest = split_on(s.skip(k as int + 1), sep);
            lemma_split_pieces(s.skip(k as int + 1), sep);
            assert forall|i: int, j: int|
                0 <= i < pieces.len() && 0 <= j < pieces[i].len() implies pieces[i][j] != sep by {
                if i == 0 {
                    assert(pieces[0] == s.take(k as int));
                    assert(pieces[0][j] == s[j]);
                } else {
                    assert(pieces[i] == rest[i - 1]);
                }
            }
        } else {
            assert(pieces[0] == s);
        }
    }
}

/// The first position at or after `from` that holds `sep`, or the length of
/// `chars` where none does.
pub fn find_sep(chars: &[char], from: usize, sep: char) -> (k: usize)
    requires
        from <= chars@.len(),
    ensures
        from <= k <= chars@.len(),
        k == from + first_sep(chars@.skip(from as int), sep),
{
    let mut i: usize = from;
    while i < chars.len() && chars[i] != sep
        invariant
            from <= i <= chars@.len(),
            first_sep(chars@.skip(from as int), sep) == (i - from) + first_sep(
                chars@.skip(i as int),
                sep,
            ),
        decreases chars@.len() - i,
    {
        proof {
            assert(chars@.skip(i as int)[0] == chars@[i as int]);
            assert(chars@.skip(i as int).drop_first() =~= chars@.skip(i + 1));
        }
        i = i + 1;
    }
    proof {
        if i < chars@.len() {
            assert(chars@.skip(i as int)[0] == chars@[i as int]);
        }
    }
    i
}

/// How many pieces `split_on` cuts `s` into.
pub fn count_pieces(chars: &[char], sep: char) -> (n: usize)
    ensures
        n == split_on(chars@, sep).len(),
        n <= chars@.len(),
{
    let mut pos: usize = 0;
    let mut n: usize = 0;
    proof {
        assert(chars@.skip(0) =~= chars@);
    }
    while pos < chars.len()
        invariant
            pos <= chars@.len(),
            n <= pos,
            split_on(chars@, sep).len() == n + split_on(chars@.skip(pos as int), sep).len(),
        decreases chars@.len() - pos,
    {
        let k = find_sep(chars, pos, sep);
        proof {
            let rest = chars@.skip(pos as int);
            if k < chars@.len() {
                assert(rest.skip(k - pos + 1) =~= chars@.skip(k + 1));
            } else {
                assert(split_on(chars@.skip(chars@.len() as int), sep).len() == 0);
            }
        }
        n = n + 1;
        pos = if k < chars.len() {
            k + 1
        } else {
            k
        };
    }
    n
}

/// Length of the prefix of `text` that holds its first `n` lines, each with
/// the newline that ends it.
pub open spec fn head_len(text: Seq<char>, n: nat) -> nat
    decreases text.len(),
{
    if n == 0 || text.len() == 0 {
        0
    } else if text[0] == '\n' {
        1 + head_len(text.drop_first(), (n - 1) as nat)
    } else {
        1 + head_len(text.drop_first(), n)
    }
}

/// The lines of `text`, without the newlines that end them.
pub open spec fn lines_of(text: Seq<char>) -> Seq<Seq<char>> {
    split_on(text, '\n')
}

/// The first `n` lines of `text`; all of it where it has no more than `n`.
pub open spec fn head_text(text: Seq<char>, n: nat) -> Seq<char> {
    text.take(head_len(text, n) as int)
}

/// The last `n` lines of `text`: what is left when all lines but the last `n`
/// are taken from its front; all of it where it has no more than `n`.
pub open spec fn tail_text(text: Seq<char>, n: nat) -> Seq<char> {
    let total = lines_of(text).len();
    let dropped = if total > n {
        (total - n) as nat
    } else {
        0
    };
    text.skip(head_len(text, dropped) as int)
}

pub proof fn lemma_head_len_bound(text: Seq<char>, n: nat)
    ensures
        head_len(text, n) <= text.len(),
    decreases text.len(),
{
    if n == 0 || text.len() == 0 {
    } else if text[0] == '\n' {
        lemma_head_len_bound(text.drop_first(), (n - 1) as nat);
    } else {
        lemma_head_len_bound(text.drop_first(), n);
    }
}

/// The first line, with its newline, is the start of every head of at least
/// one line; a text without a newline is its own head.
pub proof fn lemma_head_len_step(text: Seq<char>, n: nat)
    requires
        n > 0,
        text.len() > 0,
    ensures
        head_len(text, n) == if first_sep(text, '\n') < text.len() {
            first_sep(text, '\n') + 1 + head_len(
                text.skip(first_sep(text, '\n') as int + 1),
                (n - 1) as nat,
            )
        } else {
            text.len()
        },
    decreases text.len(),
{
    let rest = text.drop_first();
    if text[0] == '\n' {
        assert(rest =~= text.skip(1));
    } else if rest.len() == 0 {
        assert(first_sep(rest, '\n') == 0);
        assert(head_len(rest, n) == 0);
    } else {
        lemma_head_len_step(rest, n);
        let k = first_sep(rest, '\n');
        if k < rest.len() {
            assert(rest.skip(k as int + 1) =~= text.skip(k as int + 2));
        }
    }
}

/// The lines of a text that starts with a line and its newline: that line,
/// and the lines of what follows.
pub proof fn lemma_lines_after_first(line: Seq<char>, rest: Seq<char>)
    requires
        forall|j: int| 0 <= j < line.len() ==> line[j] != '\n',
    ensures
        lines_of(line + seq!['\n'] + rest) == seq![line] + lines_of(rest),
{
    let s = line + seq!['\n'] + rest;
    lemma_first_sep_concat(line, seq!['\n'] + rest, '\n');
    assert(s =~= line + (seq!['\n'] + rest));
    assert((seq!['\n'] + rest)[0] == '\n');
    assert(first_sep(s, '\n') == line.len());
    assert(s.take(line.len() as int) =~= line);
    assert(s.skip(line.len() as int + 1) =~= rest);
}

/// The first `n` lines of a text are its head of `n` lines: what `head_text`
/// keeps has the first `n` lines of the text as its lines, or all of them
/// where the text has no more.
pub proof fn lemma_head_lines(text: Seq<char>, n: nat)
    ensures
        lines_of(head_text(text, n)) == lines_of(text).take(
            if n <= lines_of(text).len() {
                n as int
            } else {
                lines_of(text).len() as int
            },
        ),
    decreases text.len(),
{
    let all = lines_of(text);
    let head = head_text(text, n);
    if n == 0 || text.len() == 0 {
        assert(head =~= Seq::<char>::empty());
        assert(lines_of(head) =~= all.take(0));
    } else {
        lemma_first_sep(text, '\n');
        lemma_head_len_step(text, n);
        let k = first_sep(text, '\n');
        if k < text.len() {
            let line = text.take(k as int);
            let rest = text.skip(k as int + 1);
            let m = (n - 1) as nat;
            lemma_head_lines(rest, m);
            lemma_head_len_bound(rest, m);
            let rest_head = head_text(rest, m);
            assert(head =~= line + seq!['\n'] + rest_head);
            lemma_lines_after_first(line, rest_head);
            let rest_all = lines_of(rest);
            assert(all == seq![line] + rest_all);
            let c = if m <= rest_all.len() {
                m as int
            } else {
                rest_all.len() as int
            };
            assert(seq![line] + rest_all.take(c) =~= all.take(c + 1));
        } else {
            assert(head =~= text);
            assert(all =~= seq![text]);
            assert(all.take(1) =~= all);
        }
    }
}

/// What is left of a text when its first `m` lines are taken from its front
/// has the remaining lines of the text as its lines.
pub proof fn lemma_skip_lines(text: Seq<char>, m: nat)
    requires
        m <= lines_of(text).len(),
    ensures
        lines_of(text.skip(head_len(text, m) as int)) == lines_of(text).skip(m as int),
    decreases text.len(),
{
    let all = lines_of(text);
    if m == 0 || text.len() == 0 {
        assert(text.skip(0) =~= text);
        assert(all.skip(0) =~= all);
    } else {
        lemma_first_sep(text, '\n');
        lemma_head_len_step(text, m);
        let k = first_sep(text, '\n');
        if k < text.len() {
            let line = text.take(k as int);
            let rest = text.skip(k as int + 1);
            let rest_all = lines_of(rest);
            assert(all == seq![line] + rest_all);
            lemma_skip_lines(rest, (m - 1) as nat);
            lemma_head_len_bound(rest, (m - 1) as nat);
            let cut = head_len(rest, (m - 1) as nat) as int;
            assert(text.skip(k as int + 1 + cut) =~= rest.skip(cut));
            assert(all.skip(m as int) =~= rest_all.skip(m - 1));
        } else {
            assert(all =~= seq![text]);
            assert(text.skip(text.len() as int) =~= Seq::<char>::empty());
            assert(all.skip(1) =~= Seq::<Seq<char>>::empty());
        }
    }
}

/// The last `n` lines of a text are its tail of `n` lines: what `tail_text`
/// keeps has the last `n` lines of the text as its lines, or all of them
/// where the text has no more.
pub proof fn lemma_tail_lines(text: Seq<char>, n: nat)
    ensures
        lines_of(tail_text(text, n)) == lines_of(text).skip(
            if n <= lines_of(text).len() {
                lines_of(text).len() - n
            } else {
                0
            },
        ),
{
    let total = lines_of(text).len();
    let dropped = if total > n {
        (total - n) as nat
    } else {
        0
    };
    lemma_skip_lines(text, dropped);
}

/// A text is its head of some lines followed by its tail of the others.
pub proof fn lemma_head_then_tail(text: Seq<char>, n: nat)
    requires
        n <= lines_of(text).len(),
    ensures
        head_text(text, (lines_of(text).len() - n) as nat) + tail_text(text, n) == text,
{
    let cut = head_len(text, (lines_of(text).len() - n) as nat);
    lemma_head_len_bound(text, (lines_of(text).len() - n) as nat);
    assert(text.take(cut as int) + text.skip(cut as int) =~= text);
}

/// Where the first `n` lines of `chars` end.
pub fn head_end(chars: &[char], n: usize) -> (k: usize)
    ensures
        k == head_len(chars@, n as nat),
        k <= chars@.len(),
{
    let mut i: usize = 0;
    let mut seen: usize = 0;
    proof {
        assert(chars@.skip(0) =~= chars@);
    }
    while i < chars.len() && seen < n
        invariant
            i <= chars@.len(),
            seen <= n,
            head_len(chars@, n as nat) == i + head_len(
                chars@.skip(i as int),
                (n - seen) as nat,
            ),
        decreases chars@.len() - i,
    {
        proof {
            assert(chars@.skip(i as int)[0] == chars@[i as int]);
            assert(chars@.skip(i as int).drop_first() =~= chars@.skip(i + 1));
        }
        if chars[i] == '\n' {
            seen = seen + 1;
        }
        i = i + 1;
    }
    i
}

/// The first `n` lines of `text`.
pub fn head_of(text: &str, n: usize) -> (res: String)
    ensures
        res@ == head_text(text@, n as nat),
{
    let chars = to_chars(text);
    let k = head_end(chars.as_slice(), n);
    let part = text.substring_char(0, k);
    proof {
        assert(text@.subrange(0, k as int) =~= text@.take(k as int));
    }
    part.to_owned()
}

/// The last `n` lines of `text`.
pub fn tail_of(text: &str, n: usize) -> (res: String)
    ensures
        res@ == tail_text(text@, n as nat),
{
    let chars = to_chars(text);
    let total = count_pieces(chars.as_slice(), '\n');
    let dropped: usize = if total > n {
        total - n
    } else {
        0
    };
    let k = head_end(chars.as_slice(), dropped);
    let part = text.substring_char(k, chars.len());
    proof {
        assert(text@.subrange(k as int, text@.len() as int) =~= text@.skip(k as int));
    }
    part.to_owned()
}

} // verus!
