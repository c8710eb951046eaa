//! Path resolution: from a path string and a current directory to the
//! canonical sequence of segments that the path names, and back to a string.
//!
//! Segments are separated by `/`.  A leading `/` makes a path absolute.  Empty
//! segments and `.` are dropped, and `..` drops the segment resolved last;
//! above the root `..` stays at the root.

use vstd::prelude::*;
use vstd::string::*;
use crate::text::{
    find_sep, first_sep, lemma_first_sep_concat, lemma_split_pieces, split_on, to_chars,
};

verus! {

/// The names that a run of strings holds.
pub open spec fn path_of(names: Seq<String>) -> Seq<Seq<char>> {
    names.map_values(|s: String| s@)
}

/// Whether `path` starts at the root.
pub open spec fn is_absolute(path: Seq<char>) -> bool {
    path.len() > 0 && path[0] == '/'
}

/// The segment that stands for the directory itself.
pub open spec fn dot() -> Seq<char> {
    seq!['.']
}

/// The segment that stands for the parent directory.
pub open spec fn dot_dot() -> Seq<char> {
    seq!['.', '.']
}

/// What one segment of a path makes of the segments resolved before it.
pub open spec fn step(acc: Seq<Seq<char>>, seg: Seq<char>) -> Seq<Seq<char>> {
    if seg.len() == 0 || seg == dot() {
        acc
    } else if seg == dot_dot() {
        if acc.len() > 0 {
            acc.drop_last()
        } else {
            acc
        }
    } else {
        acc.push(seg)
    }
}

/// The segments resolved from `acc` by the segments `segs`, taken in order.
pub open spec fn walk(acc: Seq<Seq<char>>, segs: Seq<Seq<char>>) -> Seq<Seq<char>>
    decreases segs.len(),
{
    if segs.len() == 0 {
        acc
    } else {
        walk(step(acc, segs[0]), segs.drop_first())
    }
}

/// The canonical segments that `path` names when the current directory is
/// `cwd`.
pub open spec fn resolved(path: Seq<char>, cwd: Seq<Seq<char>>) -> Seq<Seq<char>> {
    walk(
        if is_absolute(path) {
            Seq::empty()
        } else {
            cwd
        },
        split_on(path, '/'),
    )
}

/// A segment that names an entry: not empty, neither `.` nor `..`, and
/// without a separator in it.
pub open spec fn is_plain(seg: Seq<char>) -> bool {
    &&& seg.len() > 0
    &&& seg != dot()
    &&& seg != dot_dot()
    &&& forall|j: int| 0 <= j < seg.len() ==> seg[j] != '/'
}

/// Segments as resolution leaves them: each one names an entry.
pub open spec fn canonical(segs: Seq<Seq<char>>) -> bool {
    forall|i: int| 0 <= i < segs.len() ==> is_plain(#[trigger] segs[i])
}

/// The segments written one after the other, a separator before each.
pub open spec fn joined(segs: Seq<Seq<char>>) -> Seq<char>
    decreases segs.len(),
{
    if segs.len() == 0 {
        Seq::empty()
    } else {
        seq!['/'] + segs[0] + joined(segs.drop_first())
    }
}

/// The path string of canonical segments: `/` for the root, and else every
/// segment with a separator before it.
pub open spec fn path_string(segs: Seq<Seq<char>>) -> Seq<char> {
    if segs.len() == 0 {
        seq!['/']
    } else {
        joined(segs)
    }
}

/// Walking over pieces that hold no separator keeps canonical segments
/// canonical.
pub proof fn lemma_walk_canonical(acc: Seq<Seq<char>>, segs: Seq<Seq<char>>)
    requires
        canonical(acc),
        forall|i: int, j: int| 0 <= i < segs.len() && 0 <= j < segs[i].len() ==> segs[i][j] != '/',
    ensures
        canonical(walk(acc, segs)),
    decreases segs.len(),
{
    if segs.len() > 0 {
        let next = step(acc, segs[0]);
        assert(canonical(next)) by {
            assert forall|i: int| 0 <= i < next.len() implies is_plain(#[trigger] next[i]) by {
                if i < acc.len() {
                    assert(is_plain(acc[i]));
                }
            }
        }
        let rest = segs.drop_first();
        assert forall|i: int, j: int|
            0 <= i < rest.len() && 0 <= j < rest[i].len() implies rest[i][j] != '/' by {
            assert(rest[i] == segs[i + 1]);
        }
        lemma_walk_canonical(next, rest);
    }
}

/// Resolution against a canonical current directory gives canonical segments.
pub proof fn lemma_resolved_canonical(path: Seq<char>, cwd: Seq<Seq<char>>)
    requires
        canonical(cwd) || is_absolute(path),
    ensures
        canonical(resolved(path, cwd)),
{
    lemma_split_pieces(path, '/');
    lemma_walk_canonical(
        if is_absolute(path) {
            Seq::empty()
        } else {
            cwd
        },
        split_on(path, '/'),
    );
}

/// Walking over canonical segments appends them.
pub proof fn lemma_walk_plain(acc: Seq<Seq<char>>, segs: Seq<Seq<char>>)
    requires
        canonical(segs),
    ensures
        walk(acc, segs) == acc + segs,
    decreases segs.len(),
{
    if segs.len() == 0 {
        assert(acc + segs =~= acc);
    } else {
        assert(is_plain(segs[0]));
        let rest = segs.drop_first();
        assert forall|i: int| 0 <= i < rest.len() implies is_plain(#[trigger] rest[i]) by {
            assert(rest[i] == segs[i + 1]);
        }
        lemma_walk_plain(acc.push(segs[0]), rest);
        assert(acc.push(segs[0]) + rest =~= acc + segs);
    }
}

/// A plain segment followed by joined canonical segments splits into that
/// segment and those that follow.
pub proof fn lemma_split_joined(seg: Seq<char>, tail: Seq<Seq<char>>)
    requires
        is_plain(seg),
        canonical(tail),
    ensures
        split_on(seg + joined(tail), '/') == seq![seg] + tail,
    decreases tail.len(),
{
    let s = seg + joined(tail);
    lemma_first_sep_concat(seg, joined(tail), '/');
    if tail.len() == 0 {
        assert(s =~= seg);
        assert(seq![seg] + tail =~= seq![s]);
    } else {
        let rest = tail.drop_first();
        assert(is_plain(tail[0]));
        assert forall|i: int| 0 <= i < rest.len() implies is_plain(#[trigger] rest[i]) by {
            assert(rest[i] == tail[i + 1]);
        }
        assert(joined(tail)[0] == '/');
        assert(first_sep(s, '/') == seg.len());
        assert(s.take(seg.len() as int) =~= seg);
        assert(s.skip(seg.len() as int + 1) =~= tail[0] + joined(rest));
        lemma_split_joined(tail[0], rest);
        assert(seq![seg] + (seq![tail[0]] + rest) =~= seq![seg] + tail);
    }
}

/// Resolution is idempotent: the path string of resolved segments resolves to
/// those segments again, from whatever directory.
pub proof fn lemma_resolve_idempotent(path: Seq<char>, cwd: Seq<Seq<char>>, other: Seq<Seq<char>>)
    requires
        canonical(cwd) || is_absolute(path),
    ensures
        resolved(path_string(resolved(path, cwd)), other) == resolved(path, cwd),
{
    let r = resolved(path, cwd);
    lemma_resolved_canonical(path, cwd);
    lemma_path_string_resolves(r, other);
}

/// The path string of canonical segments resolves to those segments, from
/// whatever directory.
pub proof fn lemma_path_string_resolves(segs: Seq<Seq<char>>, other: Seq<Seq<char>>)
    requires
        canonical(segs),
    ensures
        is_absolute(path_string(segs)),
        resolved(path_string(segs), other) == segs,
{
    let p = path_string(segs);
    let none = Seq::<char>::empty();
    let root = Seq::<Seq<char>>::empty();
    assert(p[0] == '/');
    assert(first_sep(p, '/') == 0);
    assert(p.take(0) =~= none);
    if segs.len() == 0 {
        assert(p.skip(1) =~= none);
        assert(split_on(none, '/') =~= Seq::<Seq<char>>::empty());
        assert(split_on(p, '/') =~= seq![none]);
        assert(split_on(p, '/').drop_first() =~= Seq::<Seq<char>>::empty());
        assert(walk(root, split_on(p, '/')) == walk(step(root, none), Seq::empty()));
        assert(segs =~= root);
    } else {
        let rest = segs.drop_first();
        assert(is_plain(segs[0]));
        assert forall|i: int| 0 <= i < rest.len() implies is_plain(#[trigger] rest[i]) by {
            assert(rest[i] == segs[i + 1]);
        }
        assert(p.skip(1) =~= segs[0] + joined(rest));
        lemma_split_joined(segs[0], rest);
        assert(seq![segs[0]] + rest =~= segs);
        assert(split_on(p, '/') =~= seq![none] + segs);
        assert(split_on(p, '/').drop_first() =~= segs);
        assert(walk(root, split_on(p, '/')) == walk(step(root, none), segs));
        lemma_walk_plain(root, segs);
        assert(root + segs =~= segs);
    }
}

/// An absolute path resolves to the same canonical segments from every
/// directory, and resolving the path string of those segments gives them again.
pub proof fn lemma_resolve_absolute(path: Seq<char>, cwd: Seq<Seq<char>>, other: Seq<Seq<char>>)
    requires
        is_absolute(path),
    ensures
        resolved(path, cwd) == resolved(path, other),
        canonical(resolved(path, cwd)),
        resolved(path_string(resolved(path, cwd)), other) == resolved(path, cwd),
{
    lemma_resolved_canonical(path, cwd);
    lemma_resolve_idempotent(path, cwd, other);
}

/// From the root, `..` resolves to the root.
pub proof fn lemma_parent_of_root()
    ensures
        resolved(dot_dot(), Seq::empty()) == Seq::<Seq<char>>::empty(),
{
    let p = dot_dot();
    let root = Seq::<Seq<char>>::empty();
    assert(forall|j: int| 0 <= j < p.len() ==> p[j] != '/');
    lemma_first_sep_concat(p, Seq::empty(), '/');
    assert(p + Seq::<char>::empty() =~= p);
    assert(split_on(p, '/') =~= seq![p]);
    assert(split_on(p, '/').drop_first() =~= Seq::<Seq<char>>::empty());
    assert(walk(root, split_on(p, '/')) == walk(step(root, p), Seq::empty()));
}

/// Joining one more segment appends a separator and the segment.
pub proof fn lemma_joined_push(segs: Seq<Seq<char>>, name: Seq<char>)
    ensures
        joined(segs.push(name)) == joined(segs) + seq!['/'] + name,
    decreases segs.len(),
{
    let longer = segs.push(name);
    if segs.len() == 0 {
        assert(longer.drop_first() =~= Seq::<Seq<char>>::empty());
        assert(joined(longer.drop_first()) =~= Seq::<char>::empty());
        assert(joined(longer) =~= joined(segs) + seq!['/'] + name);
    } else {
        assert(longer.drop_first() =~= segs.drop_first().push(name));
        lemma_joined_push(segs.drop_first(), name);
        assert(joined(longer) =~= joined(segs) + seq!['/'] + name);
    }
}

/// Resolves `path` against `current_directory`.
pub fn resolve(path: &str, current_directory: &[String]) -> (res: Vec<String>)
    ensures
        path_of(res@) == resolved(path@, path_of(current_directory@)),
        canonical(path_of(current_directory@)) || is_absolute(path@) ==> canonical(path_of(res@)),
{
    proof {
        if canonical(path_of(current_directory@)) || is_absolute(path@) {
            lemma_resolved_canonical(path@, path_of(current_directory@));
        }
    }
    let chars = to_chars(path);
    let mut acc: Vec<String> = Vec::new();
    let absolute = chars.len() > 0 && chars[0] == '/';
    if !absolute {
        let mut i: usize = 0;
        while i < current_directory.len()
            invariant
                i <= current_directory@.len(),
                path_of(acc@) =~= path_of(current_directory@).take(i as int),
            decreases current_directory@.len() - i,
        {
            let name = current_directory[i].clone();
            let ghost before = acc@;
            acc.push(name);
            assert(path_of(acc@) =~= path_of(before).push(current_directory@[i as int]@));
            i = i + 1;
        }
        assert(path_of(acc@) =~= path_of(current_directory@));
    } else {
        assert(path_of(acc@) =~= Seq::empty());
    }
    let mut pos: usize = 0;
    proof {
        assert(chars@.skip(0) =~= chars@);
    }
    while pos < chars.len()
        invariant
            chars@ == path@,
            pos <= chars@.len(),
            resolved(path@, path_of(current_directory@)) == walk(
                path_of(acc@),
                split_on(chars@.skip(pos as int), '/'),
            ),
        decreases chars@.len() - pos,
    {
        let k = find_sep(chars.as_slice(), pos, '/');
        let ghost seg = chars@.subrange(pos as int, k as int);
        let ghost before = path_of(acc@);
        proof {
            let rest = chars@.skip(pos as int);
            let pieces = split_on(rest, '/');
            assert(rest.take(k - pos) =~= seg);
            if k < chars@.len() {
                assert(rest.skip(k - pos + 1) =~= chars@.skip(k + 1));
                assert(pieces.drop_first() =~= split_on(chars@.skip(k + 1), '/'));
            } else {
                assert(rest =~= seg);
                assert(pieces.drop_first() =~= split_on(chars@.skip(k as int), '/'));
            }
            assert(pieces[0] == seg);
        }
        let len: usize = k - pos;
        if len == 0 {
        } else if len == 1 && chars[pos] == '.' {
            assert(seg =~= dot());
        } else if len == 2 && chars[pos] == '.' && chars[pos + 1] == '.' {
            assert(seg =~= dot_dot());
            acc.pop();
            assert(path_of(acc@) =~= step(before, seg));
        } else {
            proof {
                if seg == dot() {
                    assert(seg[0] == '.');
                }
                if seg == dot_dot() {
                    assert(seg[0] == '.' && seg[1] == '.');
                }
            }
            acc.push(path.substring_char(pos, k).to_owned());
            assert(path_of(acc@) =~= step(before, seg));
        }
        pos = if k < chars.len() {
            k + 1
        } else {
            k
        };
    }
    acc
}

/// `base`, a separator, and `name`.
pub fn join_child(base: &str, name: &str) -> (res: String)
    ensures
        res@ == base@ + seq!['/'] + name@,
{
    let mut res = base.to_owned();
    proof {
        reveal_strlit("/");
        assert("/"@ =~= seq!['/']);
    }
    res.append("/");
    res.append(name);
    res
}

/// Writes canonical segments as a path string.
pub fn format_path(segs: &[String]) -> (res: String)
    ensures
        res@ == path_string(path_of(segs@)),
{
    proof {
        reveal_strlit("/");
        assert("/"@ =~= seq!['/']);
    }
    if segs.len() == 0 {
        return "/".to_owned();
    }
    let ghost all = path_of(segs@);
    let mut res = String::new();
    let mut i: usize = 0;
    proof {
        assert(all.skip(0) =~= all);
    }
    while i < segs.len()
        invariant
            i <= segs@.len(),
            all == path_of(segs@),
            joined(all) == res@ + joined(all.skip(i as int)),
        decreases segs@.len() - i,
    {
        proof {
            assert(all.skip(i as int)[0] == segs@[i as int]@);
            assert(all.skip(i as int).drop_first() =~= all.skip(i + 1));
        }
        let ghost prev = res@;
        res = join_child(res.as_str(), segs[i].as_str());
        proof {
            assert(res@ + joined(all.skip(i + 1)) =~= prev + (seq!['/'] + segs@[i as int]@ + joined(
                all.skip(i + 1),
            )));
        }
        i = i + 1;
    }
    proof {
        assert(res@ =~= res@ + joined(all.skip(i as int)));
    }
    res
}

} // verus!
