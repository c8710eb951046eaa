//! What a search below a directory finds, said without the walk: the hits
//! come in the order of their paths and then of their lines, every hit is a
//! hit of the file at its path, and every hit of every file below the
//! directory is among them.

use vstd::prelude::*;
use vstd::utf8::*;
use crate::grep::entries_hits;
use crate::name::{lemma_name_lt_total, name_lt};
use crate::search::{file_hits, lemma_matching_lines_ordered, Hit};
use crate::text::lines_of;
use crate::tree::{under, Directory, Entry, Node};

verus! {

/// Strict order on paths: segment by segment in the order of names, a path
/// coming before every path below it.
pub open spec fn path_lt(a: Seq<Seq<char>>, b: Seq<Seq<char>>) -> bool
    decreases a.len(),
{
    if b.len() == 0 {
        false
    } else if a.len() == 0 {
        true
    } else if a[0] != b[0] {
        name_lt(a[0], b[0])
    } else {
        path_lt(a.drop_first(), b.drop_first())
    }
}

/// Strict order on hits: by path, and within one file by line.
pub open spec fn hit_lt(a: Hit, b: Hit) -> bool {
    path_lt(a.path, b.path) || (a.path == b.path && a.line_number < b.line_number)
}

/// The hits stand in their strict order.
pub open spec fn ordered(hits: Seq<Hit>) -> bool {
    forall|i: int, j: int| 0 <= i < j < hits.len() ==> hit_lt(hits[i], hits[j])
}

/// The path lies below one of the first `upto` entries of the directory at
/// `prefix`.
pub open spec fn below_entry(
    path: Seq<Seq<char>>,
    entries: Seq<Entry>,
    upto: nat,
    prefix: Seq<Seq<char>>,
) -> bool {
    exists|m: int| 0 <= m < upto && under(prefix.push((#[trigger] entries[m]).name()), path)
}

/// Every hit lies below one of the first `upto` entries of the directory at
/// `prefix`.
pub open spec fn below_entries(
    hits: Seq<Hit>,
    entries: Seq<Entry>,
    upto: nat,
    prefix: Seq<Seq<char>>,
) -> bool {
    forall|i: int|
        0 <= i < hits.len() ==> below_entry((#[trigger] hits[i]).path, entries, upto, prefix)
}

/// Two paths that agree before index `k` and differ there stand as their
/// segments at `k` do.
pub proof fn lemma_path_lt_at(a: Seq<Seq<char>>, b: Seq<Seq<char>>, k: int)
    requires
        0 <= k < a.len(),
        k < b.len(),
        a.take(k) == b.take(k),
        name_lt(a[k], b[k]),
    ensures
        path_lt(a, b),
    decreases k,
{
    if k == 0 {
        lemma_name_lt_total(a[0], b[0]);
    } else {
        assert(a.take(k)[0] == b.take(k)[0]);
        let x = a.drop_first().take(k - 1);
        let y = b.drop_first().take(k - 1);
        assert(x =~= y) by {
            assert forall|t: int| 0 <= t < k - 1 implies #[trigger] x[t] == y[t] by {
                assert(a.take(k)[t + 1] == b.take(k)[t + 1]);
            }
        }
        lemma_path_lt_at(a.drop_first(), b.drop_first(), k - 1);
    }
}

/// A path below `prefix` with `name` starts with `prefix` and goes on with
/// `name`.
pub proof fn lemma_under_push(prefix: Seq<Seq<char>>, name: Seq<char>, p: Seq<Seq<char>>)
    requires
        under(prefix.push(name), p),
    ensures
        p.len() > prefix.len(),
        p.take(prefix.len() as int) == prefix,
        p[prefix.len() as int] == name,
        under(prefix, p),
{
    let longer = prefix.push(name);
    let n = prefix.len() as int;
    assert(p.take(n + 1)[n] == longer[n]);
    assert(p.take(n) =~= prefix) by {
        assert forall|t: int| 0 <= t < n implies #[trigger] p.take(n)[t] == prefix[t] by {
            assert(p.take(n + 1)[t] == longer[t]);
        }
    }
}

/// The hits of one file stand in order, all under the path of the file.
pub proof fn lemma_file_hits_ordered(path: Seq<Seq<char>>, content: Seq<u8>, pat: Seq<char>)
    ensures
        ordered(file_hits(path, content, pat)),
        forall|i: int|
            0 <= i < file_hits(path, content, pat).len() ==> (#[trigger] file_hits(
                path,
                content,
                pat,
            )[i]).path == path,
{
    let hits = file_hits(path, content, pat);
    if valid_utf8(content) {
        let lines = lines_of(decode_utf8(content));
        assert forall|i: int, j: int| 0 <= i < j < hits.len() implies hit_lt(hits[i], hits[j]) by {
            lemma_matching_lines_ordered(lines, pat, i, j);
        }
    }
}

/// The hits below a well-formed directory stand in the order of their paths
/// and, within a file, of their lines; and all of them lie below the
/// directory.
pub proof fn lemma_tree_hits_ordered(d: Directory, prefix: Seq<Seq<char>>, pat: Seq<char>)
    requires
        d.wf(),
    ensures
        ordered(d.tree_hits(prefix, pat)),
        forall|i: int|
            0 <= i < d.tree_hits(prefix, pat).len() ==> under(
                prefix,
                (#[trigger] d.tree_hits(prefix, pat)[i]).path,
            ) && d.tree_hits(prefix, pat)[i].path.len() > prefix.len(),
    decreases d, 0nat,
{
    let hits = d.tree_hits(prefix, pat);
    lemma_entries_hits_ordered(d, d.entries@.len(), prefix, pat);
    assert forall|i: int| 0 <= i < hits.len() implies under(prefix, (#[trigger] hits[i]).path)
        && hits[i].path.len() > prefix.len() by {
        assert(below_entry(hits[i].path, d.entries@, d.entries@.len(), prefix));
        let m = choose|m: int|
            0 <= m < d.entries@.len() && under(
                prefix.push((#[trigger] d.entries@[m]).name()),
                hits[i].path,
            );
        lemma_under_push(prefix, d.entries@[m].name(), hits[i].path);
    }
}

/// The hits in the first `upto` entries of a well-formed directory stand in
/// order, each below one of those entries.
pub proof fn lemma_entries_hits_ordered(
    d: Directory,
    upto: nat,
    prefix: Seq<Seq<char>>,
    pat: Seq<char>,
)
    requires
        d.wf(),
        upto <= d.entries@.len(),
    ensures
        ordered(entries_hits(d.entries@, upto, prefix, pat)),
        below_entries(entries_hits(d.entries@, upto, prefix, pat), d.entries@, upto, prefix),
    decreases d.entries@, upto,
{
    let es = d.entries@;
    let hits = entries_hits(es, upto, prefix, pat);
    if upto > 0 {
        let k = (upto - 1) as nat;
        let before = entries_hits(es, k, prefix, pat);
        lemma_entries_hits_ordered(d, k, prefix, pat);
        let here = prefix.push(es[k as int].name());
        let last = match es[k as int] {
            Entry::Dir(c) => c.tree_hits(prefix.push(c.name@), pat),
            Entry::File(f) => file_hits(prefix.push(f.name@), f.content@, pat),
        };
        assert(hits == before + last);
        assert(ordered(last) && forall|i: int|
            0 <= i < last.len() ==> under(here, (#[trigger] last[i]).path)) by {
            match es[k as int] {
                Entry::Dir(c) => {
                    lemma_tree_hits_ordered(c, here, pat);
                },
                Entry::File(f) => {
                    lemma_file_hits_ordered(here, f.content@, pat);
                    assert(here.take(here.len() as int) =~= here);
                },
            }
        }
        assert forall|i: int| 0 <= i < hits.len() implies below_entry(
            (#[trigger] hits[i]).path,
            es,
            upto,
            prefix,
        ) by {
            if i < before.len() {
                assert(hits[i] == before[i]);
                assert(below_entry(before[i].path, es, k, prefix));
                let m = choose|m: int|
                    0 <= m < k && under(prefix.push((#[trigger] es[m]).name()), before[i].path);
                assert(0 <= m < upto && under(prefix.push(es[m].name()), hits[i].path));
            } else {
                assert(hits[i] == last[i - before.len()]);
                assert(0 <= k < upto && under(prefix.push(es[k as int].name()), hits[i].path));
            }
        }
        assert forall|i: int, j: int| 0 <= i < j < hits.len() implies hit_lt(hits[i], hits[j]) by {
            if j < before.len() {
                assert(hits[i] == before[i] && hits[j] == before[j]);
            } else if i >= before.len() {
                assert(hits[i] == last[i - before.len()]);
                assert(hits[j] == last[j - before.len()]);
            } else {
                assert(hits[i] == before[i]);
                assert(hits[j] == last[j - before.len()]);
                assert(below_entry(before[i].path, es, k, prefix));
                let m = choose|m: int|
                    0 <= m < k && under(prefix.push((#[trigger] es[m]).name()), before[i].path);
                lemma_under_push(prefix, es[m].name(), hits[i].path);
                lemma_under_push(prefix, es[k as int].name(), hits[j].path);
                assert(name_lt(es[m].name(), es[k as int].name()));
                lemma_path_lt_at(hits[i].path, hits[j].path, prefix.len() as int);
            }
        }
    }
}

/// `h` is one of the hits of the file that `q` leads to from `d`, which
/// stands at `prefix`.
pub open spec fn is_file_hit(
    d: Directory,
    prefix: Seq<Seq<char>>,
    pat: Seq<char>,
    q: Seq<Seq<char>>,
    h: Hit,
) -> bool {
    d.entry_at(q) matches Some(Node::File(content)) && file_hits(prefix + q, content, pat).contains(
        h,
    )
}

/// `h` is one of the hits of some file below `d`, which stands at `prefix`.
pub open spec fn is_hit_below(
    d: Directory,
    prefix: Seq<Seq<char>>,
    pat: Seq<char>,
    h: Hit,
) -> bool {
    exists|q: Seq<Seq<char>>| #[trigger] is_file_hit(d, prefix, pat, q, h)
}

/// What leads from a directory through its child directory `c` leads on
/// from `c`.
proof fn lemma_through_child(d: Directory, m: int, q: Seq<Seq<char>>)
    requires
        d.wf(),
        0 <= m < d.entries@.len(),
        d.entries@[m] is Dir,
    ensures
        d.entry_at(seq![d.entries@[m].name()] + q) == d.entries@[m]->Dir_0.entry_at(q),
{
    let longer = seq![d.entries@[m].name()] + q;
    d.lemma_child_at(m);
    assert(longer[0] == d.entries@[m].name());
    assert(longer.drop_first() =~= q);
}

/// Every hit found in the first `upto` entries of a well-formed directory is
/// a hit of a file below the directory.
pub proof fn lemma_entries_hits_sound(
    d: Directory,
    upto: nat,
    prefix: Seq<Seq<char>>,
    pat: Seq<char>,
    i: int,
)
    requires
        d.wf(),
        upto <= d.entries@.len(),
        0 <= i < entries_hits(d.entries@, upto, prefix, pat).len(),
    ensures
        is_hit_below(d, prefix, pat, entries_hits(d.entries@, upto, prefix, pat)[i]),
    decreases d.entries@, upto,
{
    let es = d.entries@;
    let k = (upto - 1) as nat;
    let before = entries_hits(es, k, prefix, pat);
    let h = entries_hits(es, upto, prefix, pat)[i];
    if i < before.len() {
        lemma_entries_hits_sound(d, k, prefix, pat, i);
    } else {
        let name = es[k as int].name();
        d.lemma_child_at(k as int);
        match es[k as int] {
            Entry::File(f) => {
                let q = seq![name];
                assert(prefix + q =~= prefix.push(name));
                assert(q.drop_first().len() == 0);
                assert(file_hits(prefix + q, f.content@, pat)[i - before.len()] == h);
                assert(is_file_hit(d, prefix, pat, q, h));
            },
            Entry::Dir(c) => {
                let below = prefix.push(name);
                lemma_tree_hits_sound(c, below, pat, i - before.len());
                let q0 = choose|q0: Seq<Seq<char>>| #[trigger] is_file_hit(c, below, pat, q0, h);
                let q = seq![name] + q0;
                lemma_through_child(d, k as int, q0);
                assert(prefix + q =~= below + q0);
                assert(is_file_hit(d, prefix, pat, q, h));
            },
        }
    }
}

/// Every hit found below a well-formed directory is a hit of a file below
/// it: the path of the hit leads to that file, and the hit is one of its
/// lines that hold the pattern.
pub proof fn lemma_tree_hits_sound(d: Directory, prefix: Seq<Seq<char>>, pat: Seq<char>, i: int)
    requires
        d.wf(),
        0 <= i < d.tree_hits(prefix, pat).len(),
    ensures
        is_hit_below(d, prefix, pat, d.tree_hits(prefix, pat)[i]),
    decreases d, 0nat,
{
    lemma_entries_hits_sound(d, d.entries@.len(), prefix, pat, i);
}

/// What was found in the first entries is still found when more entries are
/// taken.
pub proof fn lemma_entries_hits_grow(
    entries: Seq<Entry>,
    upto: nat,
    more: nat,
    prefix: Seq<Seq<char>>,
    pat: Seq<char>,
    h: Hit,
)
    requires
        upto <= more <= entries.len(),
        entries_hits(entries, upto, prefix, pat).contains(h),
    ensures
        entries_hits(entries, more, prefix, pat).contains(h),
    decreases more,
{
    if upto < more {
        let k = (more - 1) as nat;
        lemma_entries_hits_grow(entries, upto, k, prefix, pat, h);
        let before = entries_hits(entries, k, prefix, pat);
        let i = choose|i: int| 0 <= i < before.len() && before[i] == h;
        assert(entries_hits(entries, more, prefix, pat)[i] == h);
    }
}

/// Every hit of every file below a well-formed directory is found below it.
pub proof fn lemma_tree_hits_complete(
    d: Directory,
    prefix: Seq<Seq<char>>,
    pat: Seq<char>,
    q: Seq<Seq<char>>,
    h: Hit,
)
    requires
        d.wf(),
        is_file_hit(d, prefix, pat, q, h),
    ensures
        d.tree_hits(prefix, pat).contains(h),
    decreases q.len(),
{
    let es = d.entries@;
    d.lemma_child_is_entry(q[0]);
    let m = choose|m: int|
        0 <= m < es.len() && es[m] == d.child(q[0]).unwrap() && es[m].name() == q[0];
    let before = entries_hits(es, m as nat, prefix, pat);
    let upto = entries_hits(es, (m + 1) as nat, prefix, pat);
    match es[m] {
        Entry::File(f) => {
            assert(prefix + q =~= prefix.push(f.name@));
            let found = file_hits(prefix.push(f.name@), f.content@, pat);
            let i = choose|i: int| 0 <= i < found.len() && found[i] == h;
            assert(upto[before.len() + i] == h);
        },
        Entry::Dir(c) => {
            let below = prefix.push(c.name@);
            assert(below + q.drop_first() =~= prefix + q);
            d.lemma_child_wf(q[0]);
            lemma_tree_hits_complete(c, below, pat, q.drop_first(), h);
            let found = c.tree_hits(below, pat);
            let i = choose|i: int| 0 <= i < found.len() && found[i] == h;
            assert(upto[before.len() + i] == h);
        },
    }
    lemma_entries_hits_grow(es, (m + 1) as nat, es.len(), prefix, pat, h);
}

/// What a search gives, said without the walk: the hits stand in the order
/// of their paths and then of their lines, and they are exactly the hits of
/// the files at or below the path that was searched.
pub proof fn lemma_grep_outcome(
    root: Directory,
    path: Seq<Seq<char>>,
    pat: Seq<char>,
    recursive: bool,
)
    requires
        root.wf(),
        root.grep_outcome(path, pat, recursive) is Ok,
    ensures
        ordered(root.grep_outcome(path, pat, recursive)->Ok_0),
        forall|h: Hit| #[trigger]
            root.grep_outcome(path, pat, recursive)->Ok_0.contains(h) <==> (under(path, h.path)
                && (root.entry_at(h.path) matches Some(Node::File(content)) && file_hits(
                h.path,
                content,
                pat,
            ).contains(h))),
{
    let hits = root.grep_outcome(path, pat, recursive)->Ok_0;
    assert(under(path, path)) by {
        assert(path.take(path.len() as int) =~= path);
    }
    match root.entry_at(path) {
        Some(Node::File(bytes)) => {
            lemma_file_hits_ordered(path, bytes, pat);
            assert forall|h: Hit| #[trigger]
                hits.contains(h) <==> (under(path, h.path) && (root.entry_at(
                    h.path,
                ) matches Some(Node::File(content)) && file_hits(h.path, content, pat).contains(
                    h,
                ))) by {
                if hits.contains(h) {
                    let i = choose|i: int| 0 <= i < hits.len() && hits[i] == h;
                    assert(hits[i].path == path);
                }
                if under(path, h.path) && h.path.len() > path.len() {
                    root.lemma_file_is_leaf(path, h.path);
                }
                if under(path, h.path) && h.path.len() == path.len() {
                    assert(h.path.take(path.len() as int) =~= h.path);
                }
            }
        },
        _ => {
            root.lemma_dir_at(path);
            let d = root.dir_at(path).unwrap();
            lemma_tree_hits_ordered(d, path, pat);
            assert forall|h: Hit| #[trigger]
                hits.contains(h) <==> (under(path, h.path) && (root.entry_at(
                    h.path,
                ) matches Some(Node::File(content)) && file_hits(h.path, content, pat).contains(
                    h,
                ))) by {
                if hits.contains(h) {
                    let i = choose|i: int| 0 <= i < hits.len() && hits[i] == h;
                    lemma_tree_hits_sound(d, path, pat, i);
                    let q = choose|q: Seq<Seq<char>>| #[trigger] is_file_hit(d, path, pat, q, h);
                    let content = d.entry_at(q)->Some_0->File_0;
                    lemma_file_hits_ordered(path + q, content, pat);
                    let found = file_hits(path + q, content, pat);
                    let n = choose|n: int| 0 <= n < found.len() && found[n] == h;
                    assert(found[n].path == path + q);
                    root.lemma_subtree(path, q);
                    assert((path + q).take(path.len() as int) =~= path);
                }
                if under(path, h.path) && (root.entry_at(h.path) matches Some(
                    Node::File(content),
                ) && file_hits(h.path, content, pat).contains(h)) {
                    let q = h.path.skip(path.len() as int);
                    assert(path + q =~= h.path);
                    root.lemma_subtree(path, q);
                    assert(is_file_hit(d, path, pat, q, h));
                    lemma_tree_hits_complete(d, path, pat, q, h);
                }
            }
        },
    }
}

} // verus!
