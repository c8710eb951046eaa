//! The directory tree: its data, the model that contracts speak of, and the
//! walk from a directory along a path.
//!
//! A directory keeps its entries, files and directories alike, in one list
//! that is strictly ordered by name.  So a name is taken at most once in a
//! directory, and every listing comes out in the order of the names.
//!
//! The model of a tree is the map from paths to what they lead to: a path is a
//! sequence of names, the empty path is the directory itself, and a path
//! leads either to a directory or to a file with its content.

use vstd::prelude::*;
use vstd::string::*;
use crate::error::FsError;
use crate::name::{lemma_name_lt_total, lemma_name_lt_transitive, name_lt, name_order, NameOrder};
use crate::path::path_of;

verus! {

/// The kind of an entry.
#[derive(Debug, Clone, Copy, PartialEq, Eq, Hash)]
pub enum FileType {
    Dir,
    File,
}

/// How a removal treats a directory that is not empty.
#[derive(Debug, Clone, Copy, PartialEq, Eq, Hash)]
pub enum DeleteOption {
    /// Remove the directory with everything below it.
    R,
}

/// A file: its name within its directory, and its bytes.
#[derive(Debug)]
pub struct FileNode {
    pub name: String,
    pub content: Vec<u8>,
}

/// One entry of a directory.
#[derive(Debug)]
pub enum Entry {
    Dir(Directory),
    File(FileNode),
}

/// A directory: its name within its parent (empty for a root), and its
/// entries in the order of their names.
#[derive(Debug)]
pub struct Directory {
    pub name: String,
    pub entries: Vec<Entry>,
}

/// What a path leads to.
pub enum Node {
    Dir,
    File(Seq<u8>),
}

impl Node {
    /// The kind of entry that this is.
    pub open spec fn kind(self) -> FileType {
        match self {
            Node::Dir => FileType::Dir,
            Node::File(_) => FileType::File,
        }
    }
}

impl Entry {
    /// The name that the entry bears in its directory.
    pub open spec fn name(self) -> Seq<char> {
        match self {
            Entry::Dir(d) => d.name@,
            Entry::File(f) => f.name@,
        }
    }

    /// What the entry is, seen from its directory.
    pub open spec fn node(self) -> Node {
        match self {
            Entry::Dir(_) => Node::Dir,
            Entry::File(f) => Node::File(f.content@),
        }
    }

    /// The name of the entry.
    pub fn name_str(&self) -> (res: &str)
        ensures
            res@ == self.name(),
    {
        match self {
            Entry::Dir(d) => d.name.as_str(),
            Entry::File(f) => f.name.as_str(),
        }
    }

    /// The kind of the entry.
    pub fn file_type(&self) -> (res: FileType)
        ensures
            res == self.node().kind(),
    {
        match self {
            Entry::Dir(_) => FileType::Dir,
            Entry::File(_) => FileType::File,
        }
    }
}

/// `q` is `path` or lies below it.
pub open spec fn under(path: Seq<Seq<char>>, q: Seq<Seq<char>>) -> bool {
    path.len() <= q.len() && q.take(path.len() as int) == path
}

/// Two paths that start with the same segment stand to each other as what
/// follows that segment in them.
pub proof fn lemma_under_step(path: Seq<Seq<char>>, q: Seq<Seq<char>>)
    requires
        path.len() > 0,
        q.len() > 0,
        path[0] == q[0],
    ensures
        under(path, q) == under(path.drop_first(), q.drop_first()),
{
    let n = path.len() as int;
    if path.len() <= q.len() {
        if q.take(n) == path {
            assert(q.drop_first().take(n - 1) =~= path.drop_first()) by {
                assert forall|k: int| 0 <= k < n - 1 implies q.drop_first().take(n - 1)[k]
                    == path.drop_first()[k] by {
                    assert(q.take(n)[k + 1] == path[k + 1]);
                }
            }
        }
        if q.drop_first().take(n - 1) == path.drop_first() {
            assert(q.take(n) =~= path) by {
                assert forall|k: int| 0 <= k < n implies q.take(n)[k] == path[k] by {
                    if k > 0 {
                        assert(q.drop_first().take(n - 1)[k - 1] == path.drop_first()[k - 1]);
                    }
                }
            }
        }
    }
}

impl Directory {
    /// The entries stand in the strict order of their names.
    pub open spec fn sorted(self) -> bool {
        forall|i: int, j: int|
            0 <= i < j < self.entries@.len() ==> name_lt(
                #[trigger] self.entries@[i].name(),
                #[trigger] self.entries@[j].name(),
            )
    }

    /// Well-formedness: in this directory and in every directory below it the
    /// entries stand in the strict order of their names.
    pub open spec fn wf(self) -> bool
        decreases self,
    {
        &&& self.sorted()
        &&& forall|i: int|
            0 <= i < self.entries@.len() ==> (#[trigger] self.entries@[i] matches Entry::Dir(d)
                ==> d.wf())
    }

    /// The entry of this directory that bears `name`.
    pub open spec fn child(self, name: Seq<char>) -> Option<Entry> {
        if exists|i: int| 0 <= i < self.entries@.len() && self.entries@[i].name() == name {
            Some(
                self.entries@[choose|i: int|
                    0 <= i < self.entries@.len() && self.entries@[i].name() == name],
            )
        } else {
            None
        }
    }

    /// What `path` leads to from this directory, if to anything.
    pub open spec fn entry_at(self, path: Seq<Seq<char>>) -> Option<Node>
        decreases path.len(),
    {
        if path.len() == 0 {
            Some(Node::Dir)
        } else {
            match self.child(path[0]) {
                None => None,
                Some(Entry::File(f)) => if path.len() == 1 {
                    Some(Node::File(f.content@))
                } else {
                    None
                },
                Some(Entry::Dir(d)) => d.entry_at(path.drop_first()),
            }
        }
    }

    /// The directory that `path` leads to from this directory.
    pub open spec fn dir_at(self, path: Seq<Seq<char>>) -> Option<Directory>
        decreases path.len(),
    {
        if path.len() == 0 {
            Some(self)
        } else {
            match self.child(path[0]) {
                Some(Entry::Dir(d)) => d.dir_at(path.drop_first()),
                _ => None,
            }
        }
    }

    /// How many leading segments of `path` lead through directories.
    pub open spec fn matched_len(self, path: Seq<Seq<char>>) -> nat
        decreases path.len(),
    {
        if path.len() == 0 {
            0
        } else {
            match self.child(path[0]) {
                Some(Entry::Dir(d)) => 1 + d.matched_len(path.drop_first()),
                _ => 0,
            }
        }
    }

    /// Whether `path` leads to a directory.
    pub open spec fn is_dir(self, path: Seq<Seq<char>>) -> bool {
        self.entry_at(path) == Some(Node::Dir)
    }

    /// The model of the tree below this directory: every path that leads
    /// somewhere, with what it leads to.
    pub open spec fn view(&self) -> Map<Seq<Seq<char>>, Node> {
        Map::new(
            |p: Seq<Seq<char>>| self.entry_at(p) is Some,
            |p: Seq<Seq<char>>| self.entry_at(p).unwrap(),
        )
    }

    /// What a path leads to, in terms of the model.
    pub proof fn lemma_view(self, path: Seq<Seq<char>>)
        ensures
            self@.contains_key(path) <==> self.entry_at(path) is Some,
            self@.contains_key(path) ==> self.entry_at(path) == Some(self@[path]),
            self.is_dir(path) <==> self@.contains_key(path) && self@[path] == Node::Dir,
    {
    }

    /// In a sorted directory an entry is the child of its own name.
    pub proof fn lemma_child_at(self, i: int)
        requires
            self.sorted(),
            0 <= i < self.entries@.len(),
        ensures
            self.child(self.entries@[i].name()) == Some(self.entries@[i]),
    {
        let name = self.entries@[i].name();
        let j = choose|j: int| 0 <= j < self.entries@.len() && self.entries@[j].name() == name;
        lemma_name_lt_total(self.entries@[i].name(), self.entries@[j].name());
    }

    /// A child is one of the entries, and bears the name it was asked by.
    pub proof fn lemma_child_is_entry(self, name: Seq<char>)
        requires
            self.child(name) is Some,
        ensures
            exists|i: int|
                0 <= i < self.entries@.len() && self.entries@[i] == self.child(name).unwrap()
                    && self.entries@[i].name() == name,
    {
        let j = choose|j: int| 0 <= j < self.entries@.len() && self.entries@[j].name() == name;
        assert(self.entries@[j] == self.child(name).unwrap());
    }

    /// Below a well-formed directory every directory is well-formed.
    pub proof fn lemma_child_wf(self, name: Seq<char>)
        requires
            self.wf(),
        ensures
            self.child(name) matches Some(Entry::Dir(d)) ==> d.wf(),
    {
        if self.child(name) is Some {
            self.lemma_child_is_entry(name);
        }
    }

    /// A directory without entries has no child and nothing below it.
    pub proof fn lemma_empty(self, path: Seq<Seq<char>>)
        requires
            self.entries@.len() == 0,
        ensures
            self.entry_at(path) == if path.len() == 0 {
                Some(Node::Dir)
            } else {
                None
            },
    {
    }

    /// A path leads to a directory exactly where all its segments lead
    /// through directories, and that directory is well-formed.
    pub proof fn lemma_dir_at(self, path: Seq<Seq<char>>)
        ensures
            self.dir_at(path) is Some <==> self.is_dir(path),
            self.dir_at(path) is Some <==> self.matched_len(path) == path.len(),
            self.matched_len(path) <= path.len(),
            self.wf() ==> (self.dir_at(path) matches Some(d) ==> d.wf()),
        decreases path.len(),
    {
        if path.len() > 0 {
            match self.child(path[0]) {
                Some(Entry::Dir(d)) => {
                    d.lemma_dir_at(path.drop_first());
                    if self.wf() {
                        self.lemma_child_wf(path[0]);
                    }
                },
                _ => {},
            }
        }
    }

    /// What `matched_len` counts: the first `k` segments of a path lead to a
    /// directory exactly where `k` is no more than it.
    pub proof fn lemma_matched_len(self, path: Seq<Seq<char>>, k: int)
        requires
            0 <= k <= path.len(),
        ensures
            self.is_dir(path.take(k)) <==> k <= self.matched_len(path),
        decreases path.len(),
    {
        if k == 0 {
            assert(path.take(0).len() == 0);
        } else {
            let first = path.take(k);
            assert(first[0] == path[0]);
            assert(first.drop_first() =~= path.drop_first().take(k - 1));
            match self.child(path[0]) {
                Some(Entry::Dir(d)) => {
                    d.lemma_matched_len(path.drop_first(), k - 1);
                },
                _ => {},
            }
        }
    }

    /// What a path of at least one segment leads to is decided by the entries
    /// of the directory that the path without its last segment leads to.
    pub proof fn lemma_entry_at_last(self, path: Seq<Seq<char>>)
        requires
            path.len() > 0,
        ensures
            match self.dir_at(path.drop_last()) {
                None => {
                    &&& self.entry_at(path) is None
                    &&& self.dir_at(path) is None
                    &&& self.matched_len(path) == self.matched_len(path.drop_last())
                },
                Some(d) => match d.child(path.last()) {
                    None => {
                        &&& self.entry_at(path) is None
                        &&& self.dir_at(path) is None
                        &&& self.matched_len(path) == path.len() - 1
                    },
                    Some(Entry::File(f)) => {
                        &&& self.entry_at(path) == Some(Node::File(f.content@))
                        &&& self.dir_at(path) is None
                        &&& self.matched_len(path) == path.len() - 1
                    },
                    Some(Entry::Dir(c)) => {
                        &&& self.entry_at(path) == Some(Node::Dir)
                        &&& self.dir_at(path) == Some(c)
                        &&& self.matched_len(path) == path.len()
                    },
                },
            },
        decreases path.len(),
    {
        let parent = path.drop_last();
        if path.len() == 1 {
            let rest = path.drop_first();
            assert(parent.len() == 0);
            assert(path.last() == path[0]);
            assert(rest.len() == 0);
            assert(self.dir_at(parent) == Some(self));
            if let Some(Entry::Dir(c)) = self.child(path[0]) {
                assert(c.entry_at(rest) == Some(Node::Dir));
                assert(c.dir_at(rest) == Some(c));
                assert(c.matched_len(rest) == 0);
            }
        } else {
            assert(parent[0] == path[0]);
            assert(parent.drop_first() =~= path.drop_first().drop_last());
            assert(path.drop_first().last() == path.last());
            match self.child(path[0]) {
                Some(Entry::Dir(d)) => {
                    d.lemma_entry_at_last(path.drop_first());
                },
                _ => {},
            }
        }
    }

    /// What lies below the directory that `path` leads to is what lies below
    /// `path`: a path that goes on from there leads to what it leads to from
    /// that directory.
    pub proof fn lemma_subtree(self, path: Seq<Seq<char>>, q: Seq<Seq<char>>)
        requires
            self.dir_at(path) is Some,
        ensures
            self.entry_at(path + q) == self.dir_at(path).unwrap().entry_at(q),
        decreases path.len(),
    {
        if path.len() == 0 {
            assert(path + q =~= q);
        } else {
            assert((path + q)[0] == path[0]);
            assert((path + q).drop_first() =~= path.drop_first() + q);
            match self.child(path[0]) {
                Some(Entry::Dir(d)) => {
                    d.lemma_subtree(path.drop_first(), q);
                },
                _ => {},
            }
        }
    }

    /// Where a path leads nowhere, no path below it leads anywhere.
    pub proof fn lemma_nothing_below(self, path: Seq<Seq<char>>, q: Seq<Seq<char>>)
        requires
            under(path, q),
            self.entry_at(path) is None,
        ensures
            self.entry_at(q) is None,
        decreases path.len(),
    {
        assert(q.take(path.len() as int)[0] == q[0]);
        lemma_under_step(path, q);
        match self.child(path[0]) {
            Some(Entry::Dir(d)) => {
                d.lemma_nothing_below(path.drop_first(), q.drop_first());
            },
            _ => {},
        }
    }

    /// Nothing lies below a file: where a path leads to a file, no longer
    /// path that starts with it leads anywhere.
    pub proof fn lemma_file_is_leaf(self, path: Seq<Seq<char>>, q: Seq<Seq<char>>)
        requires
            under(path, q),
            q.len() > path.len(),
            self.entry_at(path) matches Some(Node::File(_)),
        ensures
            self.entry_at(q) is None,
        decreases path.len(),
    {
        assert(q.take(path.len() as int)[0] == q[0]);
        lemma_under_step(path, q);
        match self.child(path[0]) {
            Some(Entry::Dir(d)) => {
                d.lemma_file_is_leaf(path.drop_first(), q.drop_first());
            },
            _ => {},
        }
    }

    /// The children of a directory into which `e` was put at its place in
    /// the order: `e` under its name, and the others as before.
    pub proof fn lemma_insert(self, after: Directory, i: int, e: Entry)
        requires
            self.sorted(),
            0 <= i <= self.entries@.len(),
            after.entries@ == self.entries@.insert(i, e),
            forall|k: int| 0 <= k < i ==> name_lt(self.entries@[k].name(), e.name()),
            forall|k: int|
                i <= k < self.entries@.len() ==> name_lt(e.name(), self.entries@[k].name()),
        ensures
            after.sorted(),
            forall|name: Seq<char>| #[trigger]
                after.child(name) == if name == e.name() {
                    Some(e)
                } else {
                    self.child(name)
                },
    {
        assert forall|name: Seq<char>| #[trigger]
            after.child(name) == if name == e.name() {
                Some(e)
            } else {
                self.child(name)
            } by {
            if name == e.name() {
                after.lemma_child_at(i);
            } else if self.child(name) is Some {
                self.lemma_child_is_entry(name);
                let k = choose|k: int|
                    0 <= k < self.entries@.len() && self.entries@[k] == self.child(name).unwrap()
                        && self.entries@[k].name() == name;
                if k < i {
                    after.lemma_child_at(k);
                } else {
                    after.lemma_child_at(k + 1);
                }
            } else {
                if after.child(name) is Some {
                    after.lemma_child_is_entry(name);
                    let m = choose|m: int|
                        0 <= m < after.entries@.len() && after.entries@[m] == after.child(
                            name,
                        ).unwrap() && after.entries@[m].name() == name;
                    if m < i {
                        assert(self.entries@[m].name() == name);
                    } else {
                        assert(self.entries@[m - 1].name() == name);
                    }
                }
            }
        }
    }

    /// The children of a directory in which the directory at `i` was replaced
    /// by one of the same name: that one under its name, and the others as
    /// before.
    pub proof fn lemma_replace(self, after: Directory, i: int, d: Directory)
        requires
            self.sorted(),
            0 <= i < self.entries@.len(),
            self.entries@[i].name() == d.name@,
            after.entries@ == self.entries@.update(i, Entry::Dir(d)),
        ensures
            after.sorted(),
            forall|name: Seq<char>| #[trigger]
                after.child(name) == if name == d.name@ {
                    Some(Entry::Dir(d))
                } else {
                    self.child(name)
                },
    {
        assert(after.sorted()) by {
            assert forall|a: int, b: int| 0 <= a < b < after.entries@.len() implies name_lt(
                #[trigger] after.entries@[a].name(),
                #[trigger] after.entries@[b].name(),
            ) by {
                assert(after.entries@[a].name() == self.entries@[a].name());
                assert(after.entries@[b].name() == self.entries@[b].name());
            }
        }
        assert forall|name: Seq<char>| #[trigger]
            after.child(name) == if name == d.name@ {
                Some(Entry::Dir(d))
            } else {
                self.child(name)
            } by {
            if name == d.name@ {
                after.lemma_child_at(i);
            } else if self.child(name) is Some {
                self.lemma_child_is_entry(name);
                let k = choose|k: int|
                    0 <= k < self.entries@.len() && self.entries@[k] == self.child(name).unwrap()
                        && self.entries@[k].name() == name;
                after.lemma_child_at(k);
            } else {
                if after.child(name) is Some {
                    after.lemma_child_is_entry(name);
                    let m = choose|m: int|
                        0 <= m < after.entries@.len() && after.entries@[m] == after.child(
                            name,
                        ).unwrap() && after.entries@[m].name() == name;
                    assert(self.entries@[m].name() == name);
                }
            }
        }
    }

    /// The children of a directory from which the entry at `i` was taken: none
    /// under its name, and the others as before.
    pub proof fn lemma_remove(self, after: Directory, i: int)
        requires
            self.sorted(),
            0 <= i < self.entries@.len(),
            after.entries@ == self.entries@.remove(i),
        ensures
            after.sorted(),
            forall|name: Seq<char>| #[trigger]
                after.child(name) == if name == self.entries@[i].name() {
                    None
                } else {
                    self.child(name)
                },
    {
        assert(after.sorted()) by {
            assert forall|a: int, b: int| 0 <= a < b < after.entries@.len() implies name_lt(
                #[trigger] after.entries@[a].name(),
                #[trigger] after.entries@[b].name(),
            ) by {
                let a0 = if a < i {
                    a
                } else {
                    a + 1
                };
                let b0 = if b < i {
                    b
                } else {
                    b + 1
                };
                assert(after.entries@[a] == self.entries@[a0]);
                assert(after.entries@[b] == self.entries@[b0]);
            }
        }
        assert forall|name: Seq<char>| #[trigger]
            after.child(name) == if name == self.entries@[i].name() {
                None
            } else {
                self.child(name)
            } by {
            if after.child(name) is Some {
                after.lemma_child_is_entry(name);
                let m = choose|m: int|
                    0 <= m < after.entries@.len() && after.entries@[m] == after.child(
                        name,
                    ).unwrap() && after.entries@[m].name() == name;
                let m0 = if m < i {
                    m
                } else {
                    m + 1
                };
                assert(after.entries@[m] == self.entries@[m0]);
                self.lemma_child_at(m0);
                lemma_name_lt_total(self.entries@[i].name(), self.entries@[m0].name());
            } else if name != self.entries@[i].name() && self.child(name) is Some {
                self.lemma_child_is_entry(name);
                let k = choose|k: int|
                    0 <= k < self.entries@.len() && self.entries@[k] == self.child(name).unwrap()
                        && self.entries@[k].name() == name;
                if k < i {
                    assert(after.entries@[k] == self.entries@[k]);
                    after.lemma_child_at(k);
                } else {
                    assert(after.entries@[k - 1] == self.entries@[k]);
                    after.lemma_child_at(k - 1);
                }
            }
        }
    }

    /// An empty directory of the given name.
    pub fn new(name: String) -> (res: Directory)
        ensures
            res.wf(),
            res.name == name,
            res.entries@.len() == 0,
    {
        Directory { name, entries: Vec::new() }
    }

    /// Seeks `name` among the entries.  `Ok(i)` says that entry `i` bears it;
    /// `Err(i)` says that no entry does, and that an entry of that name would
    /// stand at index `i`.
    pub fn position(&self, name: &str) -> (res: Result<usize, usize>)
        requires
            self.sorted(),
        ensures
            match res {
                Ok(i) => {
                    &&& i < self.entries@.len()
                    &&& self.entries@[i as int].name() == name@
                    &&& self.child(name@) == Some(self.entries@[i as int])
                },
                Err(i) => {
                    &&& i <= self.entries@.len()
                    &&& self.child(name@) is None
                    &&& forall|k: int| 0 <= k < i ==> name_lt(self.entries@[k].name(), name@)
                    &&& forall|k: int|
                        i <= k < self.entries@.len() ==> name_lt(name@, self.entries@[k].name())
                },
            },
    {
        let mut lo: usize = 0;
        let mut hi: usize = self.entries.len();
        while lo < hi
            invariant
                self.sorted(),
                lo <= hi <= self.entries@.len(),
                forall|k: int| 0 <= k < lo ==> name_lt(self.entries@[k].name(), name@),
                forall|k: int|
                    hi <= k < self.entries@.len() ==> name_lt(name@, self.entries@[k].name()),
            decreases hi - lo,
        {
            let mid: usize = lo + (hi - lo) / 2;
            let here = self.entries[mid].name_str();
            match name_order(here, name) {
                NameOrder::Same => {
                    proof {
                        self.lemma_child_at(mid as int);
                    }
                    return Ok(mid);
                },
                NameOrder::Before => {
                    proof {
                        assert forall|k: int| 0 <= k < mid + 1 implies name_lt(
                            self.entries@[k].name(),
                            name@,
                        ) by {
                            if k < mid {
                                lemma_name_lt_transitive(self.entries@[k].name(), here@, name@);
                            }
                        }
                    }
                    lo = mid + 1;
                },
                NameOrder::After => {
                    proof {
                        assert forall|k: int| mid <= k < self.entries@.len() implies name_lt(
                            name@,
                            self.entries@[k].name(),
                        ) by {
                            if k > mid {
                                lemma_name_lt_transitive(name@, here@, self.entries@[k].name());
                            }
                        }
                    }
                    hi = mid;
                },
            }
        }
        proof {
            if self.child(name@) is Some {
                self.lemma_child_is_entry(name@);
                let k = choose|k: int|
                    0 <= k < self.entries@.len() && self.entries@[k].name() == name@;
                lemma_name_lt_total(self.entries@[k].name(), name@);
            }
        }
        Err(lo)
    }

    /// Walks from this directory along the first `upto` segments.
    pub fn walk_to(&self, segs: &[String], upto: usize) -> (res: Result<&Directory, FsError>)
        requires
            self.wf(),
            upto <= segs@.len(),
        ensures
            match res {
                Ok(d) => self.dir_at(path_of(segs@).take(upto as int)) == Some(*d) && d.wf(),
                Err(e) => {
                    &&& self.dir_at(path_of(segs@).take(upto as int)) is None
                    &&& e == FsError::NotFound {
                        matched: self.matched_len(path_of(segs@).take(upto as int)) as usize,
                    }
                },
            },
    {
        let ghost target = path_of(segs@).take(upto as int);
        let mut cur: &Directory = self;
        let mut i: usize = 0;
        proof {
            assert(target.skip(0) =~= target);
        }
        while i < upto
            invariant
                i <= upto <= segs@.len(),
                cur.wf(),
                target == path_of(segs@).take(upto as int),
                self.dir_at(target) == cur.dir_at(target.skip(i as int)),
                self.matched_len(target) == i + cur.matched_len(target.skip(i as int)),
            decreases upto - i,
        {
            proof {
                assert(target.skip(i as int)[0] == segs@[i as int]@);
                assert(target.skip(i as int).drop_first() =~= target.skip(i + 1));
                cur.lemma_child_wf(segs@[i as int]@);
            }
            match cur.position(segs[i].as_str()) {
                Ok(j) => match &cur.entries[j] {
                    Entry::Dir(d) => {
                        cur = d;
                    },
                    Entry::File(_) => {
                        return Err(FsError::NotFound { matched: i });
                    },
                },
                Err(_) => {
                    return Err(FsError::NotFound { matched: i });
                },
            }
            i = i + 1;
        }
        Ok(cur)
    }

    /// Finds the directory that `segments` lead to from this directory, or
    /// reports how many of the leading segments led through directories.
    pub fn lookup(&self, segments: &[String]) -> (res: Result<&Directory, FsError>)
        requires
            self.wf(),
        ensures
            res is Ok <==> self.is_dir(path_of(segments@)),
            match res {
                Ok(d) => self.dir_at(path_of(segments@)) == Some(*d) && d.wf(),
                Err(e) => e == FsError::NotFound {
                    matched: self.matched_len(path_of(segments@)) as usize,
                },
            },
    {
        proof {
            assert(path_of(segments@).take(segments@.len() as int) =~= path_of(segments@));
            self.lemma_dir_at(path_of(segments@));
        }
        self.walk_to(segments, segments.len())
    }
}

} // verus!
