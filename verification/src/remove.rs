//! Removing entries: a file, an empty directory, or a directory with all
//! that lies below it.
//!
//! Whether the removal is allowed is decided before the tree is touched, so a
//! refusal leaves the tree exactly as it was; and what is removed leaves in
//! one step, with the entry that holds it.

use vstd::prelude::*;
use vstd::string::*;
use crate::error::FsError;
use crate::path::path_of;
use crate::tree::{lemma_under_step, under, DeleteOption, Directory, Entry, Node};

verus! {

/// The tree without `path` and all that lies below it.
pub open spec fn pruned(tree: Map<Seq<Seq<char>>, Node>, path: Seq<Seq<char>>) -> Map<
    Seq<Seq<char>>,
    Node,
> {
    Map::new(
        |q: Seq<Seq<char>>| tree.contains_key(q) && !under(path, q),
        |q: Seq<Seq<char>>| tree[q],
    )
}

impl Directory {
    /// Whether `path` leads to a directory that holds nothing.
    pub open spec fn is_empty_dir(self, path: Seq<Seq<char>>) -> bool {
        &&& self.is_dir(path)
        &&& forall|name: Seq<char>| self.entry_at(#[trigger] path.push(name)) is None
    }

    /// Whether what `path` leads to can be removed, and if not, why not.
    pub open spec fn remove_outcome(self, path: Seq<Seq<char>>, recursive: bool) -> Result<
        (),
        FsError,
    > {
        if path.len() == 0 {
            Err(FsError::InvalidArgument)
        } else {
            match self.entry_at(path) {
                None => Err(FsError::NotFound { matched: self.matched_len(path) as usize }),
                Some(Node::File(_)) => Ok(()),
                Some(Node::Dir) => if recursive || self.is_empty_dir(path) {
                    Ok(())
                } else {
                    Err(FsError::NotEmpty)
                },
            }
        }
    }

    /// A directory that `path` leads to holds nothing exactly where it has no
    /// entries.
    pub proof fn lemma_empty_dir(self, path: Seq<Seq<char>>)
        requires
            self.wf(),
            self.dir_at(path) is Some,
        ensures
            self.is_empty_dir(path) <==> self.dir_at(path).unwrap().entries@.len() == 0,
    {
        let d = self.dir_at(path).unwrap();
        self.lemma_dir_at(path);
        if d.entries@.len() == 0 {
            assert forall|name: Seq<char>| self.entry_at(#[trigger] path.push(name)) is None by {
                let q = path.push(name);
                assert(q.drop_last() =~= path);
                self.lemma_entry_at_last(q);
            }
        } else {
            let name = d.entries@[0].name();
            let q = path.push(name);
            assert(q.drop_last() =~= path);
            assert(q.last() == name);
            self.lemma_entry_at_last(q);
            d.lemma_child_at(0);
        }
    }

    /// Without the recursive flag a directory that holds an entry is not
    /// removed: the removal is refused as `NotEmpty`.
    pub proof fn lemma_rm_not_empty(self, path: Seq<Seq<char>>, name: Seq<char>)
        requires
            path.len() > 0,
            self.is_dir(path),
            self.entry_at(path.push(name)) is Some,
        ensures
            self.remove_outcome(path, false) == Err::<(), FsError>(FsError::NotEmpty),
    {
    }

    /// After a removal at `path` no path at or below it leads anywhere, and
    /// every other path leads to what it led to before.
    pub proof fn lemma_rm_removes_all(
        self,
        removed: Directory,
        path: Seq<Seq<char>>,
        q: Seq<Seq<char>>,
    )
        requires
            removed@ == pruned(self@, path),
        ensures
            under(path, q) ==> removed.entry_at(q) is None && !removed.is_dir(q)
                && removed.file_outcome(q) is Err,
            !under(path, q) ==> removed.entry_at(q) == self.entry_at(q),
    {
        removed.lemma_view(q);
        self.lemma_view(q);
    }

    /// A directory that was just made can be removed without the recursive
    /// flag; after that its path leads nowhere, so that a lookup of it finds
    /// nothing, and the tree is what it was before the directory was made.
    pub proof fn lemma_mkdir_then_rm(
        self,
        made: Directory,
        removed: Directory,
        path: Seq<Seq<char>>,
    )
        requires
            self.create_outcome(path) is Ok,
            made@ == self@.insert(path, Node::Dir),
            removed@ == pruned(made@, path),
        ensures
            made.remove_outcome(path, false) is Ok,
            removed.entry_at(path) is None,
            !removed.is_dir(path),
            removed@ == self@,
    {
        assert(under(path, path)) by {
            assert(path.take(path.len() as int) =~= path);
        }
        made.lemma_view(path);
        removed.lemma_view(path);
        assert forall|name: Seq<char>| made.entry_at(#[trigger] path.push(name)) is None by {
            let q = path.push(name);
            assert(q.take(path.len() as int) =~= path);
            self.lemma_nothing_below(path, q);
            made.lemma_view(q);
            self.lemma_view(q);
        }
        assert(removed@ =~= self@) by {
            assert forall|q: Seq<Seq<char>>| removed@.contains_key(q) <==> self@.contains_key(
                q,
            ) by {
                if under(path, q) {
                    self.lemma_nothing_below(path, q);
                }
            }
        }
    }

    /// Whether what `segs` lead to can be removed, and if not, why not.
    fn check_remove(&self, segs: &[String], recursive: bool) -> (res: Result<(), FsError>)
        requires
            self.wf(),
        ensures
            res == self.remove_outcome(path_of(segs@), recursive),
    {
        let n = segs.len();
        if n == 0 {
            return Err(FsError::InvalidArgument);
        }
        let ghost path = path_of(segs@);
        proof {
            assert(path.take(n - 1) =~= path.drop_last());
            assert(path.last() == segs@[n - 1]@);
            self.lemma_entry_at_last(path);
            self.lemma_dir_at(path);
        }
        match self.walk_to(segs, n - 1) {
            Err(e) => Err(e),
            Ok(parent) => match parent.position(segs[n - 1].as_str()) {
                Err(_) => Err(FsError::NotFound { matched: n - 1 }),
                Ok(i) => match &parent.entries[i] {
                    Entry::File(_) => Ok(()),
                    Entry::Dir(d) => {
                        proof {
                            self.lemma_empty_dir(path);
                        }
                        if recursive || d.entries.len() == 0 {
                            Ok(())
                        } else {
                            Err(FsError::NotEmpty)
                        }
                    },
                },
            },
        }
    }

    /// Takes out what the segments from `depth` on lead to, seen from this
    /// directory, once it is known that they lead to something.
    fn remove_at(&mut self, segs: &[String], depth: usize)
        requires
            old(self).wf(),
            depth < segs@.len(),
            old(self).entry_at(path_of(segs@).skip(depth as int)) is Some,
        ensures
            final(self).wf(),
            final(self).name == old(self).name,
            final(self)@ == pruned(old(self)@, path_of(segs@).skip(depth as int)),
        decreases segs@.len() - depth,
    {
        let ghost rest = path_of(segs@).skip(depth as int);
        let ghost below = path_of(segs@).skip(depth + 1);
        let ghost before = *self;
        let n = segs.len();
        let is_last = depth + 1 == n;
        proof {
            assert(rest[0] == segs@[depth as int]@);
            assert(rest.drop_first() =~= below);
            self.lemma_child_wf(rest[0]);
        }
        match self.position(segs[depth].as_str()) {
            Err(_) => {},
            Ok(i) => {
                if is_last {
                    self.entries.remove(i);
                    proof {
                        before.lemma_remove(*self, i as int);
                        assert(self.wf()) by {
                            assert forall|k: int| 0 <= k < self.entries@.len() implies (
                            #[trigger] self.entries@[k] matches Entry::Dir(d) ==> d.wf()) by {
                                if k < i {
                                    assert(self.entries@[k] == before.entries@[k]);
                                } else {
                                    assert(self.entries@[k] == before.entries@[k + 1]);
                                }
                            }
                        }
                        assert forall|q: Seq<Seq<char>>|
                            self.entry_at(q) == (if under(rest, q) {
                                None
                            } else {
                                before.entry_at(q)
                            }) by {
                            if q.len() > 0 && q[0] == rest[0] {
                                assert(q.take(1) =~= rest);
                            } else if q.len() > 0 {
                                assert(q.take(1)[0] == q[0]);
                            }
                        }
                        assert(self@ =~= pruned(before@, rest));
                    }
                } else {
                    match &mut self.entries[i] {
                        Entry::Dir(d) => {
                            let ghost child = *d;
                            d.remove_at(segs, depth + 1);
                            proof {
                                let after = *d;
                                assert(self.entries@ == before.entries@.update(
                                    i as int,
                                    Entry::Dir(after),
                                ));
                                before.lemma_replace(*self, i as int, after);
                                assert(self.wf()) by {
                                    assert forall|k: int|
                                        0 <= k < self.entries@.len() implies (
                                    #[trigger] self.entries@[k] matches Entry::Dir(x)
                                        ==> x.wf()) by {
                                        if k != i {
                                            assert(self.entries@[k] == before.entries@[k]);
                                        }
                                    }
                                }
                                assert forall|q: Seq<Seq<char>>|
                                    self.entry_at(q) == (if under(rest, q) {
                                        None
                                    } else {
                                        before.entry_at(q)
                                    }) by {
                                    if q.len() > 0 && q[0] == rest[0] {
                                        let tail = q.drop_first();
                                        lemma_under_step(rest, q);
                                        assert(after@.contains_key(tail) <==> (
                                        child@.contains_key(tail) && !under(below, tail)));
                                        if after@.contains_key(tail) {
                                            assert(after@[tail] == child@[tail]);
                                        }
                                    } else if rest.len() <= q.len() {
                                        assert(q.take(rest.len() as int)[0] == q[0]);
                                    }
                                }
                                assert(self@ =~= pruned(before@, rest));
                            }
                        },
                        Entry::File(_) => {},
                    }
                }
            },
        }
    }

    /// Removes what `segments` lead to: a file, an empty directory, or, with
    /// the flag `R`, a directory with all that lies below it.  The directory
    /// that the segments start from cannot be removed.  A refusal leaves the
    /// tree as it was.
    pub fn rm(&mut self, segments: &[String], flag: Option<DeleteOption>) -> (res: Result<
        (),
        FsError,
    >)
        requires
            old(self).wf(),
        ensures
            final(self).wf(),
            final(self).name == old(self).name,
            res == old(self).remove_outcome(path_of(segments@), flag is Some),
            res is Ok ==> final(self)@ == pruned(old(self)@, path_of(segments@)),
            res is Err ==> *final(self) == *old(self),
    {
        let recursive = match flag {
            Some(DeleteOption::R) => true,
            None => false,
        };
        match self.check_remove(segments, recursive) {
            Err(e) => Err(e),
            Ok(()) => {
                proof {
                    assert(path_of(segments@).skip(0) =~= path_of(segments@));
                }
                self.remove_at(segments, 0);
                Ok(())
            },
        }
    }
}

} // verus!
