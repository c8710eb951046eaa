//! Making entries: directories and files.
//!
//! Whether an entry can be made is decided before the tree is touched, so a
//! refusal leaves the tree exactly as it was.
//!
//! The tree takes names as they come and does not ask that a segment be
//! canonical.  A session hands it canonical segments only.

use vstd::prelude::*;
use vstd::string::*;
use crate::error::FsError;
use crate::path::path_of;
use crate::tree::{Directory, Entry, FileNode, Node};

verus! {

/// What a new entry with the given content is: a directory where there is no
/// content, and else a file that holds it.
pub open spec fn new_node(content: Option<Vec<u8>>) -> Node {
    match content {
        None => Node::Dir,
        Some(bytes) => Node::File(bytes@),
    }
}

impl Directory {
    /// Whether an entry can be made at `path`, and if not, why not.
    pub open spec fn create_outcome(self, path: Seq<Seq<char>>) -> Result<(), FsError> {
        if path.len() == 0 {
            Err(FsError::AlreadyExists)
        } else if !self.is_dir(path.drop_last()) {
            Err(FsError::NotFound { matched: self.matched_len(path) as usize })
        } else if self.entry_at(path) is Some {
            Err(FsError::AlreadyExists)
        } else {
            Ok(())
        }
    }

    /// Whether an entry can be made at `segs`, and if not, why not.
    fn check_create(&self, segs: &[String]) -> (res: Result<(), FsError>)
        requires
            self.wf(),
        ensures
            res == self.create_outcome(path_of(segs@)),
    {
        let n = segs.len();
        if n == 0 {
            return Err(FsError::AlreadyExists);
        }
        let ghost path = path_of(segs@);
        proof {
            assert(path.take(n - 1) =~= path.drop_last());
            assert(path.last() == segs@[n - 1]@);
            self.lemma_entry_at_last(path);
            self.lemma_dir_at(path.drop_last());
            self.lemma_dir_at(path);
        }
        match self.walk_to(segs, n - 1) {
            Err(e) => Err(e),
            Ok(parent) => match parent.position(segs[n - 1].as_str()) {
                Ok(_) => Err(FsError::AlreadyExists),
                Err(_) => Ok(()),
            },
        }
    }

    /// Makes the entry for the segments from `depth` on, seen from this
    /// directory, once it is known that it can be made.
    fn insert_at(&mut self, segs: &[String], depth: usize, content: Option<Vec<u8>>)
        requires
            old(self).wf(),
            depth < segs@.len(),
            old(self).create_outcome(path_of(segs@).skip(depth as int)) is Ok,
        ensures
            final(self).wf(),
            final(self).name == old(self).name,
            final(self)@ == old(self)@.insert(
                path_of(segs@).skip(depth as int),
                new_node(content),
            ),
        decreases segs@.len() - depth,
    {
        let ghost rest = path_of(segs@).skip(depth as int);
        let ghost below = path_of(segs@).skip(depth + 1);
        let ghost before = *self;
        let n = segs.len();
        let is_last = depth + 1 == n;
        proof {
            assert(rest[0] == segs@[depth as int]@);
            assert(rest.drop_first() =~= below);
            if !is_last {
                assert(rest.drop_last()[0] == rest[0]);
                assert(rest.drop_last().drop_first() =~= below.drop_last());
            } else {
                assert(rest.drop_last().len() == 0);
            }
            self.lemma_child_wf(rest[0]);
            if let Some(Entry::Dir(d)) = self.child(rest[0]) {
                if is_last {
                    assert(d.entry_at(below) == Some(Node::Dir));
                }
            }
        }
        match self.position(segs[depth].as_str()) {
            Err(i) => {
                if is_last {
                    let entry = match content {
                        None => Entry::Dir(Directory::new(segs[depth].clone())),
                        Some(bytes) => Entry::File(
                            FileNode { name: segs[depth].clone(), content: bytes },
                        ),
                    };
                    self.entries.insert(i, entry);
                    proof {
                        before.lemma_insert(*self, i as int, entry);
                        assert(self.wf()) by {
                            assert forall|k: int| 0 <= k < self.entries@.len() implies (
                            #[trigger] self.entries@[k] matches Entry::Dir(d) ==> d.wf()) by {
                                if k < i {
                                    assert(self.entries@[k] == before.entries@[k]);
                                } else if k > i {
                                    assert(self.entries@[k] == before.entries@[k - 1]);
                                }
                            }
                        }
                        assert forall|q: Seq<Seq<char>>|
                            self.entry_at(q) == (if q == rest {
                                Some(new_node(content))
                            } else {
                                before.entry_at(q)
                            }) by {
                            if q.len() > 0 && q[0] == rest[0] {
                                if q.len() == 1 {
                                    assert(q =~= rest);
                                }
                                if let Entry::Dir(d) = entry {
                                    d.lemma_empty(q.drop_first());
                                }
                            }
                        }
                        assert(self@ =~= before@.insert(rest, new_node(content)));
                    }
                }
            },
            Ok(i) => {
                if !is_last {
                    match &mut self.entries[i] {
                        Entry::Dir(d) => {
                            let ghost child = *d;
                            d.insert_at(segs, depth + 1, content);
                            proof {
                                let after = *d;
                                assert(self.entries@ == before.entries@.update(
                                    i as int,
                                    Entry::Dir(after),
                                ));
                                before.lemma_replace(*self, i as int, after);
                                assert(self.wf()) by {
                                    assert forall|k: int|
                                        0 <= k < self.entries@.len() implies (
                                    #[trigger] self.entries@[k] matches Entry::Dir(x)
                                        ==> x.wf()) by {
                                        if k != i {
                                            assert(self.entries@[k] == before.entries@[k]);
                                        }
                                    }
                                }
                                assert forall|q: Seq<Seq<char>>|
                                    self.entry_at(q) == (if q == rest {
                                        Some(new_node(content))
                                    } else {
                                        before.entry_at(q)
                                    }) by {
                                    if q.len() > 0 && q[0] == rest[0] {
                                        let tail = q.drop_first();
                                        assert(q =~= seq![q[0]] + tail);
                                        assert(rest =~= seq![rest[0]] + below);
                                        assert(after@.contains_key(tail) <==> (tail == below
                                            || child@.contains_key(tail)));
                                        if tail == below {
                                            assert(after@[tail] == new_node(content));
                                        } else {
                                            if child@.contains_key(tail) {
                                                assert(after@[tail] == child@[tail]);
                                            }
                                        }
                                    }
                                }
                                assert(self@ =~= before@.insert(rest, new_node(content)));
                            }
                        },
                        Entry::File(_) => {},
                    }
                }
            },
        }
    }

    /// Makes an empty directory at `segments`.  The directory that is to hold
    /// it must exist, and the name must be free there; a refusal leaves the
    /// tree as it was.
    pub fn mkdir(&mut self, segments: &[String]) -> (res: Result<(), FsError>)
        requires
            old(self).wf(),
        ensures
            final(self).wf(),
            final(self).name == old(self).name,
            res == old(self).create_outcome(path_of(segments@)),
            res is Ok ==> final(self)@ == old(self)@.insert(path_of(segments@), Node::Dir),
            res is Err ==> *final(self) == *old(self),
    {
        match self.check_create(segments) {
            Err(e) => Err(e),
            Ok(()) => {
                proof {
                    assert(path_of(segments@).skip(0) =~= path_of(segments@));
                }
                self.insert_at(segments, 0, None);
                Ok(())
            },
        }
    }

    /// Makes a file at `segments` that holds `content`.  The directory that is
    /// to hold it must exist, and the name must be free there; a refusal
    /// leaves the tree as it was.
    pub fn create_file(&mut self, segments: &[String], content: Vec<u8>) -> (res: Result<
        (),
        FsError,
    >)
        requires
            old(self).wf(),
        ensures
            final(self).wf(),
            final(self).name == old(self).name,
            res == old(self).create_outcome(path_of(segments@)),
            res is Ok ==> final(self)@ == old(self)@.insert(
                path_of(segments@),
                Node::File(content@),
            ),
            res is Err ==> *final(self) == *old(self),
    {
        match self.check_create(segments) {
            Err(e) => Err(e),
            Ok(()) => {
                proof {
                    assert(path_of(segments@).skip(0) =~= path_of(segments@));
                }
                self.insert_at(segments, 0, Some(content));
                Ok(())
            },
        }
    }
}

} // verus!
