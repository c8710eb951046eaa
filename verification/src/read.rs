//! Reading the tree: listing a directory, and the content of files, whole,
//! several in a row, or by its first or last lines.

use vstd::prelude::*;
use vstd::string::*;
use vstd::utf8::*;
use crate::error::FsError;
use crate::name::name_lt;
use crate::path::path_of;
use crate::text::{decode, head_of, head_text, tail_of, tail_text};
use crate::tree::{Directory, Entry, FileNode, FileType, Node};

verus! {

/// The paths that a run of segment lists holds.
pub open spec fn paths_of(paths: Seq<Vec<String>>) -> Seq<Seq<Seq<char>>> {
    paths.map_values(|p: Vec<String>| path_of(p@))
}

/// A listing as plain values.
pub open spec fn listing_of(out: Seq<(String, FileType)>) -> Seq<(Seq<char>, FileType)> {
    out.map_values(|e: (String, FileType)| (e.0@, e.1))
}

/// What a read gave, as plain values.
pub open spec fn bytes_of(r: Result<Vec<u8>, FsError>) -> Result<Seq<u8>, FsError> {
    match r {
        Ok(v) => Ok(v@),
        Err(e) => Err(e),
    }
}

/// What a read of text gave, as plain values.
pub open spec fn text_of(r: Result<String, FsError>) -> Result<Seq<char>, FsError> {
    match r {
        Ok(s) => Ok(s@),
        Err(e) => Err(e),
    }
}

/// How many lines are asked for: ten where no number is given.
pub open spec fn line_limit(n_lines: Option<usize>) -> nat {
    match n_lines {
        Some(n) => n as nat,
        None => 10,
    }
}

/// `bytes` in front of what `r` holds, where it holds anything.
pub open spec fn prepend(bytes: Seq<u8>, r: Result<Seq<u8>, FsError>) -> Result<Seq<u8>, FsError> {
    match r {
        Ok(rest) => Ok(bytes + rest),
        Err(e) => Err(e),
    }
}

/// Appends `src` to `out`.
pub fn append_bytes(out: &mut Vec<u8>, src: &[u8])
    ensures
        final(out)@ == old(out)@ + src@,
{
    let mut i: usize = 0;
    while i < src.len()
        invariant
            i <= src@.len(),
            out@ == old(out)@ + src@.take(i as int),
        decreases src@.len() - i,
    {
        out.push(src[i]);
        proof {
            assert(src@.take(i + 1) =~= src@.take(i as int).push(src@[i as int]));
            assert(out@ =~= old(out)@ + src@.take(i + 1));
        }
        i = i + 1;
    }
    proof {
        assert(src@.take(i as int) =~= src@);
    }
}

impl Directory {
    /// What a read of the file at `path` gives: its bytes, or why there are
    /// none to give.
    pub open spec fn file_outcome(self, path: Seq<Seq<char>>) -> Result<Seq<u8>, FsError> {
        match self.entry_at(path) {
            Some(Node::File(bytes)) => Ok(bytes),
            Some(Node::Dir) => Err(FsError::IsADirectory),
            None => Err(FsError::NotFound { matched: self.matched_len(path) as usize }),
        }
    }

    /// What a read of the file at `path` as text gives.  Bytes that are not
    /// well-formed UTF-8 are no text.
    pub open spec fn text_outcome(self, path: Seq<Seq<char>>) -> Result<Seq<char>, FsError> {
        match self.file_outcome(path) {
            Err(e) => Err(e),
            Ok(bytes) => if valid_utf8(bytes) {
                Ok(decode_utf8(bytes))
            } else {
                Err(FsError::InvalidArgument)
            },
        }
    }

    /// What reading the files at `paths` one after the other gives: all their
    /// bytes in the order of the paths, or the failure of the first path that
    /// fails.
    pub open spec fn concat_outcome(self, paths: Seq<Seq<Seq<char>>>) -> Result<Seq<u8>, FsError>
        decreases paths.len(),
    {
        if paths.len() == 0 {
            Ok(Seq::empty())
        } else {
            match self.file_outcome(paths[0]) {
                Err(e) => Err(e),
                Ok(first) => prepend(first, self.concat_outcome(paths.drop_first())),
            }
        }
    }

    /// Whether `out` lists what the directory at `path` holds: every entry
    /// once with its kind, in the strict order of the names.
    pub open spec fn lists(self, path: Seq<Seq<char>>, out: Seq<(Seq<char>, FileType)>) -> bool {
        &&& forall|j: int, k: int|
            0 <= j < k < out.len() ==> name_lt(#[trigger] out[j].0, #[trigger] out[k].0)
        &&& forall|k: int|
            0 <= k < out.len() ==> (self.entry_at(path.push(#[trigger] out[k].0)) matches Some(node)
                && node.kind() == out[k].1)
        &&& forall|name: Seq<char>|
            self.entry_at(#[trigger] path.push(name)) is Some ==> exists|k: int|
                0 <= k < out.len() && out[k].0 == name
    }

    /// Where all paths before `i` lead to files and the one at `i` does not,
    /// reading them all fails as that one does.
    pub proof fn lemma_concat_fails(self, paths: Seq<Seq<Seq<char>>>, i: int)
        requires
            0 <= i < paths.len(),
            forall|k: int| 0 <= k < i ==> self.file_outcome(paths[k]) is Ok,
            self.file_outcome(paths[i]) is Err,
        ensures
            self.concat_outcome(paths) == Err::<Seq<u8>, FsError>(
                self.file_outcome(paths[i])->Err_0,
            ),
        decreases i,
    {
        if i > 0 {
            let rest = paths.drop_first();
            assert(self.file_outcome(paths[0]) is Ok);
            assert forall|k: int| 0 <= k < i - 1 implies self.file_outcome(rest[k]) is Ok by {
                assert(rest[k] == paths[k + 1]);
            }
            assert(rest[i - 1] == paths[i]);
            self.lemma_concat_fails(rest, i - 1);
        }
    }

    /// Lists what the directory at `segments` holds: every entry with its
    /// kind, in the order of the names.
    pub fn ls(&self, segments: &[String]) -> (res: Result<Vec<(String, FileType)>, FsError>)
        requires
            self.wf(),
        ensures
            match res {
                Ok(out) => self.is_dir(path_of(segments@)) && self.lists(
                    path_of(segments@),
                    listing_of(out@),
                ),
                Err(e) => !self.is_dir(path_of(segments@)) && e == FsError::NotFound {
                    matched: self.matched_len(path_of(segments@)) as usize,
                },
            },
    {
        let ghost path = path_of(segments@);
        let d = match self.lookup(segments) {
            Ok(d) => d,
            Err(e) => {
                return Err(e);
            },
        };
        let mut out: Vec<(String, FileType)> = Vec::new();
        let mut i: usize = 0;
        while i < d.entries.len()
            invariant
                i <= d.entries@.len(),
                out@.len() == i,
                forall|k: int|
                    0 <= k < i ==> (#[trigger] out@[k]).0@ == d.entries@[k].name() && out@[k].1
                        == d.entries@[k].node().kind(),
            decreases d.entries@.len() - i,
        {
            let e = &d.entries[i];
            out.push((e.name_str().to_owned(), e.file_type()));
            i = i + 1;
        }
        proof {
            let shown = listing_of(out@);
            assert forall|k: int| 0 <= k < shown.len() implies (self.entry_at(
                path.push(#[trigger] shown[k].0),
            ) matches Some(node) && node.kind() == shown[k].1) by {
                let q = path.push(shown[k].0);
                assert(q.drop_last() =~= path);
                assert(out@[k].0@ == d.entries@[k].name());
                self.lemma_entry_at_last(q);
                d.lemma_child_at(k);
            }
            assert forall|name: Seq<char>|
                self.entry_at(#[trigger] path.push(name)) is Some implies exists|k: int|
                0 <= k < shown.len() && shown[k].0 == name by {
                let q = path.push(name);
                assert(q.drop_last() =~= path);
                self.lemma_entry_at_last(q);
                d.lemma_child_is_entry(name);
                let k = choose|k: int|
                    0 <= k < d.entries@.len() && d.entries@[k] == d.child(name).unwrap()
                        && d.entries@[k].name() == name;
                assert(out@[k].0@ == d.entries@[k].name());
                assert(shown[k].0 == name);
            }
            assert forall|j: int, k: int| 0 <= j < k < shown.len() implies name_lt(
                #[trigger] shown[j].0,
                #[trigger] shown[k].0,
            ) by {
                assert(out@[j].0@ == d.entries@[j].name());
                assert(out@[k].0@ == d.entries@[k].name());
            }
        }
        Ok(out)
    }

    /// Finds the file that `segs` lead to.
    pub fn find_file(&self, segs: &[String]) -> (res: Result<&FileNode, FsError>)
        requires
            self.wf(),
        ensures
            match res {
                Ok(f) => self.file_outcome(path_of(segs@)) == Ok::<Seq<u8>, FsError>(f.content@),
                Err(e) => self.file_outcome(path_of(segs@)) == Err::<Seq<u8>, FsError>(e),
            },
    {
        let n = segs.len();
        if n == 0 {
            return Err(FsError::IsADirectory);
        }
        let ghost path = path_of(segs@);
        proof {
            assert(path.take(n - 1) =~= path.drop_last());
            assert(path.last() == segs@[n - 1]@);
            self.lemma_entry_at_last(path);
        }
        match self.walk_to(segs, n - 1) {
            Err(e) => Err(e),
            Ok(parent) => match parent.position(segs[n - 1].as_str()) {
                Err(_) => Err(FsError::NotFound { matched: n - 1 }),
                Ok(i) => match &parent.entries[i] {
                    Entry::File(f) => Ok(f),
                    Entry::Dir(_) => Err(FsError::IsADirectory),
                },
            },
        }
    }

    /// The bytes of the file at `segments`, exactly as they are stored.
    pub fn cat(&self, segments: &[String]) -> (res: Result<Vec<u8>, FsError>)
        requires
            self.wf(),
        ensures
            bytes_of(res) == self.file_outcome(path_of(segments@)),
    {
        match self.find_file(segments) {
            Err(e) => Err(e),
            Ok(f) => {
                let mut out: Vec<u8> = Vec::new();
                append_bytes(&mut out, f.content.as_slice());
                proof {
                    assert(out@ =~= f.content@);
                }
                Ok(out)
            },
        }
    }

    /// The bytes of the files at `paths`, one after the other with nothing
    /// between them.  Every path is resolved before a byte is read: where one
    /// of them fails, the first failure is the result and nothing is returned.
    pub fn cat_multiple(&self, paths: &[Vec<String>]) -> (res: Result<Vec<u8>, FsError>)
        requires
            self.wf(),
        ensures
            bytes_of(res) == self.concat_outcome(paths_of(paths@)),
    {
        let ghost all = paths_of(paths@);
        let mut files: Vec<&FileNode> = Vec::new();
        let mut i: usize = 0;
        while i < paths.len()
            invariant
                self.wf(),
                i <= paths@.len(),
                all == paths_of(paths@),
                files@.len() == i,
                forall|k: int|
                    0 <= k < i ==> self.file_outcome(all[k]) == Ok::<Seq<u8>, FsError>(
                        (#[trigger] files@[k]).content@,
                    ),
            decreases paths@.len() - i,
        {
            match self.find_file(paths[i].as_slice()) {
                Err(e) => {
                    proof {
                        assert forall|k: int| 0 <= k < i implies self.file_outcome(
                            all[k],
                        ) is Ok by {
                            assert(self.file_outcome(all[k]) == Ok::<Seq<u8>, FsError>(
                                files@[k].content@,
                            ));
                        }
                        self.lemma_concat_fails(all, i as int);
                    }
                    return Err(e);
                },
                Ok(f) => {
                    files.push(f);
                },
            }
            i = i + 1;
        }
        let mut out: Vec<u8> = Vec::new();
        let mut j: usize = 0;
        proof {
            assert(all.skip(0) =~= all);
            assert(prepend(out@, self.concat_outcome(all)) =~= self.concat_outcome(all));
        }
        while j < files.len()
            invariant
                j <= files@.len(),
                files@.len() == all.len(),
                forall|k: int|
                    0 <= k < files@.len() ==> self.file_outcome(all[k]) == Ok::<Seq<u8>, FsError>(
                        (#[trigger] files@[k]).content@,
                    ),
                prepend(out@, self.concat_outcome(all.skip(j as int))) == self.concat_outcome(all),
            decreases files@.len() - j,
        {
            let ghost prev = out@;
            proof {
                assert(all.skip(j as int)[0] == all[j as int]);
                assert(all.skip(j as int).drop_first() =~= all.skip(j + 1));
            }
            append_bytes(&mut out, files[j].content.as_slice());
            proof {
                let first = files@[j as int].content@;
                match self.concat_outcome(all.skip(j + 1)) {
                    Ok(rest) => {
                        assert(prev + (first + rest) =~= (prev + first) + rest);
                    },
                    Err(_) => {},
                }
            }
            j = j + 1;
        }
        proof {
            assert(all.skip(j as int).len() == 0);
            assert(out@ + Seq::<u8>::empty() =~= out@);
        }
        Ok(out)
    }

    /// The first lines of the file at `segments` as text: `n_lines` of them,
    /// ten where no number is given, and the whole text where it has no more.
    pub fn head(&self, segments: &[String], n_lines: Option<usize>) -> (res: Result<
        String,
        FsError,
    >)
        requires
            self.wf(),
        ensures
            text_of(res) == match self.text_outcome(path_of(segments@)) {
                Ok(text) => Ok(head_text(text, line_limit(n_lines))),
                Err(e) => Err(e),
            },
    {
        let f = match self.find_file(segments) {
            Ok(f) => f,
            Err(e) => {
                return Err(e);
            },
        };
        let n: usize = match n_lines {
            Some(n) => n,
            None => 10,
        };
        match decode(f.content.as_slice()) {
            None => Err(FsError::InvalidArgument),
            Some(text) => Ok(head_of(text, n)),
        }
    }

    /// The last lines of the file at `segments` as text: `n_lines` of them,
    /// ten where no number is given, and the whole text where it has no more.
    pub fn tail(&self, segments: &[String], n_lines: Option<usize>) -> (res: Result<
        String,
        FsError,
    >)
        requires
            self.wf(),
        ensures
            text_of(res) == match self.text_outcome(path_of(segments@)) {
                Ok(text) => Ok(tail_text(text, line_limit(n_lines))),
                Err(e) => Err(e),
            },
    {
        let f = match self.find_file(segments) {
            Ok(f) => f,
            Err(e) => {
                return Err(e);
            },
        };
        let n: usize = match n_lines {
            Some(n) => n,
            None => 10,
        };
        match decode(f.content.as_slice()) {
            None => Err(FsError::InvalidArgument),
            Some(text) => Ok(tail_of(text, n)),
        }
    }
}

} // verus!
