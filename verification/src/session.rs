//! A session: one tree with its root, and the current directory from which
//! relative paths are resolved.
//!
//! Every operation takes path strings, resolves them against the current
//! directory, and works on the tree from its root.  The current directory
//! always names a directory that exists; only `change_dir` moves it.

use vstd::prelude::*;
use vstd::string::*;
use crate::error::FsError;
use crate::hits::{is_file_hit, lemma_file_hits_ordered, lemma_tree_hits_sound};
use crate::path::{
    canonical, dot_dot, format_path, is_absolute, lemma_parent_of_root, lemma_path_string_resolves,
    path_of, path_string, resolve, resolved,
};
use crate::read::{bytes_of, line_limit, listing_of, paths_of, text_of};
use crate::remove::pruned;
use crate::search::{match_views, shown, GrepMatch};
use crate::text::{head_text, tail_text};
use crate::tree::{under, DeleteOption, Directory, FileType, Node};

verus! {

/// One virtual filesystem with its current directory.
pub struct VirtualFS {
    current_dir: Vec<String>,
    root: Directory,
}

/// The paths that a run of path strings names from `cwd`.
pub open spec fn resolved_all(paths: Seq<String>, cwd: Seq<Seq<char>>) -> Seq<Seq<Seq<char>>> {
    paths.map_values(|p: String| resolved(p@, cwd))
}

/// Whether the segments `a` are the first segments of `b`.
fn leads_to(a: &[String], b: &[String]) -> (res: bool)
    ensures
        res == under(path_of(a@), path_of(b@)),
{
    if a.len() > b.len() {
        return false;
    }
    let mut i: usize = 0;
    while i < a.len()
        invariant
            i <= a@.len() <= b@.len(),
            path_of(b@).take(i as int) == path_of(a@).take(i as int),
        decreases a@.len() - i,
    {
        if a[i] != b[i] {
            proof {
                assert(path_of(b@).take(a@.len() as int)[i as int] == b@[i as int]@);
                assert(path_of(a@)[i as int] == a@[i as int]@);
            }
            return false;
        }
        proof {
            assert(path_of(b@).take(i + 1) =~= path_of(b@).take(i as int).push(b@[i as int]@));
            assert(path_of(a@).take(i + 1) =~= path_of(a@).take(i as int).push(a@[i as int]@));
        }
        i = i + 1;
    }
    proof {
        assert(path_of(a@).take(i as int) =~= path_of(a@));
    }
    true
}

impl VirtualFS {
    /// The root directory of the session's tree.
    pub closed spec fn root(&self) -> Directory {
        self.root
    }

    /// The current directory, as canonical segments from the root.
    pub closed spec fn cwd(&self) -> Seq<Seq<char>> {
        path_of(self.current_dir@)
    }

    /// The invariant of a session: its tree is well-formed and holds
    /// canonical paths only, and its current directory is one of them and
    /// names a directory.  Every session that runs has it.
    #[verifier::type_invariant]
    pub closed spec fn wf(&self) -> bool {
        &&& self.root.wf()
        &&& canonical(self.cwd())
        &&& self.root.is_dir(self.cwd())
        &&& forall|p: Seq<Seq<char>>| #[trigger] self.root@.contains_key(p) ==> canonical(p)
    }

    /// What the invariant says of the tree and the current directory.
    pub proof fn lemma_wf(&self)
        requires
            self.wf(),
        ensures
            self.root().wf(),
            canonical(self.cwd()),
            self.root().is_dir(self.cwd()),
            forall|p: Seq<Seq<char>>| #[trigger] self.root()@.contains_key(p) ==> canonical(p),
    {
    }

    /// At the root, `..` names the root: a change of directory to it is
    /// granted and leaves the current directory where it is.
    pub proof fn lemma_parent_at_root(&self)
        requires
            self.wf(),
            self.cwd().len() == 0,
        ensures
            resolved(".."@, self.cwd()) == self.cwd(),
            self.root().is_dir(resolved(".."@, self.cwd())),
    {
        reveal_strlit("..");
        assert(".."@ =~= dot_dot());
        assert(self.cwd() =~= Seq::<Seq<char>>::empty());
        lemma_parent_of_root();
    }

    /// Every match of a search in a session reports a file of the tree by
    /// its canonical absolute path: the path string resolves, from whatever
    /// directory, to segments that lead to that file.
    pub proof fn lemma_grep_paths(
        &self,
        path: Seq<char>,
        pat: Seq<char>,
        recursive: bool,
        i: int,
        other: Seq<Seq<char>>,
    )
        requires
            self.wf(),
            self.root().grep_outcome(resolved(path, self.cwd()), pat, recursive) is Ok,
            0 <= i < self.root().grep_outcome(
                resolved(path, self.cwd()),
                pat,
                recursive,
            )->Ok_0.len(),
        ensures
            ({
                let h = self.root().grep_outcome(
                    resolved(path, self.cwd()),
                    pat,
                    recursive,
                )->Ok_0[i];
                &&& canonical(h.path)
                &&& self.root().entry_at(h.path) matches Some(Node::File(_))
                &&& is_absolute(path_string(h.path))
                &&& resolved(path_string(h.path), other) == h.path
            }),
    {
        let target = resolved(path, self.cwd());
        let hits = self.root.grep_outcome(target, pat, recursive)->Ok_0;
        let h = hits[i];
        match self.root.entry_at(target) {
            Some(Node::File(bytes)) => {
                lemma_file_hits_ordered(target, bytes, pat);
            },
            _ => {
                self.root.lemma_dir_at(target);
                let d = self.root.dir_at(target).unwrap();
                lemma_tree_hits_sound(d, target, pat, i);
                let q = choose|q: Seq<Seq<char>>| #[trigger] is_file_hit(d, target, pat, q, h);
                let content = d.entry_at(q)->Some_0->File_0;
                lemma_file_hits_ordered(target + q, content, pat);
                let found = crate::search::file_hits(target + q, content, pat);
                let n = choose|n: int| 0 <= n < found.len() && found[n] == h;
                assert(found[n].path == target + q);
                self.root.lemma_subtree(target, q);
            },
        }
        assert(self.root@.contains_key(h.path));
        lemma_path_string_resolves(h.path, other);
    }

    /// A session with an empty root as its current directory.
    pub fn new() -> (s: VirtualFS)
        ensures
            s.cwd() == Seq::<Seq<char>>::empty(),
            s.root().entries@.len() == 0,
            s.root().name@ == Seq::<char>::empty(),
    {
        let s = VirtualFS { current_dir: Vec::new(), root: Directory::new(String::new()) };
        proof {
            assert(s.cwd() =~= Seq::<Seq<char>>::empty());
            assert forall|p: Seq<Seq<char>>| #[trigger] s.root@.contains_key(p) implies canonical(
                p,
            ) by {
                s.root.lemma_empty(p);
            }
        }
        s
    }

    /// Takes the tree and the current directory out of the session, which is
    /// left as a new session is, until they are put back.
    fn take(&mut self) -> (parts: (Directory, Vec<String>))
        ensures
            parts.0 == old(self).root(),
            path_of(parts.1@) == old(self).cwd(),
    {
        let mut taken = VirtualFS::new();
        std::mem::swap(&mut taken, self);
        let VirtualFS { current_dir, root } = taken;
        (root, current_dir)
    }

    /// The current directory as a path string.
    pub fn get_curr_dir(&self) -> (res: String)
        ensures
            res@ == path_string(self.cwd()),
    {
        format_path(self.current_dir.as_slice())
    }

    /// Makes the directory that `path` names the current one.  Where `path`
    /// names no directory the session stays as it was.
    pub fn change_dir(&mut self, path: &str) -> (res: Result<(), FsError>)
        ensures
            final(self).root() == old(self).root(),
            res is Ok <==> old(self).root().is_dir(resolved(path@, old(self).cwd())),
            res is Ok ==> final(self).cwd() == resolved(path@, old(self).cwd()),
            res matches Err(e) ==> final(self).cwd() == old(self).cwd() && e == (FsError::NotFound {
                matched: old(self).root().matched_len(resolved(path@, old(self).cwd())) as usize,
            }),
    {
        proof {
            use_type_invariant(&*self);
        }
        let target = resolve(path, self.current_dir.as_slice());
        match self.root.lookup(target.as_slice()) {
            Err(e) => Err(e),
            Ok(_) => {
                self.current_dir = target;
                Ok(())
            },
        }
    }

    /// A line that names the current directory.
    pub fn all_files(&self) -> (res: String)
        ensures
            res@ == "Current virtual directory: "@ + path_string(self.cwd()),
    {
        let mut res = "Current virtual directory: ".to_owned();
        let dir = self.get_curr_dir();
        res.append(dir.as_str());
        res
    }

    /// Lists what the directory at `path` holds: every entry with its kind,
    /// in the order of the names.
    pub fn ls(&self, path: &str) -> (res: Result<Vec<(String, FileType)>, FsError>)
        ensures
            match res {
                Ok(out) => self.root().is_dir(resolved(path@, self.cwd())) && self.root().lists(
                    resolved(path@, self.cwd()),
                    listing_of(out@),
                ),
                Err(e) => !self.root().is_dir(resolved(path@, self.cwd())) && e
                    == FsError::NotFound {
                    matched: self.root().matched_len(resolved(path@, self.cwd())) as usize,
                },
            },
    {
        proof {
            use_type_invariant(self);
        }
        let target = resolve(path, self.current_dir.as_slice());
        self.root.ls(target.as_slice())
    }

    /// Makes an empty directory at `path`.
    pub fn mkdir(&mut self, path: &str) -> (res: Result<(), FsError>)
        ensures
            final(self).cwd() == old(self).cwd(),
            res == old(self).root().create_outcome(resolved(path@, old(self).cwd())),
            res is Ok ==> final(self).root()@ == old(self).root()@.insert(
                resolved(path@, old(self).cwd()),
                Node::Dir,
            ),
            res is Err ==> final(self).root() == old(self).root(),
    {
        proof {
            use_type_invariant(&*self);
        }
        let target = resolve(path, self.current_dir.as_slice());
        let (mut root, current_dir) = self.take();
        let ghost before = root;
        let res = root.mkdir(target.as_slice());
        proof {
            if res is Ok {
                assert(root@.contains_key(path_of(current_dir@)));
                assert(root@[path_of(current_dir@)] == Node::Dir);
            }
        }
        *self = VirtualFS { current_dir, root };
        res
    }

    /// Makes a file at `path` that holds `content`.
    pub fn create_file(&mut self, path: &str, content: Vec<u8>) -> (res: Result<(), FsError>)
        ensures
            final(self).cwd() == old(self).cwd(),
            res == old(self).root().create_outcome(resolved(path@, old(self).cwd())),
            res is Ok ==> final(self).root()@ == old(self).root()@.insert(
                resolved(path@, old(self).cwd()),
                Node::File(content@),
            ),
            res is Err ==> final(self).root() == old(self).root(),
    {
        proof {
            use_type_invariant(&*self);
        }
        let target = resolve(path, self.current_dir.as_slice());
        let (mut root, current_dir) = self.take();
        let ghost before = root;
        let res = root.create_file(target.as_slice(), content);
        proof {
            if res is Ok {
                assert(before@.contains_key(path_of(current_dir@)));
                assert(root@.contains_key(path_of(current_dir@)));
                assert(root@[path_of(current_dir@)] == Node::Dir);
            }
        }
        *self = VirtualFS { current_dir, root };
        res
    }

    /// What a removal at `target` comes to in this session: the current
    /// directory and the directories above it, the root among them, are not
    /// to be removed; for the rest the tree decides.
    pub open spec fn remove_outcome(&self, target: Seq<Seq<char>>, recursive: bool) -> Result<
        (),
        FsError,
    > {
        if under(target, self.cwd()) {
            Err(FsError::InvalidArgument)
        } else {
            self.root().remove_outcome(target, recursive)
        }
    }

    /// Removes what `path` names: a file, an empty directory, or, with the
    /// flag `R`, a directory with all that lies below it.
    pub fn rm(&mut self, path: &str, flag: Option<DeleteOption>) -> (res: Result<(), FsError>)
        ensures
            final(self).cwd() == old(self).cwd(),
            res == old(self).remove_outcome(resolved(path@, old(self).cwd()), flag is Some),
            res is Ok ==> final(self).root()@ == pruned(
                old(self).root()@,
                resolved(path@, old(self).cwd()),
            ),
            res is Err ==> final(self).root() == old(self).root(),
    {
        proof {
            use_type_invariant(&*self);
        }
        let target = resolve(path, self.current_dir.as_slice());
        if leads_to(target.as_slice(), self.current_dir.as_slice()) {
            return Err(FsError::InvalidArgument);
        }
        let (mut root, current_dir) = self.take();
        let ghost before = root;
        let res = root.rm(target.as_slice(), flag);
        proof {
            if res is Ok {
                assert(before@.contains_key(path_of(current_dir@)));
                assert(root@.contains_key(path_of(current_dir@)));
                assert(root@[path_of(current_dir@)] == Node::Dir);
            }
        }
        *self = VirtualFS { current_dir, root };
        res
    }

    /// Searches for `pattern`, taken literally, at `path`: in a file, or with
    /// the recursive flag in all the files below a directory.
    pub fn grep(&self, path: &str, pattern: &str, recursive: bool) -> (res: Result<
        Vec<GrepMatch>,
        FsError,
    >)
        ensures
            match self.root().grep_outcome(resolved(path@, self.cwd()), pattern@, recursive) {
                Ok(hits) => res matches Ok(out) && match_views(out@) == shown(hits),
                Err(e) => res matches Err(r) && r == e,
            },
    {
        proof {
            use_type_invariant(self);
        }
        let target = resolve(path, self.current_dir.as_slice());
        self.root.grep(target.as_slice(), pattern, recursive)
    }

    /// The bytes of the file at `path`, exactly as they are stored.
    pub fn cat(&self, path: &str) -> (res: Result<Vec<u8>, FsError>)
        ensures
            bytes_of(res) == self.root().file_outcome(resolved(path@, self.cwd())),
    {
        proof {
            use_type_invariant(self);
        }
        let target = resolve(path, self.current_dir.as_slice());
        self.root.cat(target.as_slice())
    }

    /// The bytes of the files at `paths`, one after the other with nothing
    /// between them; where one of the paths fails, the first failure and
    /// nothing else.
    pub fn cat_multiple(&self, paths: &[String]) -> (res: Result<Vec<u8>, FsError>)
        ensures
            bytes_of(res) == self.root().concat_outcome(resolved_all(paths@, self.cwd())),
    {
        proof {
            use_type_invariant(self);
        }
        let mut targets: Vec<Vec<String>> = Vec::new();
        let mut i: usize = 0;
        while i < paths.len()
            invariant
                i <= paths@.len(),
                targets@.len() == i,
                forall|k: int|
                    0 <= k < i ==> path_of((#[trigger] targets@[k])@) == resolved(
                        paths@[k]@,
                        self.cwd(),
                    ),
            decreases paths@.len() - i,
        {
            targets.push(resolve(paths[i].as_str(), self.current_dir.as_slice()));
            i = i + 1;
        }
        proof {
            assert(paths_of(targets@) =~= resolved_all(paths@, self.cwd()));
        }
        self.root.cat_multiple(targets.as_slice())
    }

    /// The first lines of the file at `path` as text: `n_lines` of them, ten
    /// where no number is given.
    pub fn head(&self, path: &str, n_lines: Option<usize>) -> (res: Result<String, FsError>)
        ensures
            text_of(res) == match self.root().text_outcome(resolved(path@, self.cwd())) {
                Ok(text) => Ok(head_text(text, line_limit(n_lines))),
                Err(e) => Err(e),
            },
    {
        proof {
            use_type_invariant(self);
        }
        let target = resolve(path, self.current_dir.as_slice());
        self.root.head(target.as_slice(), n_lines)
    }

    /// The last lines of the file at `path` as text: `n_lines` of them, ten
    /// where no number is given.
    pub fn tail(&self, path: &str, n_lines: Option<usize>) -> (res: Result<String, FsError>)
        ensures
            text_of(res) == match self.root().text_outcome(resolved(path@, self.cwd())) {
                Ok(text) => Ok(tail_text(text, line_limit(n_lines))),
                Err(e) => Err(e),
            },
    {
        proof {
            use_type_invariant(self);
        }
        let target = resolve(path, self.current_dir.as_slice());
        self.root.tail(target.as_slice(), n_lines)
    }
}

} // verus!
