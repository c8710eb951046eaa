//! Searching the tree for a literal pattern: in one file, or in all the
//! files below a directory.

use vstd::prelude::*;
use vstd::string::*;
use crate::error::FsError;
use crate::path::{format_path, join_child, joined, lemma_joined_push, path_of};
use crate::search::{
    file_hits, lemma_shown_concat, lemma_shown_file_hits, match_views, search_file, shown,
    GrepMatch, Hit,
};
use crate::text::to_chars;
use crate::tree::{Directory, Entry, Node};

verus! {

/// The hits for `pat` in the first `upto` of `entries`, which stand in the
/// directory at `prefix`: entry by entry, a file giving the hits in its
/// content and a directory those of all that lies below it.
pub open spec fn entries_hits(
    entries: Seq<Entry>,
    upto: nat,
    prefix: Seq<Seq<char>>,
    pat: Seq<char>,
) -> Seq<Hit>
    decreases entries, upto,
{
    if upto == 0 || upto > entries.len() {
        Seq::empty()
    } else {
        entries_hits(entries, (upto - 1) as nat, prefix, pat) + match entries[upto - 1] {
            Entry::Dir(d) => d.tree_hits(prefix.push(d.name@), pat),
            Entry::File(f) => file_hits(prefix.push(f.name@), f.content@, pat),
        }
    }
}

impl Directory {
    /// The hits for `pat` in all the files below this directory, which stands
    /// at `prefix`.  They come in the order of a walk that takes the entries
    /// of each directory by name.
    pub open spec fn tree_hits(self, prefix: Seq<Seq<char>>, pat: Seq<char>) -> Seq<Hit>
        decreases self,
    {
        entries_hits(self.entries@, self.entries@.len(), prefix, pat)
    }

    /// What a search for `pat` at `path` gives: the hits in a file, with the
    /// recursive flag the hits below a directory, or why there are none to
    /// give.
    pub open spec fn grep_outcome(self, path: Seq<Seq<char>>, pat: Seq<char>, recursive: bool)
        -> Result<Seq<Hit>, FsError> {
        match self.entry_at(path) {
            None => Err(FsError::NotFound { matched: self.matched_len(path) as usize }),
            Some(Node::File(bytes)) => Ok(file_hits(path, bytes, pat)),
            Some(Node::Dir) => if recursive {
                Ok(self.dir_at(path).unwrap().tree_hits(path, pat))
            } else {
                Err(FsError::InvalidArgument)
            },
        }
    }

    /// Appends to `out` the matches for `pat` in all the files below this
    /// directory.  `base` is the joined path of the directory.
    fn grep_tree(
        &self,
        base: &str,
        Ghost(prefix): Ghost<Seq<Seq<char>>>,
        pat: &[char],
        out: &mut Vec<GrepMatch>,
    )
        requires
            base@ == joined(prefix),
        ensures
            match_views(final(out)@) == match_views(old(out)@) + shown(
                self.tree_hits(prefix, pat@),
            ),
        decreases self,
    {
        let ghost before = match_views(out@);
        let mut i: usize = 0;
        proof {
            assert(before + shown(entries_hits(self.entries@, 0, prefix, pat@)) =~= before);
        }
        while i < self.entries.len()
            invariant
                i <= self.entries@.len(),
                base@ == joined(prefix),
                match_views(out@) == before + shown(
                    entries_hits(self.entries@, i as nat, prefix, pat@),
                ),
            decreases self.entries@.len() - i,
        {
            let ghost sofar = entries_hits(self.entries@, i as nat, prefix, pat@);
            let ghost prev = match_views(out@);
            match &self.entries[i] {
                Entry::Dir(d) => {
                    let below = join_child(base, d.name.as_str());
                    proof {
                        lemma_joined_push(prefix, d.name@);
                    }
                    d.grep_tree(below.as_str(), Ghost(prefix.push(d.name@)), pat, out);
                    proof {
                        let found = d.tree_hits(prefix.push(d.name@), pat@);
                        lemma_shown_concat(sofar, found);
                        assert(prev + shown(found) =~= before + (shown(sofar) + shown(found)));
                    }
                },
                Entry::File(f) => {
                    let file_path = join_child(base, f.name.as_str());
                    proof {
                        lemma_joined_push(prefix, f.name@);
                    }
                    search_file(file_path.as_str(), f.content.as_slice(), pat, out);
                    proof {
                        let found = file_hits(prefix.push(f.name@), f.content@, pat@);
                        lemma_shown_file_hits(prefix.push(f.name@), f.content@, pat@);
                        lemma_shown_concat(sofar, found);
                        assert(prev + shown(found) =~= before + (shown(sofar) + shown(found)));
                    }
                },
            }
            i = i + 1;
        }
    }

    /// Searches for `pattern`, taken literally, at `segments`.  A file gives
    /// its lines that hold the pattern, numbered from one.  A directory gives,
    /// with the recursive flag, the matches in all the files below it, file
    /// after file in the order of their paths; without the flag a directory
    /// is refused.  A file whose content is not well-formed UTF-8 has no
    /// match.
    pub fn grep(&self, segments: &[String], pattern: &str, recursive: bool) -> (res: Result<
        Vec<GrepMatch>,
        FsError,
    >)
        requires
            self.wf(),
        ensures
            match self.grep_outcome(path_of(segments@), pattern@, recursive) {
                Ok(hits) => res matches Ok(out) && match_views(out@) == shown(hits),
                Err(e) => res matches Err(r) && r == e,
            },
    {
        let pat = to_chars(pattern);
        let mut out: Vec<GrepMatch> = Vec::new();
        let ghost path = path_of(segments@);
        let n = segments.len();
        proof {
            assert(match_views(out@) =~= Seq::<crate::search::MatchView>::empty());
        }
        if n == 0 {
            if !recursive {
                return Err(FsError::InvalidArgument);
            }
            let base = String::new();
            self.grep_tree(base.as_str(), Ghost(path), pat.as_slice(), &mut out);
            proof {
                assert(match_views(out@) =~= shown(self.tree_hits(path, pattern@)));
            }
            return Ok(out);
        }
        proof {
            assert(path.take(n - 1) =~= path.drop_last());
            assert(path.last() == segments@[n - 1]@);
            self.lemma_entry_at_last(path);
        }
        match self.walk_to(segments, n - 1) {
            Err(e) => Err(e),
            Ok(parent) => match parent.position(segments[n - 1].as_str()) {
                Err(_) => Err(FsError::NotFound { matched: n - 1 }),
                Ok(i) => match &parent.entries[i] {
                    Entry::File(f) => {
                        let file_path = format_path(segments);
                        search_file(
                            file_path.as_str(),
                            f.content.as_slice(),
                            pat.as_slice(),
                            &mut out,
                        );
                        proof {
                            lemma_shown_file_hits(path, f.content@, pattern@);
                            assert(match_views(out@) =~= shown(
                                file_hits(path, f.content@, pattern@),
                            ));
                        }
                        Ok(out)
                    },
                    Entry::Dir(d) => {
                        if !recursive {
                            return Err(FsError::InvalidArgument);
                        }
                        let base = format_path(segments);
                        d.grep_tree(base.as_str(), Ghost(path), pat.as_slice(), &mut out);
                        proof {
                            assert(match_views(out@) =~= shown(d.tree_hits(path, pattern@)));
                        }
                        Ok(out)
                    },
                },
            },
        }
    }
}

} // verus!
