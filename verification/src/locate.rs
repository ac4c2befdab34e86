//! Locating request definitions.
//!
//! Paths are texts with `/` between their components. The walk over a
//! directory tree is a state machine: it names the directory to list next,
//! takes that directory's entries, and keeps the files that are candidates.
//! Listing a directory is left to the caller.

use crate::error::{KuiperError, KuiperResult};
use crate::request::Request;
use crate::text::{chars_of, contains, matches_at, occurs_in, slice_of, starts_at, text_of, texts};
use std::collections::VecDeque;
use vstd::prelude::*;

verus! {

/// Whether `path` names a request definition: its last component is a
/// non-empty stem followed by `.kuiper`.
pub open spec fn is_request_path(path: Seq<char>) -> bool {
    let ext = ".kuiper"@;
    &&& path.len() > ext.len()
    &&& matches_at(path, ext, path.len() - ext.len())
    &&& path[path.len() - ext.len() - 1] != '/'
}

/// Whether the first `i` characters of `path` name a directory above its
/// last component: they are followed by a separator and do not end in one.
pub open spec fn is_scope_end(path: Seq<char>, i: int) -> bool {
    0 < i < path.len() && path[i] == '/' && path[i - 1] != '/'
}

/// The directories above the last component of `path` that end before index
/// `upto`, outermost first.
pub open spec fn scope_dirs(path: Seq<char>, upto: int) -> Seq<Seq<char>>
    decreases upto,
{
    if upto <= 0 {
        Seq::empty()
    } else {
        let outer = scope_dirs(path, upto - 1);
        if is_scope_end(path, upto - 1) {
            outer.push(path.subrange(0, upto - 1))
        } else {
            outer
        }
    }
}

/// The directories in which the header files for the request at `path` are
/// looked for: every directory above the file, from the outermost to the
/// file's own, without the root.
pub open spec fn header_dirs_of(path: Seq<char>) -> Seq<Seq<char>> {
    scope_dirs(path, path.len() as int)
}

/// Whether `path` names a request definition.
pub fn is_request_file(path: &str) -> (b: bool)
    ensures
        b == is_request_path(path@),
{
    let chars = chars_of(path);
    let ext = chars_of(".kuiper");
    let n = chars.len();
    let m = ext.len();
    if n <= m {
        return false;
    }
    starts_at(&chars, &ext, n - m) && chars[n - m - 1] != '/'
}

/// The directories in which the header files for the request at `path` are
/// looked for, outermost first.
pub fn header_dirs(path: &str) -> (dirs: Vec<String>)
    ensures
        texts(dirs@) == header_dirs_of(path@),
{
    let chars = chars_of(path);
    let mut dirs: Vec<String> = Vec::new();
    let mut i: usize = 0;
    assert(texts(dirs@) =~= scope_dirs(chars@, 0));
    while i < chars.len()
        invariant
            i <= chars.len(),
            chars@ == path@,
            texts(dirs@) == scope_dirs(chars@, i as int),
        decreases chars.len() - i,
    {
        if i > 0 && chars[i] == '/' && chars[i - 1] != '/' {
            let dir = text_of(&slice_of(&chars, 0, i));
            let ghost before = dirs@;
            dirs.push(dir);
            assert(texts(dirs@) =~= texts(before).push(dir@));
        }
        i += 1;
    }
    dirs
}

/// What an entry of a directory is.
#[derive(Clone, Copy, Debug, PartialEq, Eq)]
pub enum EntryKind {
    Directory,
    File,
    /// Neither a directory nor a regular file.
    Other,
}

/// One entry of a directory, with its full path.
#[derive(Debug)]
pub struct Entry {
    pub path: String,
    pub kind: EntryKind,
}

/// The directories among `entries`, in their order.
pub open spec fn subdirectories(entries: Seq<Entry>) -> Seq<Seq<char>>
    decreases entries.len(),
{
    if entries.len() == 0 {
        Seq::empty()
    } else {
        let before = subdirectories(entries.drop_last());
        if entries.last().kind is Directory {
            before.push(entries.last().path@)
        } else {
            before
        }
    }
}

/// Whether an entry is a candidate of the search for `term`: a file that
/// names a request definition and has `term` somewhere in its path.
pub open spec fn is_candidate(entry: Entry, term: Seq<char>) -> bool {
    entry.kind is File && is_request_path(entry.path@) && occurs_in(entry.path@, term)
}

/// The candidates among `entries`, in their order.
pub open spec fn candidates(entries: Seq<Entry>, term: Seq<char>) -> Seq<Seq<char>>
    decreases entries.len(),
{
    if entries.len() == 0 {
        Seq::empty()
    } else {
        let before = candidates(entries.drop_last(), term);
        if is_candidate(entries.last(), term) {
            before.push(entries.last().path@)
        } else {
            before
        }
    }
}

/// A breadth-first search for request definitions below a directory.
#[derive(Debug)]
pub struct Search {
    term: String,
    pending: VecDeque<String>,
    matches: Vec<String>,
}

/// Mathematical model of a `Search`.
pub struct SearchView {
    /// The text that a candidate's path has to contain.
    pub term: Seq<char>,
    /// The directories that are still to be listed, the next one first.
    pub pending: Seq<Seq<char>>,
    /// The candidates found so far, in the order in which they were found.
    pub matches: Seq<Seq<char>>,
}

impl SearchView {
    /// The search after its next directory has been taken off and found to
    /// hold `entries`: what `next_directory` and then `visit` make of it.
    pub open spec fn step(self, entries: Seq<Entry>) -> SearchView {
        SearchView {
            term: self.term,
            pending: self.pending.drop_first() + subdirectories(entries),
            matches: self.matches + candidates(entries, self.term),
        }
    }

    /// The search after one step for each of `listings`, in their order.
    pub open spec fn walk(self, listings: Seq<Seq<Entry>>) -> SearchView
        decreases listings.len(),
    {
        if listings.len() == 0 {
            self
        } else {
            self.step(listings[0]).walk(listings.drop_first())
        }
    }
}

/// Entries without a candidate give no candidate.
pub proof fn lemma_no_candidates(entries: Seq<Entry>, term: Seq<char>)
    requires
        forall|j: int| 0 <= j < entries.len() ==> !is_candidate(#[trigger] entries[j], term),
    ensures
        candidates(entries, term) == Seq::<Seq<char>>::empty(),
    decreases entries.len(),
{
    if entries.len() > 0 {
        assert forall|j: int| 0 <= j < entries.drop_last().len() implies !is_candidate(
            #[trigger] entries.drop_last()[j],
            term,
        ) by {
            assert(entries.drop_last()[j] == entries[j]);
        }
        lemma_no_candidates(entries.drop_last(), term);
        assert(entries.last() == entries[entries.len() - 1]);
    }
}

/// The path of a candidate among the entries is among the candidates.
pub proof fn lemma_candidate_is_kept(entries: Seq<Entry>, term: Seq<char>, j: int)
    requires
        0 <= j < entries.len(),
        is_candidate(entries[j], term),
    ensures
        candidates(entries, term).contains(entries[j].path@),
    decreases entries.len(),
{
    let before = candidates(entries.drop_last(), term);
    if j == entries.len() - 1 {
        assert(before.push(entries[j].path@)[before.len() as int] == entries[j].path@);
    } else {
        assert(entries.drop_last()[j] == entries[j]);
        lemma_candidate_is_kept(entries.drop_last(), term, j);
        let k = choose|k: int| 0 <= k < before.len() && before[k] == entries[j].path@;
        if is_candidate(entries.last(), term) {
            assert(before.push(entries.last().path@)[k] == entries[j].path@);
        }
    }
}

/// A search never loses a match.
pub proof fn lemma_walk_keeps_matches(s: SearchView, listings: Seq<Seq<Entry>>, path: Seq<char>)
    requires
        s.matches.contains(path),
    ensures
        s.walk(listings).matches.contains(path),
        s.walk(listings).term == s.term,
    decreases listings.len(),
{
    if listings.len() > 0 {
        let next = s.step(listings[0]);
        let k = choose|k: int| 0 <= k < s.matches.len() && s.matches[k] == path;
        assert(next.matches[k] == path);
        lemma_walk_keeps_matches(next, listings.drop_first(), path);
    }
}

/// A walk through directories that hold no candidate finds nothing: the
/// matches are what they were when it began.
pub proof fn lemma_walk_finds_nothing(s: SearchView, listings: Seq<Seq<Entry>>)
    requires
        forall|i: int, j: int|
            0 <= i < listings.len() && 0 <= j < listings[i].len() ==> !is_candidate(
                #[trigger] listings[i][j],
                s.term,
            ),
    ensures
        s.walk(listings).matches == s.matches,
    decreases listings.len(),
{
    if listings.len() > 0 {
        let next = s.step(listings[0]);
        let rest = listings.drop_first();
        assert forall|j: int| 0 <= j < listings[0].len() implies !is_candidate(
            #[trigger] listings[0][j],
            s.term,
        ) by {}
        lemma_no_candidates(listings[0], s.term);
        assert(next.matches =~= s.matches);
        assert forall|i: int, j: int| 0 <= i < rest.len() && 0 <= j < rest[i].len()
            implies !is_candidate(#[trigger] rest[i][j], next.term) by {
            assert(rest[i] == listings[i + 1]);
            assert(!is_candidate(listings[i + 1][j], s.term));
        }
        lemma_walk_finds_nothing(next, rest);
    }
}

/// A walk finds every candidate that the directories it lists hold.
pub proof fn lemma_walk_finds_each(s: SearchView, listings: Seq<Seq<Entry>>, i: int, j: int)
    requires
        0 <= i < listings.len(),
        0 <= j < listings[i].len(),
        is_candidate(listings[i][j], s.term),
    ensures
        s.walk(listings).matches.contains(listings[i][j].path@),
    decreases listings.len(),
{
    let next = s.step(listings[0]);
    let rest = listings.drop_first();
    if i == 0 {
        lemma_candidate_is_kept(listings[0], s.term, j);
        let found = candidates(listings[0], s.term);
        let k = choose|k: int| 0 <= k < found.len() && found[k] == listings[0][j].path@;
        assert(next.matches[s.matches.len() + k] == listings[0][j].path@);
        lemma_walk_keeps_matches(next, rest, listings[0][j].path@);
    } else {
        assert(rest[i - 1] == listings[i]);
        lemma_walk_finds_each(next, rest, i - 1, j);
    }
}

impl View for Search {
    type V = SearchView;

    closed spec fn view(&self) -> SearchView {
        SearchView {
            term: self.term@,
            pending: texts(self.pending@),
            matches: texts(self.matches@),
        }
    }
}

impl Search {
    /// The directory to list next, taken off the front of the pending ones;
    /// `None` when the search is over.
    pub fn next_directory(&mut self) -> (r: Option<String>)
        ensures
            match r {
                Some(dir) => old(self)@.pending.len() > 0 && dir@ == old(self)@.pending[0]
                    && final(self)@ == (SearchView {
                    pending: old(self)@.pending.drop_first(),
                    ..old(self)@
                }),
                None => old(self)@.pending.len() == 0 && final(self)@ == old(self)@,
            },
    {
        let ghost before = self.pending@;
        let r = self.pending.pop_front();
        proof {
            if before.len() > 0 {
                assert(texts(self.pending@) =~= texts(before).drop_first());
            }
        }
        r
    }

    /// Takes the entries of the directory that `next_directory` named last:
    /// its directories are put behind the pending ones, and its candidates
    /// behind the matches.
    pub fn visit(&mut self, entries: Vec<Entry>)
        ensures
            final(self)@ == (SearchView {
                pending: old(self)@.pending + subdirectories(entries@),
                matches: old(self)@.matches + candidates(entries@, old(self)@.term),
                ..old(self)@
            }),
    {
        let term = chars_of(self.term.as_str());
        let ghost start = self@;
        proof {
            assert(start.pending + subdirectories(entries@.subrange(0, 0)) =~= start.pending);
            assert(start.matches + candidates(entries@.subrange(0, 0), term@) =~= start.matches);
        }
        for entry in it: entries
            invariant
                it.seq() == entries@,
                term@ == start.term,
                self@.term == start.term,
                self@.pending == start.pending + subdirectories(
                    entries@.subrange(0, it.index() as int),
                ),
                self@.matches == start.matches + candidates(
                    entries@.subrange(0, it.index() as int),
                    term@,
                ),
        {
            let ghost i = it.index() as int;
            let ghost pending = self.pending@;
            let ghost matches = self.matches@;
            proof {
                assert(entries@.subrange(0, i + 1).drop_last() =~= entries@.subrange(0, i));
                assert(entries@.subrange(0, i + 1).last() == entries@[i]);
            }
            match entry.kind {
                EntryKind::Directory => {
                    self.pending.push_back(entry.path);
                    assert(texts(self.pending@) =~= texts(pending).push(entry.path@));
                },
                EntryKind::File => {
                    if is_request_file(entry.path.as_str()) && contains(
                        &chars_of(entry.path.as_str()),
                        &term,
                    ) {
                        self.matches.push(entry.path);
                        assert(texts(self.matches@) =~= texts(matches).push(entry.path@));
                    }
                },
                EntryKind::Other => {},
            }
        }
        proof {
            assert(entries@.subrange(0, entries@.len() as int) =~= entries@);
        }
    }

    /// Whether no directory is left to list.
    pub fn is_done(&self) -> (b: bool)
        ensures
            b == (self@.pending.len() == 0),
    {
        self.pending.len() == 0
    }

    /// The paths of the candidates found, in the order in which they were
    /// found.
    pub fn into_matches(self) -> (paths: Vec<String>)
        ensures
            texts(paths@) == self@.matches,
    {
        self.matches
    }
}

/// The names of a list of requests.
pub open spec fn names_of(requests: Seq<Request>) -> Seq<Seq<char>> {
    requests.map_values(|r: Request| r@.name)
}

impl Request {
    /// Begins a search below the directory `root` for the request
    /// definitions whose path contains `term`.
    pub fn search(root: String, term: &str) -> (search: Search)
        ensures
            search@ == (SearchView {
                term: term@,
                pending: seq![root@],
                matches: Seq::empty(),
            }),
    {
        let mut pending: VecDeque<String> = VecDeque::new();
        pending.push_back(root);
        let search = Search { term: term.to_owned(), pending, matches: Vec::new() };
        proof {
            assert(texts(search.pending@) =~= seq![root@]);
            assert(texts(search.matches@) =~= Seq::<Seq<char>>::empty());
        }
        search
    }

    /// The one request that a search has found. No candidate is an error,
    /// and so is more than one: the error then names them all.
    pub fn pick(found: Vec<Request>) -> (r: KuiperResult<Request>)
        ensures
            match r {
                Ok(request) => found@.len() == 1 && request == found@[0],
                Err(KuiperError::RequestNotFound) => found@.len() == 0,
                Err(KuiperError::Ambiguous(names)) => found@.len() > 1 && texts(names@) == names_of(
                    found@,
                ),
                Err(_) => false,
            },
    {
        let mut found = found;
        if found.len() == 0 {
            return Err(KuiperError::RequestNotFound);
        }
        if found.len() == 1 {
            let request = found.pop();
            return Ok(request.unwrap());
        }
        let mut names: Vec<String> = Vec::new();
        let mut i: usize = 0;
        while i < found.len()
            invariant
                i <= found.len(),
                texts(names@) == names_of(found@.subrange(0, i as int)),
            decreases found.len() - i,
        {
            let ghost before = names@;
            let name = found[i].name().to_owned();
            names.push(name);
            assert(texts(names@) =~= texts(before).push(name@));
            assert(names_of(found@.subrange(0, i + 1)) =~= names_of(
                found@.subrange(0, i as int),
            ).push(found@[i as int]@.name));
            i += 1;
        }
        assert(found@.subrange(0, found@.len() as int) =~= found@);
        Err(KuiperError::Ambiguous(names))
    }
}

} // verus!
