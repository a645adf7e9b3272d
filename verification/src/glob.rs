//! The traversal: a chain of selectors driven against a directory tree,
//! one question to the file system at a time.
//!
//! The library never touches the file system. [`Paths::next`] hands out a
//! [`Step`]: a question to answer, a match, or the end. The caller answers
//! the question and calls again with the [`Reply`].

use vstd::prelude::*;
use crate::path::{
    child, is_rooted, joined, name_of, path_views, pop_path, push_path, Path, PathView,
};
use crate::pattern::{reports, Error};
use crate::selector::{
    begin_walk, chain_fault, chain_of, has_entries, is_chain, literal_of, path_option_view,
    pattern_components, peeked, pop_directory, pop_entry, push_directory, push_entry,
    selector_of, selector_views, selects, toggled, with_entries, with_peeked, Selector,
    SelectorView,
};
use crate::text::{chars_of, push_char, push_chars, texts};
use crate::token::SEPARATOR;

verus! {

broadcast use crate::text::lemma_seq_char_is_scalar_value;

/// A question to the file system.
#[derive(Debug)]
pub enum Query {
    /// Is the path a directory?
    IsDir(Path),
    /// Does the path exist?
    Exists(Path),
    /// What are the names of the entries of this directory?
    List(Path),
}

/// The mathematical value of a [`Query`].
pub enum QueryView {
    IsDir(PathView),
    Exists(PathView),
    List(PathView),
}

impl View for Query {
    type V = QueryView;

    open spec fn view(&self) -> QueryView {
        match *self {
            Query::IsDir(p) => QueryView::IsDir(p@),
            Query::Exists(p) => QueryView::Exists(p@),
            Query::List(p) => QueryView::List(p@),
        }
    }
}

/// The answer to the question that the last step asked.
#[derive(Debug)]
pub enum Reply {
    /// There was no question: this is the first call, or the last step
    /// was a match.
    Nothing,
    /// Yes or no.
    Flag(bool),
    /// The names of a directory's entries. A directory that cannot be
    /// read has none.
    Names(Vec<String>),
}

/// The mathematical value of a [`Reply`].
pub enum ReplyView {
    Nothing,
    Flag(bool),
    Names(Seq<Seq<char>>),
}

impl View for Reply {
    type V = ReplyView;

    open spec fn view(&self) -> ReplyView {
        match *self {
            Reply::Nothing => ReplyView::Nothing,
            Reply::Flag(b) => ReplyView::Flag(b),
            Reply::Names(names) => ReplyView::Names(texts(names@)),
        }
    }
}

/// What one call of [`Paths::next`] comes back with.
#[derive(Debug)]
pub enum Step {
    /// A question; the next call brings the answer.
    Ask(Query),
    /// A path that matches.
    Yield(Path),
    /// No more matches.
    End,
}

/// The mathematical value of a [`Step`].
pub enum StepView {
    Ask(QueryView),
    Yield(PathView),
    End,
}

impl View for Step {
    type V = StepView;

    open spec fn view(&self) -> StepView {
        match *self {
            Step::Ask(q) => StepView::Ask(q@),
            Step::Yield(p) => StepView::Yield(p@),
            Step::End => StepView::End,
        }
    }
}

/// What a traversal is waiting for between two calls. The number is the
/// place in the chain of the selector that waits.
#[derive(Clone, Copy, Debug, PartialEq, Eq, Structural)]
pub enum Wait {
    /// For the caller to ask for the next match.
    Idle,
    /// For nothing: the matches have run out.
    Exhausted,
    /// Whether the path handed to a selector is a directory.
    Enter(usize),
    /// Whether the path of a precise selector exists.
    Exists(usize),
    /// The listing for a wildcard.
    Listing(usize),
    /// Whether the entry a wildcard is about to hand out is a directory.
    Entry(usize),
    /// Whether the path that reached the end of the chain is a directory.
    Final(usize),
    /// The listing of the directory a walk moves to.
    WalkListing(usize),
    /// Whether an entry found by a walk is a directory.
    WalkCheck(usize),
}

/// Where a traversal stands in the middle of a call.
pub enum Pc {
    /// The selector at this place has answered.
    Return(usize, Option<Path>),
    /// The wildcard at this place goes on through its listing.
    Scan(usize),
    /// The recursive selector at this place goes on with its walk.
    Walk(usize),
    /// The call is over.
    Halt(Step),
}

/// The mathematical value of a [`Pc`].
pub enum PcView {
    Return(usize, Option<PathView>),
    Scan(usize),
    Walk(usize),
    Halt(StepView),
}

impl View for Pc {
    type V = PcView;

    open spec fn view(&self) -> PcView {
        match *self {
            Pc::Return(i, r) => PcView::Return(i, path_option_view(r)),
            Pc::Scan(i) => PcView::Scan(i),
            Pc::Walk(i) => PcView::Walk(i),
            Pc::Halt(step) => PcView::Halt(step@),
        }
    }
}

/// The matches of a pattern, found one at a time.
pub struct Paths {
    scope: Path,
    selector: Vec<Selector>,
    is_dir: bool,
    frames: Vec<Path>,
    scan: Vec<Path>,
    wait: Wait,
}

/// The mathematical value of a [`Paths`].
pub struct PathsView {
    /// Where the traversal starts.
    pub scope: PathView,
    /// The chain of selectors.
    pub selector: Seq<SelectorView>,
    /// Whether only directories are wanted.
    pub is_dir: bool,
    /// The path last handed to each selector, by its place.
    pub frames: Seq<PathView>,
    /// The entries that a walk has listed and not yet looked at; the last
    /// one is next.
    pub scan: Seq<PathView>,
    /// What the traversal is waiting for.
    pub wait: Wait,
}

impl PathsView {
    /// The same state with another selector at place `i`.
    pub open spec fn set_node(self, i: int, node: SelectorView) -> PathsView {
        PathsView { selector: self.selector.update(i, node), ..self }
    }

    /// The same state with `path` handed to the selector at place `i`. The
    /// paths handed to the selectors after it stay as they were.
    pub open spec fn set_frame(self, i: int, path: PathView) -> PathsView {
        PathsView {
            frames: if i < self.frames.len() {
                self.frames.update(i, path)
            } else {
                self.frames.push(path)
            },
            ..self
        }
    }

    /// The same state with other entries to look at.
    pub open spec fn set_scan(self, scan: Seq<PathView>) -> PathsView {
        PathsView { scan, ..self }
    }

    /// The same state, waiting for something else.
    pub open spec fn set_wait(self, wait: Wait) -> PathsView {
        PathsView { wait, ..self }
    }

    /// The state is sound: the chain is a chain, and what the traversal
    /// waits for has its place in the chain, with a selector of the right
    /// kind there and its path at hand.
    pub open spec fn wf(self) -> bool {
        &&& is_chain(self.selector)
        &&& self.selector.len() <= usize::MAX
        &&& match self.wait {
            Wait::Idle | Wait::Exhausted => true,
            Wait::Enter(i) => i + 1 < self.selector.len() && i < self.frames.len(),
            Wait::Exists(i) => i + 1 < self.selector.len() && i < self.frames.len()
                && self.selector[i as int] is Precise,
            Wait::Listing(i) => i + 1 < self.selector.len() && i < self.frames.len()
                && self.selector[i as int] is Wildcard,
            Wait::Entry(i) => i + 1 < self.selector.len() && i + 1 < self.frames.len()
                && self.selector[i as int] is Wildcard,
            Wait::WalkListing(i) => i + 1 < self.selector.len() && i + 1 < self.frames.len()
                && self.selector[i as int] is Recursive,
            Wait::WalkCheck(i) => i + 1 < self.selector.len() && i + 1 < self.frames.len()
                && self.selector[i as int] is Recursive && self.scan.len() > 0,
            Wait::Final(i) => i + 1 == self.selector.len() && i < self.frames.len(),
        }
    }

    /// The state is sound in the middle of a call that stands at `pc`.
    pub open spec fn wf_at(self, pc: PcView) -> bool {
        &&& is_chain(self.selector)
        &&& self.selector.len() <= usize::MAX
        &&& match pc {
            PcView::Return(i, _) => i < self.selector.len() && i < self.frames.len(),
            PcView::Scan(i) => i + 1 < self.selector.len() && i < self.frames.len()
                && self.selector[i as int] is Wildcard,
            PcView::Walk(i) => i + 1 < self.selector.len() && i < self.frames.len()
                && self.selector[i as int] is Recursive,
            PcView::Halt(_) => self.wf(),
        }
    }

    /// The question the traversal is waiting on, if any.
    pub open spec fn pending(self) -> Option<QueryView> {
        match self.wait {
            Wait::Idle | Wait::Exhausted => None,
            Wait::Enter(i) => Some(QueryView::IsDir(self.frames[i as int])),
            Wait::Exists(i) => Some(
                QueryView::Exists(
                    joined(self.frames[i as int], literal_of(self.selector[i as int])),
                ),
            ),
            Wait::Listing(i) => Some(QueryView::List(self.frames[i as int])),
            Wait::Entry(i) => Some(QueryView::IsDir(self.frames[i + 1])),
            Wait::Final(i) => Some(QueryView::IsDir(self.frames[i as int])),
            Wait::WalkListing(i) => Some(QueryView::List(self.frames[i + 1])),
            Wait::WalkCheck(i) => Some(QueryView::IsDir(self.scan.last())),
        }
    }
}

/// A reply read as yes or no: anything but a plain yes is a no.
pub open spec fn flag_of(reply: ReplyView) -> bool {
    reply == ReplyView::Flag(true)
}

/// A reply read as a listing: anything but a listing is an empty one.
pub open spec fn names_of(reply: ReplyView) -> Seq<Seq<char>> {
    match reply {
        ReplyView::Names(names) => names,
        _ => Seq::empty(),
    }
}

/// The entries of `path` with the given names, the first name last.
pub open spec fn children_reversed(path: PathView, names: Seq<Seq<char>>) -> Seq<PathView> {
    Seq::new(names.len(), |k: int| child(path, names[names.len() - 1 - k]))
}

/// The entries of `path` with the given names, in order.
pub open spec fn children_in_order(path: PathView, names: Seq<Seq<char>>) -> Seq<PathView> {
    Seq::new(names.len(), |k: int| child(path, names[k]))
}

/// Hands `path` to the selector at place `i`.
///
/// The end of the chain answers at once: with the path, or with nothing
/// where it has just answered; in directory-only mode it first asks whether
/// the path is a directory. Every other selector first asks that.
pub open spec fn enter(s: PathsView, i: usize, path: PathView) -> (PathsView, PcView) {
    let s1 = s.set_frame(i as int, path);
    let (node, was) = toggled(s1.selector[i as int]);
    match was {
        Some(true) => (s1.set_node(i as int, node), PcView::Return(i, None)),
        Some(false) => if s1.is_dir {
            (
                s1.set_node(i as int, node).set_wait(Wait::Final(i)),
                PcView::Halt(StepView::Ask(QueryView::IsDir(path))),
            )
        } else {
            (s1.set_node(i as int, node), PcView::Return(i, Some(path)))
        },
        None => (s1.set_wait(Wait::Enter(i)), PcView::Halt(StepView::Ask(QueryView::IsDir(path)))),
    }
}

/// A walk looks at the next entry it has listed; once it has seen them
/// all, it stands at the directory it listed.
pub open spec fn walk_scan(s: PathsView, i: usize) -> (PathsView, PcView) {
    if s.scan.len() == 0 {
        (
            s.set_node(i as int, with_peeked(s.selector[i as int], Some(s.frames[i + 1]))),
            PcView::Walk(i),
        )
    } else {
        (
            s.set_wait(Wait::WalkCheck(i)),
            PcView::Halt(StepView::Ask(QueryView::IsDir(s.scan.last()))),
        )
    }
}

/// Takes in the reply to what the traversal was waiting for.
pub open spec fn deliver(s: PathsView, reply: ReplyView) -> (PathsView, PcView) {
    match s.wait {
        Wait::Idle => enter(s, 0, s.scope),
        Wait::Exhausted => (s, PcView::Halt(StepView::End)),
        Wait::Enter(i) => {
            let node = s.selector[i as int];
            if !flag_of(reply) {
                (s, PcView::Return(i, None))
            } else {
                match node {
                    SelectorView::Precise { pattern } => (
                        s.set_wait(Wait::Exists(i)),
                        PcView::Halt(
                            StepView::Ask(QueryView::Exists(joined(s.frames[i as int], pattern))),
                        ),
                    ),
                    SelectorView::Wildcard { .. } => if has_entries(node) {
                        (s, PcView::Scan(i))
                    } else {
                        (
                            s.set_wait(Wait::Listing(i)),
                            PcView::Halt(StepView::Ask(QueryView::List(s.frames[i as int]))),
                        )
                    },
                    SelectorView::Recursive { .. } => (
                        s.set_node(i as int, begin_walk(node, s.frames[i as int])),
                        PcView::Walk(i),
                    ),
                    SelectorView::Terminating { .. } => (s, PcView::Return(i, None)),
                }
            }
        },
        Wait::Exists(i) => if flag_of(reply) {
            enter(
                s,
                (i + 1) as usize,
                joined(s.frames[i as int], literal_of(s.selector[i as int])),
            )
        } else {
            (s, PcView::Return(i, None))
        },
        Wait::Listing(i) => (
            s.set_node(
                i as int,
                with_entries(
                    s.selector[i as int],
                    children_in_order(s.frames[i as int], names_of(reply)),
                ),
            ),
            PcView::Scan(i),
        ),
        Wait::Entry(i) => if flag_of(reply) {
            (s, PcView::Return(i, Some(s.frames[i + 1])))
        } else {
            (s, PcView::Scan(i))
        },
        Wait::Final(i) => (
            s,
            PcView::Return(
                i,
                if flag_of(reply) {
                    Some(s.frames[i as int])
                } else {
                    None
                },
            ),
        ),
        Wait::WalkListing(i) => walk_scan(
            s.set_scan(children_reversed(s.frames[i + 1], names_of(reply))),
            i,
        ),
        Wait::WalkCheck(i) => {
            let s1 = s.set_scan(s.scan.drop_last());
            if flag_of(reply) {
                walk_scan(
                    s1.set_node(i as int, push_directory(s1.selector[i as int], s.scan.last())),
                    i,
                )
            } else {
                walk_scan(s1, i)
            }
        },
    }
}

/// One move of a traversal in the middle of a call.
///
/// - An answer goes up the chain. A precise selector passes it on. A
///   wildcard passes a match on and keeps the entry it came from as its
///   next, and on nothing goes on through its listing. A recursive
///   selector passes a match on and stays where it is, and on nothing
///   moves its walk on. What reaches the top ends the call.
/// - A wildcard takes the next entry, drops it where its name does not
///   match, hands it out where the chain ends after it, and hands it to the
///   next selector otherwise.
/// - A walk that stands at a directory hands it out where the chain ends
///   after it, and hands it to the next selector otherwise. A walk that
///   stands nowhere takes the next directory off its stack and asks for
///   its listing.
pub open spec fn advance(s: PathsView, pc: PcView) -> (PathsView, PcView) {
    match pc {
        PcView::Halt(_) => (s, pc),
        PcView::Return(i, r) => if i == 0 {
            match r {
                Some(p) => (s.set_wait(Wait::Idle), PcView::Halt(StepView::Yield(p))),
                None => (s.set_wait(Wait::Exhausted), PcView::Halt(StepView::End)),
            }
        } else {
            let j = (i - 1) as usize;
            let node = s.selector[j as int];
            match node {
                SelectorView::Wildcard { .. } => match r {
                    None => (s, PcView::Scan(j)),
                    Some(_) => (
                        s.set_node(j as int, push_entry(node, s.frames[i as int])),
                        PcView::Return(j, r),
                    ),
                },
                SelectorView::Recursive { .. } => match r {
                    None => (s.set_node(j as int, with_peeked(node, None)), PcView::Walk(j)),
                    Some(_) => (s, PcView::Return(j, r)),
                },
                _ => (s, PcView::Return(j, r)),
            }
        },
        PcView::Scan(i) => {
            let (node, entry) = pop_entry(s.selector[i as int]);
            let s1 = s.set_node(i as int, node);
            match entry {
                None => (s1, PcView::Return(i, None)),
                Some(e) => if !selects(node, name_of(e)) {
                    (s1, PcView::Scan(i))
                } else if s1.selector[i + 1] is Terminating {
                    if s1.is_dir {
                        (
                            s1.set_frame(i + 1, e).set_wait(Wait::Entry(i)),
                            PcView::Halt(StepView::Ask(QueryView::IsDir(e))),
                        )
                    } else {
                        (s1, PcView::Return(i, Some(e)))
                    }
                } else {
                    enter(s1, (i + 1) as usize, e)
                },
            }
        },
        PcView::Walk(i) => {
            let node = s.selector[i as int];
            match peeked(node) {
                Some(q) => if s.selector[i + 1] is Terminating {
                    (s.set_node(i as int, with_peeked(node, None)), PcView::Return(i, Some(q)))
                } else {
                    enter(s, (i + 1) as usize, q)
                },
                None => {
                    let (node1, next) = pop_directory(node);
                    let s1 = s.set_node(i as int, node1);
                    match next {
                        None => (s1, PcView::Return(i, None)),
                        Some(q) => (
                            s1.set_frame(i + 1, q).set_wait(Wait::WalkListing(i)),
                            PcView::Halt(StepView::Ask(QueryView::List(q))),
                        ),
                    }
                },
            }
        },
    }
}

/// How far up the chain a call stands.
pub open spec fn level(pc: PcView) -> int {
    match pc {
        PcView::Return(i, _) => i as int,
        PcView::Scan(i) => i as int,
        PcView::Walk(i) => i as int,
        PcView::Halt(_) => 0,
    }
}

/// A selector that is at work comes before its answer, and an answer
/// before the end of the call.
pub open spec fn rank(pc: PcView) -> int {
    match pc {
        PcView::Scan(_) | PcView::Walk(_) => 2,
        PcView::Return(_, _) => 1,
        PcView::Halt(_) => 0,
    }
}

/// How much of its listing a wildcard has left.
pub open spec fn listing_left(s: PathsView, pc: PcView) -> int {
    match pc {
        PcView::Scan(i) => match s.selector[i as int] {
            SelectorView::Wildcard { entries: Some(es), .. } => es.len() as int,
            _ => 0,
        },
        _ => 0,
    }
}

/// Moves a traversal on until its call is over.
pub open spec fn run(s: PathsView, pc: PcView) -> (PathsView, StepView)
    decreases level(pc), rank(pc), listing_left(s, pc),
    when s.wf_at(pc)
{
    match pc {
        PcView::Halt(step) => (s, step),
        _ => {
            let (s1, pc1) = advance(s, pc);
            run(s1, pc1)
        },
    }
}

/// One call: takes in the reply, and moves on to the next question, match
/// or end.
pub open spec fn next_spec(s: PathsView, reply: ReplyView) -> (PathsView, StepView) {
    let (s1, pc) = deliver(s, reply);
    run(s1, pc)
}

impl View for Paths {
    type V = PathsView;

    closed spec fn view(&self) -> PathsView {
        PathsView {
            scope: self.scope@,
            selector: selector_views(self.selector@),
            is_dir: self.is_dir,
            frames: path_views(self.frames@),
            scan: path_views(self.scan@),
            wait: self.wait,
        }
    }
}

impl Paths {
    proof fn lemma_sizes(&self)
        ensures
            self@.selector.len() == self.selector.len() <= usize::MAX,
            self@.frames.len() == self.frames.len() <= usize::MAX,
            self@.scan.len() == self.scan.len() <= usize::MAX,
    {
    }

    /// A copy of the path handed to the selector at place `i`.
    fn frame(&self, i: usize) -> (path: Path)
        requires
            i < self@.frames.len(),
        ensures
            path@ == self@.frames[i as int],
    {
        self.frames[i].duplicate()
    }

    /// Hands `path` to the selector at place `i`.
    fn set_frame(&mut self, i: usize, path: Path)
        requires
            i <= old(self)@.frames.len(),
        ensures
            final(self)@ == old(self)@.set_frame(i as int, path@),
    {
        if i < self.frames.len() {
            self.frames[i] = path;
            assert(path_views(self.frames@) == path_views(old(self).frames@).update(
                i as int,
                path@,
            ));
        } else {
            push_path(&mut self.frames, path);
        }
    }

    fn toggle_at(&mut self, i: usize) -> (was: Option<bool>)
        requires
            i < old(self)@.selector.len(),
        ensures
            final(self)@ == old(self)@.set_node(i as int, toggled(old(self)@.selector[i as int]).0),
            was == toggled(old(self)@.selector[i as int]).1,
    {
        let was = self.selector[i].toggle();
        assert(selector_views(self.selector@) == selector_views(old(self).selector@).update(
            i as int,
            self.selector[i as int]@,
        ));
        was
    }

    fn set_entries_at(&mut self, i: usize, listing: Vec<Path>)
        requires
            i < old(self)@.selector.len(),
        ensures
            final(self)@ == old(self)@.set_node(
                i as int,
                with_entries(old(self)@.selector[i as int], path_views(listing@)),
            ),
    {
        self.selector[i].set_entries(listing);
        assert(selector_views(self.selector@) == selector_views(old(self).selector@).update(
            i as int,
            self.selector[i as int]@,
        ));
    }

    fn next_entry_at(&mut self, i: usize) -> (entry: Option<Path>)
        requires
            i < old(self)@.selector.len(),
        ensures
            final(self)@ == old(self)@.set_node(
                i as int,
                pop_entry(old(self)@.selector[i as int]).0,
            ),
            path_option_view(entry) == pop_entry(old(self)@.selector[i as int]).1,
    {
        let entry = self.selector[i].next_entry();
        assert(selector_views(self.selector@) == selector_views(old(self).selector@).update(
            i as int,
            self.selector[i as int]@,
        ));
        entry
    }

    fn put_back_at(&mut self, i: usize, entry: Path)
        requires
            i < old(self)@.selector.len(),
        ensures
            final(self)@ == old(self)@.set_node(
                i as int,
                push_entry(old(self)@.selector[i as int], entry@),
            ),
    {
        self.selector[i].put_back(entry);
        assert(selector_views(self.selector@) == selector_views(old(self).selector@).update(
            i as int,
            self.selector[i as int]@,
        ));
    }

    fn start_walk_at(&mut self, i: usize, start: Path)
        requires
            i < old(self)@.selector.len(),
        ensures
            final(self)@ == old(self)@.set_node(
                i as int,
                begin_walk(old(self)@.selector[i as int], start@),
            ),
    {
        self.selector[i].start_walk(start);
        assert(selector_views(self.selector@) == selector_views(old(self).selector@).update(
            i as int,
            self.selector[i as int]@,
        ));
    }

    fn set_peeked_at(&mut self, i: usize, path: Option<Path>)
        requires
            i < old(self)@.selector.len(),
        ensures
            final(self)@ == old(self)@.set_node(
                i as int,
                with_peeked(old(self)@.selector[i as int], path_option_view(path)),
            ),
    {
        self.selector[i].set_peeked(path);
        assert(selector_views(self.selector@) == selector_views(old(self).selector@).update(
            i as int,
            self.selector[i as int]@,
        ));
    }

    fn next_directory_at(&mut self, i: usize) -> (path: Option<Path>)
        requires
            i < old(self)@.selector.len(),
        ensures
            final(self)@ == old(self)@.set_node(
                i as int,
                pop_directory(old(self)@.selector[i as int]).0,
            ),
            path_option_view(path) == pop_directory(old(self)@.selector[i as int]).1,
    {
        let path = self.selector[i].next_directory();
        assert(selector_views(self.selector@) == selector_views(old(self).selector@).update(
            i as int,
            self.selector[i as int]@,
        ));
        path
    }

    fn add_directory_at(&mut self, i: usize, path: Path)
        requires
            i < old(self)@.selector.len(),
        ensures
            final(self)@ == old(self)@.set_node(
                i as int,
                push_directory(old(self)@.selector[i as int], path@),
            ),
    {
        self.selector[i].add_directory(path);
        assert(selector_views(self.selector@) == selector_views(old(self).selector@).update(
            i as int,
            self.selector[i as int]@,
        ));
    }

    /// Hands `path` to the selector at place `i`.
    fn enter(&mut self, i: usize, path: Path) -> (pc: Pc)
        requires
            is_chain(old(self)@.selector),
            i < old(self)@.selector.len(),
            i <= old(self)@.frames.len(),
        ensures
            (final(self)@, pc@) == enter(old(self)@, i, path@),
            final(self)@.wf_at(pc@),
    {
        proof {
            self.lemma_sizes();
        }
        let copy = path.duplicate();
        self.set_frame(i, path);
        let ghost s1 = self@;
        let was = self.toggle_at(i);
        let ghost s2 = self@;
        let pc = match was {
            Some(true) => Pc::Return(i, None),
            Some(false) => {
                if self.is_dir {
                    self.wait = Wait::Final(i);
                    assert(self@ == s2.set_wait(Wait::Final(i)));
                    Pc::Halt(Step::Ask(Query::IsDir(copy)))
                } else {
                    Pc::Return(i, Some(copy))
                }
            },
            None => {
                self.wait = Wait::Enter(i);
                assert(self@ == s2.set_wait(Wait::Enter(i)));
                assert(s1.selector.update(i as int, s1.selector[i as int]) == s1.selector);
                Pc::Halt(Step::Ask(Query::IsDir(copy)))
            },
        };
        assert((self@, pc@) == enter(old(self)@, i, path@));
        pc
    }

    /// A walk looks at the next entry it has listed.
    fn walk_scan(&mut self, i: usize) -> (pc: Pc)
        requires
            is_chain(old(self)@.selector),
            i + 1 < old(self)@.selector.len(),
            i + 1 < old(self)@.frames.len(),
            old(self)@.selector[i as int] is Recursive,
        ensures
            (final(self)@, pc@) == walk_scan(old(self)@, i),
            final(self)@.wf_at(pc@),
    {
        proof {
            self.lemma_sizes();
        }
        let n = self.scan.len();
        if n == 0 {
            let at = self.frame(i + 1);
            self.set_peeked_at(i, Some(at));
            Pc::Walk(i)
        } else {
            let next = self.scan[n - 1].duplicate();
            self.wait = Wait::WalkCheck(i);
            Pc::Halt(Step::Ask(Query::IsDir(next)))
        }
    }

    /// Takes in the reply to what the traversal was waiting for.
    fn deliver(&mut self, reply: Reply) -> (pc: Pc)
        requires
            old(self)@.wf(),
        ensures
            (final(self)@, pc@) == deliver(old(self)@, reply@),
            final(self)@.wf_at(pc@),
    {
        proof {
            self.lemma_sizes();
        }
        let yes = is_yes(&reply);
        match self.wait {
            Wait::Idle => {
                let scope = self.scope.duplicate();
                self.enter(0, scope)
            },
            Wait::Exhausted => Pc::Halt(Step::End),
            Wait::Enter(i) => {
                if !yes {
                    Pc::Return(i, None)
                } else if self.selector[i].is_precise() {
                    let target = self.frames[i].join(self.selector[i].literal());
                    self.wait = Wait::Exists(i);
                    Pc::Halt(Step::Ask(Query::Exists(target)))
                } else if self.selector[i].is_wildcard() {
                    if self.selector[i].holds_entries() {
                        Pc::Scan(i)
                    } else {
                        let at = self.frame(i);
                        self.wait = Wait::Listing(i);
                        Pc::Halt(Step::Ask(Query::List(at)))
                    }
                } else if self.selector[i].is_recursive() {
                    let start = self.frame(i);
                    self.start_walk_at(i, start);
                    Pc::Walk(i)
                } else {
                    Pc::Return(i, None)
                }
            },
            Wait::Exists(i) => {
                if yes {
                    let target = self.frames[i].join(self.selector[i].literal());
                    self.enter(i + 1, target)
                } else {
                    Pc::Return(i, None)
                }
            },
            Wait::Listing(i) => {
                let names = names_in(reply);
                let listing = list_children(&self.frames[i], &names);
                self.set_entries_at(i, listing);
                Pc::Scan(i)
            },
            Wait::Entry(i) => {
                if yes {
                    let entry = self.frame(i + 1);
                    Pc::Return(i, Some(entry))
                } else {
                    Pc::Scan(i)
                }
            },
            Wait::Final(i) => {
                if yes {
                    let path = self.frame(i);
                    Pc::Return(i, Some(path))
                } else {
                    Pc::Return(i, None)
                }
            },
            Wait::WalkListing(i) => {
                let names = names_in(reply);
                self.scan = list_children_reversed(&self.frames[i + 1], &names);
                self.walk_scan(i)
            },
            Wait::WalkCheck(i) => {
                let candidate = pop_path(&mut self.scan);
                if yes {
                    match candidate {
                        Some(directory) => {
                            self.add_directory_at(i, directory);
                        },
                        None => {},
                    }
                }
                self.walk_scan(i)
            },
        }
    }

    /// An answer goes one place up the chain.
    fn resume(&mut self, i: usize, r: Option<Path>) -> (pc: Pc)
        requires
            old(self)@.wf_at(PcView::Return(i, path_option_view(r))),
        ensures
            (final(self)@, pc@) == advance(old(self)@, PcView::Return(i, path_option_view(r))),
            final(self)@.wf_at(pc@),
    {
        proof {
            self.lemma_sizes();
        }
        if i == 0 {
            match r {
                Some(p) => {
                    self.wait = Wait::Idle;
                    Pc::Halt(Step::Yield(p))
                },
                None => {
                    self.wait = Wait::Exhausted;
                    Pc::Halt(Step::End)
                },
            }
        } else {
            let j = i - 1;
            if self.selector[j].is_wildcard() {
                match r {
                    None => Pc::Scan(j),
                    Some(m) => {
                        let entry = self.frame(i);
                        self.put_back_at(j, entry);
                        Pc::Return(j, Some(m))
                    },
                }
            } else if self.selector[j].is_recursive() {
                match r {
                    None => {
                        self.set_peeked_at(j, None);
                        Pc::Walk(j)
                    },
                    Some(m) => Pc::Return(j, Some(m)),
                }
            } else {
                Pc::Return(j, r)
            }
        }
    }

    /// A wildcard takes the next entry of its listing.
    fn scan(&mut self, i: usize) -> (pc: Pc)
        requires
            old(self)@.wf_at(PcView::Scan(i)),
        ensures
            (final(self)@, pc@) == advance(old(self)@, PcView::Scan(i)),
            final(self)@.wf_at(pc@),
    {
        proof {
            self.lemma_sizes();
        }
        let popped = self.next_entry_at(i);
        proof {
            self.lemma_sizes();
        }
        let ghost s1 = self@;
        assert(self.selector[i as int]@ == s1.selector[i as int]);
        assert(self.selector[i + 1]@ == s1.selector[i + 1]);
        let pc = match popped {
            None => Pc::Return(i, None),
            Some(entry) => {
                if !self.selector[i].accepts(entry.file_name()) {
                    Pc::Scan(i)
                } else if self.selector[i + 1].is_terminating() {
                    if self.is_dir {
                        let copy = entry.duplicate();
                        self.set_frame(i + 1, entry);
                        self.wait = Wait::Entry(i);
                        assert(self@ == s1.set_frame(i + 1, entry@).set_wait(Wait::Entry(i)));
                        Pc::Halt(Step::Ask(Query::IsDir(copy)))
                    } else {
                        Pc::Return(i, Some(entry))
                    }
                } else {
                    self.enter(i + 1, entry)
                }
            },
        };
        assert((self@, pc@) == advance(old(self)@, PcView::Scan(i)));
        pc
    }

    /// A recursive selector goes on with its walk.
    fn walk(&mut self, i: usize) -> (pc: Pc)
        requires
            old(self)@.wf_at(PcView::Walk(i)),
        ensures
            (final(self)@, pc@) == advance(old(self)@, PcView::Walk(i)),
            final(self)@.wf_at(pc@),
    {
        proof {
            self.lemma_sizes();
        }
        match self.selector[i].peek() {
            Some(at) => {
                if self.selector[i + 1].is_terminating() {
                    self.set_peeked_at(i, None);
                    Pc::Return(i, Some(at))
                } else {
                    self.enter(i + 1, at)
                }
            },
            None => {
                let popped = self.next_directory_at(i);
                proof {
                    self.lemma_sizes();
                }
                match popped {
                    None => Pc::Return(i, None),
                    Some(next) => {
                        let copy = next.duplicate();
                        self.set_frame(i + 1, next);
                        self.wait = Wait::WalkListing(i);
                        Pc::Halt(Step::Ask(Query::List(copy)))
                    },
                }
            },
        }
    }

    /// Whether the traversal is sound. [`glob`] makes sound traversals and
    /// [`Paths::next`] keeps them so.
    pub open spec fn wf(&self) -> bool {
        self@.wf()
    }

    /// Takes in the reply to the question that the last step asked, and
    /// moves on to the next question, the next match, or the end.
    ///
    /// The first call, and the call after a match, take any reply. After
    /// the end, every call gives the end again.
    ///
    /// What the steps add up to, when every question is answered from one
    /// tree, is proved in [`crate::script`].
    pub fn next(&mut self, reply: Reply) -> (step: Step)
        requires
            old(self).wf(),
        ensures
            final(self).wf(),
            (final(self)@, step@) == next_spec(old(self)@, reply@),
    {
        let mut pc = self.deliver(reply);
        loop
            invariant
                self@.wf_at(pc@),
                run(self@, pc@) == next_spec(old(self)@, reply@),
            decreases level(pc@), rank(pc@), listing_left(self@, pc@),
        {
            match pc {
                Pc::Halt(step) => {
                    return step;
                },
                Pc::Return(i, r) => {
                    pc = self.resume(i, r);
                },
                Pc::Scan(i) => {
                    pc = self.scan(i);
                },
                Pc::Walk(i) => {
                    pc = self.walk(i);
                },
            }
        }
    }
}

fn is_yes(reply: &Reply) -> (yes: bool)
    ensures
        yes == flag_of(reply@),
{
    match reply {
        Reply::Flag(b) => *b,
        _ => false,
    }
}

fn names_in(reply: Reply) -> (names: Vec<String>)
    ensures
        texts(names@) == names_of(reply@),
{
    match reply {
        Reply::Names(names) => names,
        _ => {
            let names: Vec<String> = Vec::new();
            assert(texts(names@) == Seq::<Seq<char>>::empty());
            names
        },
    }
}

fn list_children(path: &Path, names: &Vec<String>) -> (entries: Vec<Path>)
    ensures
        path_views(entries@) == children_in_order(path@, texts(names@)),
{
    let mut entries: Vec<Path> = Vec::new();
    let mut k: usize = 0;
    while k < names.len()
        invariant
            k <= names.len(),
            path_views(entries@) == children_in_order(path@, texts(names@)).take(k as int),
        decreases names.len() - k,
    {
        let entry = path.child(names[k].as_str());
        push_path(&mut entries, entry);
        k += 1;
    }
    assert(children_in_order(path@, texts(names@)).take(k as int) == children_in_order(
        path@,
        texts(names@),
    ));
    entries
}

fn list_children_reversed(path: &Path, names: &Vec<String>) -> (entries: Vec<Path>)
    ensures
        path_views(entries@) == children_reversed(path@, texts(names@)),
{
    let n = names.len();
    let mut entries: Vec<Path> = Vec::new();
    let mut k: usize = 0;
    while k < n
        invariant
            k <= n == names.len(),
            path_views(entries@) == children_reversed(path@, texts(names@)).take(k as int),
        decreases n - k,
    {
        let entry = path.child(names[n - 1 - k].as_str());
        push_path(&mut entries, entry);
        k += 1;
    }
    assert(children_reversed(path@, texts(names@)).take(k as int) == children_reversed(
        path@,
        texts(names@),
    ));
    entries
}

/// The root that a pattern starts with, as the platform reads it.
#[derive(Debug)]
pub struct Root {
    /// The directory the root stands for.
    pub path: String,
    /// How many characters of the pattern the root takes up.
    pub length: usize,
    /// Whether it is a verbatim prefix, which is not supported.
    pub verbatim: bool,
}

/// A traversal that has not started: nothing remembered, nothing asked.
pub open spec fn fresh(scope: PathView, selector: Seq<SelectorView>, is_dir: bool) -> PathsView {
    PathsView {
        scope,
        selector,
        is_dir,
        frames: Seq::empty(),
        scan: Seq::empty(),
        wait: Wait::Idle,
    }
}

/// Whether a pattern asks for directories only: whether it ends in a
/// separator.
pub open spec fn wants_directories(pattern: Seq<char>) -> bool {
    pattern.len() > 0 && pattern.last() == SEPARATOR
}

/// What is left of a pattern after the first `length` characters.
pub open spec fn trimmed(pattern: Seq<char>, length: int) -> Seq<char> {
    if length <= pattern.len() {
        pattern.skip(length)
    } else {
        Seq::empty()
    }
}

/// What is said of a verbatim root.
pub open spec fn verbatim_message() -> Seq<char> {
    "verbatim paths are not supported"@
}

/// Where a traversal starts: at the root, or in the current directory.
pub open spec fn scope_of(root: Option<Root>) -> PathView {
    match root {
        Some(r) => PathView { root: r.path@, components: Seq::empty() },
        None => PathView { root: Seq::empty(), components: Seq::empty() },
    }
}

/// How many characters of the pattern the root takes up.
pub open spec fn root_length(root: Option<Root>) -> int {
    match root {
        Some(r) => r.length as int,
        None => 0,
    }
}

/// A pattern without its leading separator.
pub open spec fn rootless(pattern: Seq<char>) -> Seq<char> {
    if is_rooted(pattern) {
        pattern.skip(1)
    } else {
        pattern
    }
}

/// Where the traversal of a pattern starts, with `/` as the only
/// separator: at the root `/` for a pattern that starts with one, else in
/// the current directory.
pub open spec fn plain_scope(pattern: Seq<char>) -> PathView {
    if is_rooted(pattern) {
        PathView { root: seq![SEPARATOR], components: Seq::empty() }
    } else {
        PathView { root: Seq::empty(), components: Seq::empty() }
    }
}

/// The chain of any components is a chain.
pub proof fn lemma_chain_of_is_chain(components: Seq<Seq<char>>)
    ensures
        is_chain(chain_of(components)),
{
    let chain = chain_of(components);
    assert forall|i: int| 0 <= i < chain.len() implies (#[trigger] chain[i] is Terminating <==> i
        == chain.len() - 1) by {
        if i < components.len() {
            assert(chain[i] == selector_of(components[i]));
        }
    }
}

/// Sets up the traversal for a pattern whose root the caller has found.
///
/// The scope is the root, or the current directory where there is none.
/// The chain is built from what follows the root. A pattern that ends in a
/// separator asks for directories only.
///
/// Fails on a verbatim root, and where the chain cannot be built, with the
/// error for the text that is at fault.
pub fn glob_with_root(pattern: &str, root: Option<Root>) -> (r: Result<Paths, Error>)
    ensures
        match r {
            Ok(paths) => {
                &&& !(root matches Some(found) && found.verbatim)
                &&& chain_fault(trimmed(pattern@, root_length(root))) is None
                &&& pattern_components(trimmed(pattern@, root_length(root))).len() < usize::MAX
                &&& paths.wf()
                &&& paths@ == fresh(
                    scope_of(root),
                    chain_of(pattern_components(trimmed(pattern@, root_length(root)))),
                    wants_directories(pattern@),
                )
            },
            Err(e) => {
                if root matches Some(found) && found.verbatim {
                    e.pos == 0 && e.msg@ == verbatim_message()
                } else {
                    chain_fault(trimmed(pattern@, root_length(root))) matches Some(text)
                        && reports(e, text)
                }
            },
        },
{
    let chars = chars_of(pattern);
    let (scope, length) = match root {
        Some(found) => {
            if found.verbatim {
                return Err(Error { pos: 0, msg: "verbatim paths are not supported".to_owned() });
            }
            (Path::rooted(found.path), found.length)
        },
        None => (Path::current(), 0),
    };
    let mut rest = String::new();
    if length <= chars.len() {
        push_chars(&mut rest, &chars, length);
    }
    assert(rest@ == trimmed(pattern@, length as int));
    let is_dir = chars.len() > 0 && chars[chars.len() - 1] == SEPARATOR;
    match Selector::from_pattern(rest.as_str()) {
        Err(e) => Err(e),
        Ok(selector) => {
            proof {
                lemma_chain_of_is_chain(pattern_components(rest@));
                assert(chain_of(pattern_components(rest@)).len() == selector@.len());
            }
            let paths = Paths {
                scope,
                selector,
                is_dir,
                frames: Vec::new(),
                scan: Vec::new(),
                wait: Wait::Idle,
            };
            assert(paths@.frames == Seq::<PathView>::empty());
            assert(paths@.scan == Seq::<PathView>::empty());
            proof {
                paths.lemma_sizes();
            }
            Ok(paths)
        },
    }
}

/// Sets up the traversal for a pattern, with `/` as the only separator: a
/// pattern that starts with one is searched from the root `/`, any other
/// from the current directory.
pub fn glob(pattern: &str) -> (r: Result<Paths, Error>)
    ensures
        match r {
            Ok(paths) => {
                &&& chain_fault(rootless(pattern@)) is None
                &&& pattern_components(rootless(pattern@)).len() < usize::MAX
                &&& paths.wf()
                &&& paths@ == fresh(
                    plain_scope(pattern@),
                    chain_of(pattern_components(rootless(pattern@))),
                    wants_directories(pattern@),
                )
            },
            Err(e) => chain_fault(rootless(pattern@)) matches Some(text) && reports(e, text),
        },
{
    let chars = chars_of(pattern);
    if chars.len() > 0 && chars[0] == SEPARATOR {
        let mut path = String::new();
        push_char(&mut path, SEPARATOR);
        assert(path@ == seq![SEPARATOR]);
        glob_with_root(pattern, Some(Root { path, length: 1, verbatim: false }))
    } else {
        assert(pattern@.skip(0) == pattern@);
        glob_with_root(pattern, None)
    }
}

} // verus!
