//! A directory tree as a traversal sees it, and what a traversal finds
//! in it.

use vstd::prelude::*;
use crate::glob::{next_spec, PathsView, QueryView, ReplyView, StepView};
use crate::path::PathView;

verus! {

/// A directory tree: which paths are directories, which paths exist, the
/// names that each directory lists, in the order it lists them, and how
/// many components a directory has at most.
pub struct Tree {
    pub directories: Set<PathView>,
    pub present: Set<PathView>,
    pub listing: Map<PathView, Seq<Seq<char>>>,
    pub depth: nat,
}

impl Tree {
    /// The names a directory lists; none for what is no directory or
    /// cannot be read.
    pub open spec fn names(self, path: PathView) -> Seq<Seq<char>> {
        if self.listing.dom().contains(path) {
            self.listing[path]
        } else {
            Seq::empty()
        }
    }

    /// Whether no directory lies deeper than the tree says.
    pub open spec fn is_bounded(self) -> bool {
        forall|path: PathView| #[trigger]
            self.directories.contains(path) ==> path.components.len() <= self.depth
    }

    /// Whether no directory lists a name twice.
    pub open spec fn lists_once(self) -> bool {
        forall|path: PathView| (#[trigger] self.names(path)).no_duplicates()
    }

    /// The tree's answer to a question.
    pub open spec fn answer(self, query: QueryView) -> ReplyView {
        match query {
            QueryView::IsDir(path) => ReplyView::Flag(self.directories.contains(path)),
            QueryView::Exists(path) => ReplyView::Flag(self.present.contains(path)),
            QueryView::List(path) => ReplyView::Names(self.names(path)),
        }
    }

    /// The reply that the tree gives to what a traversal waits for.
    pub open spec fn reply_to(self, s: PathsView) -> ReplyView {
        match s.pending() {
            Some(query) => self.answer(query),
            None => ReplyView::Nothing,
        }
    }
}

/// The matches that a traversal finds in its next `calls` calls, when
/// every question is answered from `tree`.
pub open spec fn found(s: PathsView, tree: Tree, calls: nat) -> Seq<PathView>
    decreases calls,
{
    if calls == 0 {
        Seq::empty()
    } else {
        let (s1, step) = next_spec(s, tree.reply_to(s));
        match step {
            StepView::Yield(path) => seq![path] + found(s1, tree, (calls - 1) as nat),
            _ => found(s1, tree, (calls - 1) as nat),
        }
    }
}

} // verus!
