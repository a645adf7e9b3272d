//! The chain of selectors that a pattern breaks down into, one for each
//! path component, and what each of them remembers between two matches.

use vstd::prelude::*;
use crate::path::{path_views, pop_path, push_path, Path, PathView};
use crate::pattern::{glob_matches, is_valid_pattern, reports, Error, Pattern};
use crate::text::{chars_of, split, split_chars, texts};
use crate::token::SEPARATOR;

verus! {

broadcast use crate::text::lemma_seq_char_is_scalar_value;

/// A depth-first walk over the directories below a starting point, with
/// one step of lookahead.
pub struct Directories {
    /// Directories found and not yet visited; the last one is next.
    pub stack: Vec<Path>,
    /// The directory the walk stands at, once it has been looked up.
    pub peeked: Option<Path>,
}

/// The mathematical value of a [`Directories`].
pub struct DirectoriesView {
    pub stack: Seq<PathView>,
    pub peeked: Option<PathView>,
}

/// The value of a path that may be missing.
pub open spec fn path_option_view(path: Option<Path>) -> Option<PathView> {
    match path {
        Some(p) => Some(p@),
        None => None,
    }
}

impl View for Directories {
    type V = DirectoriesView;

    open spec fn view(&self) -> DirectoriesView {
        DirectoriesView { stack: path_views(self.stack@), peeked: path_option_view(self.peeked) }
    }
}

/// One link of the chain.
#[allow(inconsistent_fields)]
pub enum Selector {
    /// A component without wildcards, joined on as it stands.
    Precise { pattern: String },
    /// A component with `*`, `?` or `[`. `entries` holds what is left of the
    /// directory listing between two matches; the last entry is next.
    Wildcard { pattern: Pattern, entries: Option<Vec<Path>> },
    /// The component `**`, with its walk between two matches.
    Recursive { directories: Option<Directories> },
    /// The end of the chain. The flag is set by each match it hands out and
    /// cleared by the call after it.
    Terminating { terminated: bool },
}

/// The mathematical value of a [`Selector`].
#[allow(inconsistent_fields)]
pub enum SelectorView {
    Precise { pattern: Seq<char> },
    Wildcard { pattern: Seq<char>, entries: Option<Seq<PathView>> },
    Recursive { directories: Option<DirectoriesView> },
    Terminating { terminated: bool },
}

impl View for Selector {
    type V = SelectorView;

    open spec fn view(&self) -> SelectorView {
        match *self {
            Selector::Precise { pattern } => SelectorView::Precise { pattern: pattern@ },
            Selector::Wildcard { pattern, entries: Some(es) } => SelectorView::Wildcard {
                pattern: pattern@,
                entries: Some(path_views(es@)),
            },
            Selector::Wildcard { pattern, entries: None } => SelectorView::Wildcard {
                pattern: pattern@,
                entries: None,
            },
            Selector::Recursive { directories: Some(d) } => SelectorView::Recursive {
                directories: Some(d@),
            },
            Selector::Recursive { directories: None } => SelectorView::Recursive {
                directories: None,
            },
            Selector::Terminating { terminated } => SelectorView::Terminating { terminated },
        }
    }
}

/// The values of a chain of selectors.
pub open spec fn selector_views(chain: Seq<Selector>) -> Seq<SelectorView> {
    Seq::new(chain.len(), |i: int| chain[i]@)
}

/// A chain ends in its one terminating selector.
pub open spec fn is_chain(chain: Seq<SelectorView>) -> bool {
    &&& chain.len() > 0
    &&& forall|i: int| 0 <= i < chain.len() ==> (#[trigger] chain[i] is Terminating <==> i
        == chain.len() - 1)
}

/// The component that stands for the recursive wildcard.
pub open spec fn recursive_component() -> Seq<char> {
    seq!['*', '*']
}

/// Whether a character makes its component a wildcard.
pub open spec fn is_wildcard_char(c: char) -> bool {
    c == '[' || c == '*' || c == '?'
}

/// Whether a component holds a wildcard character.
pub open spec fn has_wildcard(component: Seq<char>) -> bool {
    exists|i: int| 0 <= i < component.len() && is_wildcard_char(#[trigger] component[i])
}

/// Whether a component is compiled into a pattern of its own.
pub open spec fn is_wild_component(component: Seq<char>) -> bool {
    component != recursive_component() && has_wildcard(component)
}

/// `pieces`, with each run of recursive wildcards cut down to its first.
pub open spec fn collapsed(pieces: Seq<Seq<char>>) -> Seq<Seq<char>>
    decreases pieces.len(),
{
    if pieces.len() == 0 {
        Seq::empty()
    } else if pieces.len() > 1 && pieces.last() == recursive_component() && pieces[pieces.len()
        - 2] == recursive_component() {
        collapsed(pieces.drop_last())
    } else {
        collapsed(pieces.drop_last()).push(pieces.last())
    }
}

/// The components that a pattern selects by, one after the other.
pub open spec fn pattern_components(pattern: Seq<char>) -> Seq<Seq<char>> {
    collapsed(split(pattern, SEPARATOR))
}

/// The selector for one component, with nothing remembered yet.
pub open spec fn selector_of(component: Seq<char>) -> SelectorView {
    if component == recursive_component() {
        SelectorView::Recursive { directories: None }
    } else if has_wildcard(component) {
        SelectorView::Wildcard { pattern: component, entries: None }
    } else {
        SelectorView::Precise { pattern: component }
    }
}

/// The chain for a run of components.
pub open spec fn chain_of(components: Seq<Seq<char>>) -> Seq<SelectorView> {
    Seq::new(components.len(), |i: int| selector_of(components[i])).push(
        SelectorView::Terminating { terminated: false },
    )
}

/// The first component at or after `from` that has to be compiled and is
/// no valid pattern.
pub open spec fn first_invalid(components: Seq<Seq<char>>, from: int) -> Option<int>
    decreases components.len() - from,
{
    if from < 0 || from >= components.len() {
        None
    } else if is_wild_component(components[from]) && !is_valid_pattern(components[from]) {
        Some(from)
    } else {
        first_invalid(components, from + 1)
    }
}

/// The text that keeps a pattern from becoming a chain: the whole pattern
/// where it is not valid, else its first component that is not.
pub open spec fn chain_fault(pattern: Seq<char>) -> Option<Seq<char>> {
    if !is_valid_pattern(pattern) {
        Some(pattern)
    } else {
        match first_invalid(pattern_components(pattern), 0) {
            Some(k) => Some(pattern_components(pattern)[k]),
            None => None,
        }
    }
}

/// What the end of the chain does when it is asked: it answers once, then
/// says no once. The result is the flag as it was.
pub open spec fn toggled(node: SelectorView) -> (SelectorView, Option<bool>) {
    match node {
        SelectorView::Terminating { terminated } => (
            SelectorView::Terminating { terminated: !terminated },
            Some(terminated),
        ),
        _ => (node, None),
    }
}

/// Whether a wildcard holds a listing.
pub open spec fn has_entries(node: SelectorView) -> bool {
    node matches SelectorView::Wildcard { entries: Some(_), .. }
}

/// A wildcard with a fresh listing.
pub open spec fn with_entries(node: SelectorView, entries: Seq<PathView>) -> SelectorView {
    match node {
        SelectorView::Wildcard { pattern, .. } => SelectorView::Wildcard {
            pattern,
            entries: Some(entries),
        },
        _ => node,
    }
}

/// Takes the next entry off a wildcard's listing. A listing that has run
/// out is dropped.
pub open spec fn pop_entry(node: SelectorView) -> (SelectorView, Option<PathView>) {
    match node {
        SelectorView::Wildcard { pattern, entries: Some(es) } => if es.len() > 0 {
            (SelectorView::Wildcard { pattern, entries: Some(es.drop_last()) }, Some(es.last()))
        } else {
            (SelectorView::Wildcard { pattern, entries: None }, None)
        },
        _ => (node, None),
    }
}

/// Puts an entry back on a wildcard's listing, to be the next again.
pub open spec fn push_entry(node: SelectorView, entry: PathView) -> SelectorView {
    match node {
        SelectorView::Wildcard { pattern, entries: Some(es) } => SelectorView::Wildcard {
            pattern,
            entries: Some(es.push(entry)),
        },
        SelectorView::Wildcard { pattern, entries: None } => SelectorView::Wildcard {
            pattern,
            entries: Some(seq![entry]),
        },
        _ => node,
    }
}

/// Whether a wildcard's pattern matches the final component of `entry`.
pub open spec fn selects(node: SelectorView, name: Seq<char>) -> bool {
    match node {
        SelectorView::Wildcard { pattern, .. } => glob_matches(pattern, name),
        _ => false,
    }
}

/// Starts a walk at `start`, unless one is under way.
pub open spec fn begin_walk(node: SelectorView, start: PathView) -> SelectorView {
    match node {
        SelectorView::Recursive { directories: None } => SelectorView::Recursive {
            directories: Some(DirectoriesView { stack: seq![start], peeked: None }),
        },
        _ => node,
    }
}

/// The directory a walk stands at, if it has looked it up.
pub open spec fn peeked(node: SelectorView) -> Option<PathView> {
    match node {
        SelectorView::Recursive { directories: Some(d) } => d.peeked,
        _ => None,
    }
}

/// Sets the directory a walk stands at.
pub open spec fn with_peeked(node: SelectorView, peeked: Option<PathView>) -> SelectorView {
    match node {
        SelectorView::Recursive { directories: Some(d) } => SelectorView::Recursive {
            directories: Some(DirectoriesView { stack: d.stack, peeked }),
        },
        _ => node,
    }
}

/// Takes the next directory off a walk's stack. A walk with none left is
/// over and is dropped.
pub open spec fn pop_directory(node: SelectorView) -> (SelectorView, Option<PathView>) {
    match node {
        SelectorView::Recursive { directories: Some(d) } => if d.stack.len() > 0 {
            (
                SelectorView::Recursive {
                    directories: Some(
                        DirectoriesView { stack: d.stack.drop_last(), peeked: d.peeked },
                    ),
                },
                Some(d.stack.last()),
            )
        } else {
            (SelectorView::Recursive { directories: None }, None)
        },
        _ => (node, None),
    }
}

/// Puts a directory on a walk's stack.
pub open spec fn push_directory(node: SelectorView, directory: PathView) -> SelectorView {
    match node {
        SelectorView::Recursive { directories: Some(d) } => SelectorView::Recursive {
            directories: Some(
                DirectoriesView { stack: d.stack.push(directory), peeked: d.peeked },
            ),
        },
        _ => node,
    }
}

/// The literal of a precise selector; empty for the others.
pub open spec fn literal_of(node: SelectorView) -> Seq<char> {
    match node {
        SelectorView::Precise { pattern } => pattern,
        _ => Seq::empty(),
    }
}

impl Selector {
    /// Whether this is the end of the chain.
    pub fn is_terminating(&self) -> (b: bool)
        ensures
            b == (self@ is Terminating),
    {
        match self {
            Selector::Terminating { .. } => true,
            _ => false,
        }
    }

    /// Whether this is a precise selector.
    pub fn is_precise(&self) -> (b: bool)
        ensures
            b == (self@ is Precise),
    {
        match self {
            Selector::Precise { .. } => true,
            _ => false,
        }
    }

    /// Whether this is a wildcard selector.
    pub fn is_wildcard(&self) -> (b: bool)
        ensures
            b == (self@ is Wildcard),
    {
        match self {
            Selector::Wildcard { .. } => true,
            _ => false,
        }
    }

    /// Whether this is a recursive selector.
    pub fn is_recursive(&self) -> (b: bool)
        ensures
            b == (self@ is Recursive),
    {
        match self {
            Selector::Recursive { .. } => true,
            _ => false,
        }
    }

    /// The literal of a precise selector.
    pub fn literal(&self) -> (s: &str)
        ensures
            s@ == literal_of(self@),
    {
        match self {
            Selector::Precise { pattern } => pattern.as_str(),
            _ => {
                proof {
                    reveal_strlit("");
                }
                assert(""@ == Seq::<char>::empty());
                ""
            },
        }
    }

    /// Flips the flag at the end of the chain and says what it was.
    pub fn toggle(&mut self) -> (was: Option<bool>)
        ensures
            (final(self)@, was) == toggled(old(self)@),
    {
        match self {
            Selector::Terminating { terminated } => {
                let was = *terminated;
                *terminated = !was;
                Some(was)
            },
            _ => None,
        }
    }

    /// Whether a wildcard holds a listing.
    pub fn holds_entries(&self) -> (b: bool)
        ensures
            b == has_entries(self@),
    {
        match self {
            Selector::Wildcard { entries: Some(_), .. } => true,
            _ => false,
        }
    }

    /// Gives a wildcard a fresh listing.
    pub fn set_entries(&mut self, listing: Vec<Path>)
        ensures
            final(self)@ == with_entries(old(self)@, path_views(listing@)),
    {
        match self {
            Selector::Wildcard { entries, .. } => {
                *entries = Some(listing);
            },
            _ => {},
        }
    }

    /// Takes the next entry off a wildcard's listing.
    pub fn next_entry(&mut self) -> (entry: Option<Path>)
        ensures
            (final(self)@, path_option_view(entry)) == pop_entry(old(self)@),
    {
        match self {
            Selector::Wildcard { entries, .. } => {
                let left = match entries {
                    Some(es) => pop_path(es),
                    None => None,
                };
                if left.is_none() {
                    *entries = None;
                }
                left
            },
            _ => None,
        }
    }

    /// Puts an entry back on a wildcard's listing.
    pub fn put_back(&mut self, entry: Path)
        ensures
            final(self)@ == push_entry(old(self)@, entry@),
    {
        match self {
            Selector::Wildcard { entries, .. } => {
                match entries {
                    Some(es) => {
                        push_path(es, entry);
                    },
                    None => {
                        let mut es: Vec<Path> = Vec::new();
                        push_path(&mut es, entry);
                        assert(path_views(es@) == seq![entry@]);
                        *entries = Some(es);
                    },
                }
            },
            _ => {},
        }
    }

    /// Whether a wildcard's pattern matches `name`.
    pub fn accepts(&self, name: &str) -> (b: bool)
        ensures
            b == selects(self@, name@),
    {
        match self {
            Selector::Wildcard { pattern, .. } => pattern.matches(name),
            _ => false,
        }
    }

    /// Starts a walk at `start`, unless one is under way.
    pub fn start_walk(&mut self, start: Path)
        ensures
            final(self)@ == begin_walk(old(self)@, start@),
    {
        match self {
            Selector::Recursive { directories } => {
                if directories.is_none() {
                    let mut stack: Vec<Path> = Vec::new();
                    push_path(&mut stack, start);
                    assert(path_views(stack@) == seq![start@]);
                    *directories = Some(Directories { stack, peeked: None });
                }
            },
            _ => {},
        }
    }

    /// The directory a walk stands at, if it has looked it up.
    pub fn peek(&self) -> (p: Option<Path>)
        ensures
            path_option_view(p) == peeked(self@),
    {
        match self {
            Selector::Recursive { directories: Some(d) } => match &d.peeked {
                Some(p) => Some(p.duplicate()),
                None => None,
            },
            _ => None,
        }
    }

    /// Sets the directory a walk stands at.
    pub fn set_peeked(&mut self, p: Option<Path>)
        ensures
            final(self)@ == with_peeked(old(self)@, path_option_view(p)),
    {
        match self {
            Selector::Recursive { directories: Some(d) } => {
                d.peeked = p;
            },
            _ => {},
        }
    }

    /// Takes the next directory off a walk's stack; ends the walk where
    /// there is none.
    pub fn next_directory(&mut self) -> (p: Option<Path>)
        ensures
            (final(self)@, path_option_view(p)) == pop_directory(old(self)@),
    {
        match self {
            Selector::Recursive { directories } => {
                let left = match directories {
                    Some(d) => pop_path(&mut d.stack),
                    None => {
                        return None;
                    },
                };
                if left.is_none() {
                    *directories = None;
                }
                left
            },
            _ => None,
        }
    }

    /// Puts a directory on a walk's stack.
    pub fn add_directory(&mut self, p: Path)
        ensures
            final(self)@ == push_directory(old(self)@, p@),
    {
        match self {
            Selector::Recursive { directories: Some(d) } => {
                push_path(&mut d.stack, p);
            },
            _ => {},
        }
    }
}

fn push_selector(chain: &mut Vec<Selector>, node: Selector)
    ensures
        selector_views(final(chain)@) == selector_views(old(chain)@).push(node@),
{
    chain.push(node);
    assert(selector_views(chain@) == selector_views(old(chain)@).push(node@));
}

fn is_recursive_text(chars: &Vec<char>) -> (b: bool)
    ensures
        b == (chars@ == recursive_component()),
{
    let b = chars.len() == 2 && chars[0] == '*' && chars[1] == '*';
    assert(b ==> chars@ =~= recursive_component());
    b
}

fn holds_wildcard(chars: &Vec<char>) -> (b: bool)
    ensures
        b == has_wildcard(chars@),
{
    let mut i: usize = 0;
    while i < chars.len()
        invariant
            i <= chars.len(),
            forall|j: int| 0 <= j < i ==> !is_wildcard_char(#[trigger] chars@[j]),
        decreases chars.len() - i,
    {
        let c = chars[i];
        if c == '[' || c == '*' || c == '?' {
            return true;
        }
        i += 1;
    }
    false
}

impl Selector {
    /// Cuts each run of recursive wildcards among `pieces` down to its
    /// first.
    pub fn collapse(pieces: &Vec<String>) -> (components: Vec<String>)
        ensures
            texts(components@) == collapsed(texts(pieces@)),
    {
        let ghost all = texts(pieces@);
        let mut components: Vec<String> = Vec::new();
        let mut was_recursive = false;
        let mut i: usize = 0;
        assert(all.take(0) == Seq::<Seq<char>>::empty());
        assert(texts(components@) == Seq::<Seq<char>>::empty());
        while i < pieces.len()
            invariant
                i <= pieces.len(),
                all == texts(pieces@),
                texts(components@) == collapsed(all.take(i as int)),
                was_recursive == (i > 0 && all[i - 1] == recursive_component()),
            decreases pieces.len() - i,
        {
            let ghost before = texts(components@);
            assert(all.take(i + 1).drop_last() == all.take(i as int));
            let chars = chars_of(pieces[i].as_str());
            let recursive = is_recursive_text(&chars);
            if !(recursive && was_recursive) {
                components.push(pieces[i].clone());
                assert(texts(components@) == before.push(pieces[i as int]@));
            }
            was_recursive = recursive;
            i += 1;
        }
        assert(all.take(i as int) == all);
        components
    }

    /// Builds the chain for the given components: a recursive selector for
    /// `**`, a wildcard for a component with `*`, `?` or `[`, a precise one
    /// for any other, and the terminating selector at the end.
    ///
    /// Fails at the first wildcard component that is no valid pattern, with
    /// the error for that component.
    pub fn from_components(components: &Vec<String>) -> (r: Result<Vec<Selector>, Error>)
        ensures
            match r {
                Ok(chain) => {
                    &&& first_invalid(texts(components@), 0) is None
                    &&& selector_views(chain@) == chain_of(texts(components@))
                },
                Err(e) => {
                    &&& first_invalid(texts(components@), 0) matches Some(k)
                    &&& reports(e, texts(components@)[k])
                },
            },
    {
        let ghost all = texts(components@);
        let mut chain: Vec<Selector> = Vec::new();
        let mut k: usize = 0;
        assert(selector_views(chain@) == Seq::new(0, |i: int| selector_of(all[i])));
        while k < components.len()
            invariant
                k <= components.len(),
                all == texts(components@),
                selector_views(chain@) == Seq::new(k as nat, |i: int| selector_of(all[i])),
                first_invalid(all, 0) == first_invalid(all, k as int),
            decreases components.len() - k,
        {
            let ghost before = selector_views(chain@);
            let chars = chars_of(components[k].as_str());
            if is_recursive_text(&chars) {
                push_selector(&mut chain, Selector::Recursive { directories: None });
            } else if holds_wildcard(&chars) {
                match Pattern::new(components[k].as_str()) {
                    Err(e) => {
                        return Err(e);
                    },
                    Ok(pattern) => {
                        push_selector(&mut chain, Selector::Wildcard { pattern, entries: None });
                    },
                }
            } else {
                push_selector(&mut chain, Selector::Precise { pattern: components[k].clone() });
            }
            assert(selector_views(chain@) == Seq::new(
                (k + 1) as nat,
                |i: int| selector_of(all[i]),
            ));
            k += 1;
        }
        push_selector(&mut chain, Selector::Terminating { terminated: false });
        Ok(chain)
    }

    /// Builds the chain for a pattern: checks the pattern as a whole, splits
    /// it at the separators, collapses runs of `**`, and builds the chain of
    /// the components.
    pub fn from_pattern(pattern: &str) -> (r: Result<Vec<Selector>, Error>)
        ensures
            r is Ok <==> chain_fault(pattern@) is None,
            r matches Ok(chain) ==> selector_views(chain@) == chain_of(
                pattern_components(pattern@),
            ) && pattern_components(pattern@).len() < usize::MAX,
            r matches Err(e) ==> chain_fault(pattern@) matches Some(text) && reports(e, text),
    {
        match Pattern::new(pattern) {
            Err(e) => {
                return Err(e);
            },
            Ok(_) => {},
        }
        let chars = chars_of(pattern);
        let pieces = split_chars(&chars, SEPARATOR, 0);
        assert(chars@.skip(0) == pattern@);
        let components = Selector::collapse(&pieces);
        match Selector::from_components(&components) {
            Err(e) => Err(e),
            Ok(chain) => {
                let links = chain.len();
                assert(selector_views(chain@).len() == links);
                assert(chain_of(texts(components@)).len() == texts(components@).len() + 1);
                Ok(chain)
            },
        }
    }
}

} // verus!
