//! What a traversal is for: the matches of a chain in a tree, said
//! outright, without the steps that find them.

use vstd::prelude::*;
use crate::glob::{children_in_order, children_reversed, PathsView, PcView, Wait};
use crate::glob::{fresh, lemma_chain_of_is_chain};
use crate::tree::Tree;
use crate::path::{joined, name_of, PathView};
use crate::selector::{
    chain_of, is_chain, recursive_component, selector_of, selects, SelectorView,
};

verus! {

/// Whether a selector remembers nothing.
pub open spec fn is_fresh(node: SelectorView) -> bool {
    match node {
        SelectorView::Precise { .. } => true,
        SelectorView::Wildcard { entries, .. } => entries is None,
        SelectorView::Recursive { directories } => directories is None,
        SelectorView::Terminating { terminated } => !terminated,
    }
}

/// Whether the selectors from place `k` on remember nothing.
pub open spec fn fresh_from(chain: Seq<SelectorView>, k: int) -> bool {
    forall|i: int| 0 <= i < chain.len() && k <= i ==> is_fresh(#[trigger] chain[i])
}

/// A selector with what it remembers taken away.
pub open spec fn reset(node: SelectorView) -> SelectorView {
    match node {
        SelectorView::Precise { .. } => node,
        SelectorView::Wildcard { pattern, .. } => SelectorView::Wildcard { pattern, entries: None },
        SelectorView::Recursive { .. } => SelectorView::Recursive { directories: None },
        SelectorView::Terminating { .. } => SelectorView::Terminating { terminated: false },
    }
}

/// The chain with the selectors after place `k` reset.
pub open spec fn reset_after(chain: Seq<SelectorView>, k: int) -> Seq<SelectorView> {
    Seq::new(
        chain.len(),
        |i: int|
            if i > k {
                reset(chain[i])
            } else {
                chain[i]
            },
    )
}

/// The matches that the chain from place `i` on finds below `path`, in
/// the order in which it finds them, with the selectors in the state they
/// are in.
///
/// - The end of the chain finds the path itself, unless it has just done
///   so, and in directory-only mode only if the path is a directory.
/// - A precise selector needs the path to be a directory in which its
///   literal exists, and finds what the rest of the chain finds there.
/// - A wildcard needs the path to be a directory, and goes through the
///   entries it holds, or through the listing where it holds none.
pub open spec fn results(
    chain: Seq<SelectorView>,
    only_dirs: bool,
    tree: Tree,
    i: int,
    path: PathView,
) -> Seq<PathView>
    decreases 2 * (chain.len() - i) + 1, 0nat, 0nat,
{
    if i < 0 || i >= chain.len() {
        Seq::empty()
    } else {
        match chain[i] {
            SelectorView::Terminating { terminated } => if !terminated && (!only_dirs
                || tree.directories.contains(path)) {
                seq![path]
            } else {
                Seq::empty()
            },
            SelectorView::Precise { pattern } => if tree.directories.contains(path)
                && tree.present.contains(joined(path, pattern)) {
                results(chain, only_dirs, tree, i + 1, joined(path, pattern))
            } else {
                Seq::empty()
            },
            SelectorView::Wildcard { entries, .. } => if tree.directories.contains(path) {
                scan_results(
                    chain,
                    only_dirs,
                    tree,
                    i,
                    match entries {
                        Some(es) => es,
                        None => children_in_order(path, tree.names(path)),
                    },
                )
            } else {
                Seq::empty()
            },
            SelectorView::Recursive { directories } => if tree.directories.contains(path) {
                match directories {
                    None => walk_results(chain, only_dirs, tree, i, seq![path], tree.depth),
                    Some(w) => match w.peeked {
                        Some(at) => hand_results(chain, only_dirs, tree, i, at) + walk_results(
                            reset_after(chain, i),
                            only_dirs,
                            tree,
                            i,
                            w.stack,
                            tree.depth,
                        ),
                        None => walk_results(chain, only_dirs, tree, i, w.stack, tree.depth),
                    },
                }
            } else {
                Seq::empty()
            },
        }
    }
}

/// The directories among the entries, the last entry first.
pub open spec fn kept(tree: Tree, entries: Seq<PathView>) -> Seq<PathView>
    decreases entries.len(),
{
    if entries.len() == 0 {
        Seq::empty()
    } else if tree.directories.contains(entries.last()) {
        seq![entries.last()] + kept(tree, entries.drop_last())
    } else {
        kept(tree, entries.drop_last())
    }
}

/// The matches that the recursive selector at place `i` finds for the
/// directory its walk stands at: the directory itself where the chain ends
/// after the selector, else what the rest of the chain finds below it.
pub open spec fn hand_results(
    chain: Seq<SelectorView>,
    only_dirs: bool,
    tree: Tree,
    i: int,
    at: PathView,
) -> Seq<PathView>
    decreases 2 * (chain.len() - i), 0nat, 0nat,
{
    if i < 0 || i + 1 >= chain.len() {
        Seq::empty()
    } else if chain[i + 1] is Terminating {
        seq![at]
    } else {
        results(chain, only_dirs, tree, i + 1, at)
    }
}

/// The matches that a walk finds at the directory `at` and below: those
/// for the directory itself, then those below its entries that are
/// directories, in the order in which it lists them. `fuel` is how many
/// levels down the walk may go.
pub open spec fn visit_results(
    chain: Seq<SelectorView>,
    only_dirs: bool,
    tree: Tree,
    i: int,
    at: PathView,
    fuel: nat,
) -> Seq<PathView>
    decreases 2 * (chain.len() - i), fuel + 1, 0nat,
{
    if i < 0 || i + 1 >= chain.len() {
        Seq::empty()
    } else {
        hand_results(chain, only_dirs, tree, i, at) + (if fuel == 0 {
            Seq::empty()
        } else {
            walk_results(
                reset_after(chain, i),
                only_dirs,
                tree,
                i,
                kept(tree, children_reversed(at, tree.names(at))),
                (fuel - 1) as nat,
            )
        })
    }
}

/// The matches that a walk finds through the directories on its stack, the
/// last one first.
pub open spec fn walk_results(
    chain: Seq<SelectorView>,
    only_dirs: bool,
    tree: Tree,
    i: int,
    stack: Seq<PathView>,
    fuel: nat,
) -> Seq<PathView>
    decreases 2 * (chain.len() - i), fuel + 1, stack.len() + 1,
{
    if i < 0 || i + 1 >= chain.len() || stack.len() == 0 {
        Seq::empty()
    } else {
        visit_results(chain, only_dirs, tree, i, stack.last(), fuel) + walk_results(
            reset_after(chain, i),
            only_dirs,
            tree,
            i,
            stack.drop_last(),
            fuel,
        )
    }
}

/// The matches that the wildcard at place `i` finds through the entries
/// `entries`, the last one first: under each entry whose name fits, the
/// entry itself where the chain ends after the wildcard, else what the rest
/// of the chain finds below it. The rest of the chain starts afresh for
/// every entry but the first.
pub open spec fn scan_results(
    chain: Seq<SelectorView>,
    only_dirs: bool,
    tree: Tree,
    i: int,
    entries: Seq<PathView>,
) -> Seq<PathView>
    decreases 2 * (chain.len() - i), 0nat, entries.len(),
{
    if i < 0 || i + 1 >= chain.len() || entries.len() == 0 {
        Seq::empty()
    } else {
        entry_results(chain, only_dirs, tree, i, entries.last()) + scan_results(
            reset_after(chain, i),
            only_dirs,
            tree,
            i,
            entries.drop_last(),
        )
    }
}

/// The matches that the wildcard at place `i` finds under one entry.
pub open spec fn entry_results(
    chain: Seq<SelectorView>,
    only_dirs: bool,
    tree: Tree,
    i: int,
    entry: PathView,
) -> Seq<PathView>
    decreases 2 * (chain.len() - i), 0nat, 0nat,
{
    if i < 0 || i + 1 >= chain.len() {
        Seq::empty()
    } else if !selects(chain[i], name_of(entry)) {
        Seq::empty()
    } else if chain[i + 1] is Terminating {
        if !only_dirs || tree.directories.contains(entry) {
            seq![entry]
        } else {
            Seq::empty()
        }
    } else {
        results(chain, only_dirs, tree, i + 1, entry)
    }
}

/// Two chains are made of the same selectors, whatever they remember.
pub open spec fn same_selectors(a: Seq<SelectorView>, b: Seq<SelectorView>) -> bool {
    &&& a.len() == b.len()
    &&& forall|i: int| 0 <= i < a.len() ==> reset(#[trigger] a[i]) == reset(b[i])
}

/// Two chains agree from place `k` on.
pub open spec fn same_from(a: Seq<SelectorView>, b: Seq<SelectorView>, k: int) -> bool {
    &&& a.len() == b.len()
    &&& forall|i: int| 0 <= i < a.len() && k <= i ==> #[trigger] a[i] == b[i]
}

/// Two chains agree before place `k`.
pub open spec fn same_before(a: Seq<SelectorView>, b: Seq<SelectorView>, k: int) -> bool {
    &&& a.len() == b.len()
    &&& forall|i: int| 0 <= i < k && i < a.len() ==> #[trigger] a[i] == b[i]
}

/// Resetting what is fresh changes nothing.
pub proof fn lemma_reset_fresh(chain: Seq<SelectorView>, k: int)
    requires
        fresh_from(chain, k + 1),
    ensures
        reset_after(chain, k) == chain,
{
    assert forall|i: int| 0 <= i < chain.len() implies reset_after(chain, k)[i] == chain[i] by {
        if i > k {
            assert(is_fresh(chain[i]));
        }
    }
}

/// The selector at place `k` has been handed its path in this call, has
/// passed it on, and waits for what comes back.
pub open spec fn entered(s: PathsView, tree: Tree, k: int) -> bool {
    &&& 0 <= k
    &&& k + 1 < s.frames.len()
    &&& k + 1 < s.selector.len()
    &&& tree.directories.contains(s.frames[k])
    &&& match s.selector[k] {
        SelectorView::Precise { pattern } => tree.present.contains(s.frames[k + 1]) && s.frames[k
            + 1] == joined(s.frames[k], pattern),
        SelectorView::Wildcard { entries, .. } => entries is Some && selects(
            s.selector[k],
            name_of(s.frames[k + 1]),
        ) && !(s.selector[k + 1] is Terminating),
        SelectorView::Recursive { directories } => directories is Some && directories->0.peeked
            == Some(s.frames[k + 1]) && !(s.selector[k + 1] is Terminating),
        SelectorView::Terminating { .. } => false,
    }
}

/// The selector at place `k` is at rest: it and those after it remember
/// nothing, or what they remember fits the path it was last handed.
pub open spec fn rested(s: PathsView, tree: Tree, k: int) -> bool {
    fresh_from(s.selector, k) || (0 <= k < s.frames.len() && k < s.selector.len()
        && match s.selector[k] {
        SelectorView::Terminating { .. } => true,
        SelectorView::Precise { pattern } => k + 1 < s.frames.len() && tree.directories.contains(
            s.frames[k],
        ) && tree.present.contains(s.frames[k + 1]) && s.frames[k + 1] == joined(
            s.frames[k],
            pattern,
        ),
        SelectorView::Wildcard { entries, .. } => tree.directories.contains(s.frames[k])
            && entries is Some && (fresh_from(s.selector, k + 1) || (k + 1 < s.frames.len()
            && entries->0.len() > 0 && entries->0.last() == s.frames[k + 1] && selects(
            s.selector[k],
            name_of(s.frames[k + 1]),
        ) && !(s.selector[k + 1] is Terminating))),
        SelectorView::Recursive { directories } => tree.directories.contains(s.frames[k])
            && directories is Some && (fresh_from(s.selector, k + 1) || (k + 1 < s.frames.len()
            && directories->0.peeked == Some(s.frames[k + 1]) && !(s.selector[k + 1]
            is Terminating))),
    })
}

/// In directory-only mode the chain ends in the empty component that the
/// trailing separator leaves.
pub open spec fn ends_in_separator(s: PathsView) -> bool {
    s.is_dir ==> s.selector.len() >= 2 && s.selector[s.selector.len() - 2]
        == (SelectorView::Precise { pattern: Seq::empty() })
}

/// What does not change while a traversal runs.
pub open spec fn grounded(s: PathsView) -> bool {
    &&& is_chain(s.selector)
    &&& s.selector.len() <= usize::MAX
    &&& ends_in_separator(s)
    &&& s.frames.len() > 0 ==> s.frames[0] == s.scope
}

/// The selectors before place `l` are in the middle of their work, those
/// from `l` on are at rest.
#[verifier::opaque]
pub open spec fn spine(s: PathsView, tree: Tree, l: int) -> bool {
    &&& grounded(s)
    &&& forall|k: int| 0 <= k < l ==> #[trigger] entered(s, tree, k)
    &&& forall|k: int| l <= k < s.selector.len() && 0 <= k ==> #[trigger] rested(s, tree, k)
}

/// The selectors before place `l` are in the middle of their work, those
/// after `l` are at rest, and the one at `l` is about to pass a path on.
#[verifier::opaque]
pub open spec fn spine_open(s: PathsView, tree: Tree, l: int) -> bool {
    &&& grounded(s)
    &&& forall|k: int| 0 <= k < l ==> #[trigger] entered(s, tree, k)
    &&& forall|k: int| l < k < s.selector.len() && 0 <= k ==> #[trigger] rested(s, tree, k)
}

pub(crate) proof fn lemma_spine_opens(s: PathsView, tree: Tree, l: int)
    requires
        spine(s, tree, l),
    ensures
        spine_open(s, tree, l),
{
    reveal(spine);
    reveal(spine_open);
}

/// The invariant between two calls.
pub open spec fn settled(s: PathsView, tree: Tree) -> bool {
    match s.wait {
        Wait::Idle => spine(s, tree, 0),
        Wait::Exhausted => true,
        Wait::Enter(i) => spine(s, tree, i as int),
        Wait::Exists(i) => spine(s, tree, i as int) && tree.directories.contains(
            s.frames[i as int],
        ),
        Wait::Listing(i) => spine(s, tree, i as int) && tree.directories.contains(
            s.frames[i as int],
        ) && !(s.selector[i as int] matches SelectorView::Wildcard { entries: Some(_), .. }),
        Wait::Final(i) => spine(s, tree, i as int) && s.is_dir && s.selector[i as int]
            == (SelectorView::Terminating { terminated: true }),
        Wait::WalkListing(i) | Wait::WalkCheck(i) => spine(s, tree, i as int) && (
        s.selector[i as int] matches SelectorView::Recursive { directories: Some(w) }
            && w.peeked is None),
        Wait::Entry(_) => false,
    }
}

/// The invariant in the middle of a call.
pub open spec fn settled_at(s: PathsView, pc: PcView, tree: Tree) -> bool {
    match pc {
        PcView::Return(i, None) => spine(s, tree, i as int) && fresh_from(s.selector, i as int),
        PcView::Return(i, Some(_)) => spine(s, tree, i as int),
        PcView::Scan(i) => spine(s, tree, i as int) && s.selector[i as int] matches SelectorView::Wildcard {
            entries: Some(_),
            ..
        },
        PcView::Walk(i) => spine(s, tree, i as int) && s.selector[i as int] matches SelectorView::Recursive {
            directories: Some(_),
        },
        PcView::Halt(_) => settled(s, tree),
    }
}

/// The entries that a wildcard holds.
pub open spec fn entries_of(node: SelectorView) -> Seq<PathView> {
    match node {
        SelectorView::Wildcard { entries: Some(es), .. } => es,
        _ => Seq::empty(),
    }
}

pub(crate) proof fn lemma_spine_entered(s: PathsView, tree: Tree, l: int, k: int)
    requires
        spine(s, tree, l),
        0 <= k < l,
    ensures
        entered(s, tree, k),
{
    reveal(spine);
}

pub(crate) proof fn lemma_spine_rested(s: PathsView, tree: Tree, l: int, k: int)
    requires
        spine(s, tree, l),
        0 <= k,
        l <= k < s.selector.len(),
    ensures
        rested(s, tree, k),
{
    reveal(spine);
}

pub(crate) proof fn lemma_spine_grounded(s: PathsView, tree: Tree, l: int)
    requires
        spine(s, tree, l),
    ensures
        grounded(s),
{
    reveal(spine);
}

/// The spine does not depend on what the traversal waits for.
pub(crate) proof fn lemma_spine_set_wait(s: PathsView, tree: Tree, l: int, wait: Wait)
    requires
        spine(s, tree, l),
    ensures
        spine(s.set_wait(wait), tree, l),
{
    reveal(spine);
    let s1 = s.set_wait(wait);
    assert forall|k: int| 0 <= k < l implies #[trigger] entered(s1, tree, k) by {
        assert(entered(s, tree, k));
    }
    assert forall|k: int| l <= k < s1.selector.len() && 0 <= k implies #[trigger] rested(
        s1,
        tree,
        k,
    ) by {
        assert(rested(s, tree, k));
    }
}

/// The spine does not depend on the entries that a walk has still to look
/// at.
pub(crate) proof fn lemma_spine_set_scan(s: PathsView, tree: Tree, l: int, scan: Seq<PathView>)
    requires
        spine(s, tree, l),
    ensures
        spine(s.set_scan(scan), tree, l),
{
    reveal(spine);
    let s1 = s.set_scan(scan);
    assert forall|k: int| 0 <= k < l implies #[trigger] entered(s1, tree, k) by {
        assert(entered(s, tree, k));
    }
    assert forall|k: int| l <= k < s1.selector.len() && 0 <= k implies #[trigger] rested(
        s1,
        tree,
        k,
    ) by {
        assert(rested(s, tree, k));
    }
}

/// Where the selectors after place `i` remember nothing, the path handed
/// to the next one does not matter to the spine.
pub(crate) proof fn lemma_spine_frame_fresh(s: PathsView, tree: Tree, i: int, path: PathView)
    requires
        spine(s, tree, i),
        0 <= i < s.frames.len(),
        i < s.selector.len(),
        fresh_from(s.selector, i + 1),
        !is_fresh(s.selector[i]),
    ensures
        spine(s.set_frame(i + 1, path), tree, i),
{
    reveal(spine);
    let s1 = s.set_frame(i + 1, path);
    assert forall|k: int| 0 <= k < i implies #[trigger] entered(s1, tree, k) by {
        assert(entered(s, tree, k));
    }
    assert forall|k: int| i <= k < s1.selector.len() && 0 <= k implies #[trigger] rested(
        s1,
        tree,
        k,
    ) by {
        if k > i {
            lemma_fresh_deeper(s.selector, i + 1, k);
        } else {
            assert(rested(s, tree, i));
            assert(!fresh_from(s.selector, i));
        }
    }
}

/// Freshness carries over to a chain that is the same from there on.
pub(crate) proof fn lemma_fresh_same(a: Seq<SelectorView>, b: Seq<SelectorView>, k: int)
    requires
        same_from(a, b, k),
        fresh_from(a, k),
    ensures
        fresh_from(b, k),
{
    assert forall|i: int| 0 <= i < b.len() && k <= i implies is_fresh(#[trigger] b[i]) by {
        assert(a[i] == b[i]);
        assert(is_fresh(a[i]));
    }
}

pub(crate) proof fn lemma_fresh_deeper(chain: Seq<SelectorView>, k: int, m: int)
    requires
        fresh_from(chain, k),
        k <= m,
    ensures
        fresh_from(chain, m),
{
}

/// Changing what one selector remembers leaves the chain made of the same
/// selectors.
pub(crate) proof fn lemma_same_after_update(chain: Seq<SelectorView>, j: int, node: SelectorView)
    requires
        0 <= j < chain.len(),
        reset(node) == reset(chain[j]),
    ensures
        same_selectors(chain.update(j, node), chain),
        same_before(chain.update(j, node), chain, j),
        same_from(chain.update(j, node), chain, j + 1),
{
}

/// A call starts by handing the scope to the head of the chain.
pub(crate) proof fn lemma_spine_start(s: PathsView, tree: Tree)
    requires
        spine(s, tree, 0),
    ensures
        spine(s.set_frame(0, s.scope), tree, 0),
{
    reveal(spine);
    let s1 = s.set_frame(0, s.scope);
    if s.frames.len() > 0 {
        assert(s1.frames == s.frames);
        assert(s1 == s);
    } else {
        assert forall|k: int| 0 <= k < s1.selector.len() implies #[trigger] rested(s1, tree, k) by {
            assert(rested(s, tree, k));
        }
    }
}

/// The selector at place `i` passes `path` on to the next one.
pub(crate) proof fn lemma_spine_descend(s: PathsView, tree: Tree, i: int, path: PathView)
    requires
        spine_open(s, tree, i),
        0 <= i < s.frames.len(),
        i + 1 < s.selector.len(),
        tree.directories.contains(s.frames[i]),
        match s.selector[i] {
            SelectorView::Precise { pattern } => tree.present.contains(path) && path == joined(
                s.frames[i],
                pattern,
            ),
            SelectorView::Wildcard { entries, .. } => entries is Some && selects(
                s.selector[i],
                name_of(path),
            ) && !(s.selector[i + 1] is Terminating),
            SelectorView::Recursive { directories } => directories is Some
                && directories->0.peeked == Some(path) && !(s.selector[i + 1] is Terminating),
            SelectorView::Terminating { .. } => false,
        },
        fresh_from(s.selector, i + 1) || (i + 1 < s.frames.len() && s.frames[i + 1] == path),
    ensures
        spine(s.set_frame(i + 1, path), tree, i + 1),
{
    reveal(spine);
    reveal(spine_open);
    let s1 = s.set_frame(i + 1, path);
    assert forall|k: int| 0 <= k < i + 1 implies #[trigger] entered(s1, tree, k) by {
        if k < i {
            assert(entered(s, tree, k));
        }
    }
    if i + 1 < s.frames.len() && s.frames[i + 1] == path {
        assert(s1.frames == s.frames);
        assert(s1 == s);
    } else {
        assert forall|k: int| i + 1 <= k < s1.selector.len() implies #[trigger] rested(
            s1,
            tree,
            k,
        ) by {
            lemma_fresh_deeper(s.selector, i + 1, k);
        }
    }
}

/// The spine after a wildcard or a recursive selector at rest has changed
/// what it remembers, where the selectors after it remember nothing.
pub(crate) proof fn lemma_spine_popped_fresh(s: PathsView, tree: Tree, i: int, node: SelectorView)
    requires
        spine(s, tree, i),
        0 <= i,
        i + 1 < s.selector.len(),
        i < s.frames.len(),
        (s.selector[i] is Wildcard && node is Wildcard) || (s.selector[i] is Recursive && node
            is Recursive),
        reset(node) == reset(s.selector[i]),
        tree.directories.contains(s.frames[i]),
        fresh_from(s.selector, i + 1),
    ensures
        spine(s.set_node(i, node), tree, i),
        fresh_from(s.set_node(i, node).selector, i + 1),
        is_fresh(node) ==> fresh_from(s.set_node(i, node).selector, i),
{
    reveal(spine);
    let s1 = s.set_node(i, node);
    lemma_same_after_update(s.selector, i, node);
    lemma_fresh_same(s.selector, s1.selector, i + 1);
    assert forall|k: int| 0 <= k < i implies #[trigger] entered(s1, tree, k) by {
        assert(entered(s, tree, k));
    }
    assert forall|k: int| i <= k < s1.selector.len() && 0 <= k implies #[trigger] rested(
        s1,
        tree,
        k,
    ) by {
        if k > i {
            lemma_fresh_deeper(s1.selector, i + 1, k);
        } else {
            if is_fresh(node) {
                assert forall|m: int| 0 <= m < s1.selector.len() && i <= m implies is_fresh(
                    #[trigger] s1.selector[m],
                ) by {
                    if m > i {
                        lemma_fresh_deeper(s1.selector, i + 1, m);
                    }
                }
            }
        }
    }
    if is_fresh(node) {
        assert forall|m: int| 0 <= m < s1.selector.len() && i <= m implies is_fresh(
            #[trigger] s1.selector[m],
        ) by {
            if m > i {
                lemma_fresh_deeper(s1.selector, i + 1, m);
            }
        }
    }
}

/// Whether the components fit the mode: in directory-only mode the last
/// one is the empty component that a trailing separator leaves.
pub open spec fn fits_mode(components: Seq<Seq<char>>, is_dir: bool) -> bool {
    is_dir ==> components.len() > 0 && components.last().len() == 0
}

/// The matches of a pattern in a tree: what the chain of its components
/// finds below the scope, in the order of the traversal.
pub open spec fn matches_of(
    scope: PathView,
    components: Seq<Seq<char>>,
    is_dir: bool,
    tree: Tree,
) -> Seq<PathView> {
    results(chain_of(components), is_dir, tree, 0, scope)
}

/// A traversal that has not started is sound and settled, and has all the
/// matches of its pattern still to find.
pub proof fn lemma_fresh_settled(
    scope: PathView,
    components: Seq<Seq<char>>,
    is_dir: bool,
    tree: Tree,
)
    requires
        components.len() < usize::MAX,
        fits_mode(components, is_dir),
    ensures
        fresh(scope, chain_of(components), is_dir).wf(),
        settled(fresh(scope, chain_of(components), is_dir), tree),
        fresh_from(chain_of(components), 0),
{
    let s = fresh(scope, chain_of(components), is_dir);
    let c = s.selector;
    lemma_chain_of_is_chain(components);
    assert forall|i: int| 0 <= i < c.len() implies is_fresh(#[trigger] c[i]) by {
        if i < components.len() {
            assert(c[i] == selector_of(components[i]));
        }
    }
    if is_dir {
        let last = components.len() - 1;
        assert(c[last] == selector_of(components[last]));
        assert(components[last] == Seq::<char>::empty());
        assert(components[last] != recursive_component()) by {
            assert(recursive_component().len() == 2);
        }
        assert(!crate::selector::has_wildcard(components[last]));
    }
    assert(spine(s, tree, 0)) by {
        reveal(spine);
        assert forall|k: int| 0 <= k < c.len() implies #[trigger] rested(s, tree, k) by {
            assert(fresh_from(c, k));
        }
    }
}

} // verus!
