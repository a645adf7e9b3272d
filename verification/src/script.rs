//! The steps of a traversal, said outright: which questions it asks and
//! which matches it finds, in order, when a tree answers.

use vstd::prelude::*;
use crate::distinct::{lemma_results_distinct, walks_from};
use crate::members::{alike, law_matches_whatever_the_order};
use crate::glob::{
    advance, children_in_order, children_reversed, deliver, enter, flag_of, fresh, level,
    listing_left, next_spec, rank, run, walk_scan, PathsView, PcView, QueryView, StepView, Wait,
};
use crate::laws::{lemma_advance_wf, lemma_deliver_wf, lemma_next_wf};
use crate::tree::{found, Tree};
use crate::path::{joined, name_of, PathView};
use crate::selector::{
    begin_walk, chain_of, literal_of, peeked, pop_directory, pop_entry, push_directory, push_entry,
    selects, toggled, with_entries, with_peeked, SelectorView,
};
use crate::semantics::{
    entered, entries_of, entry_results, fits_mode, fresh_from, hand_results, is_fresh, kept,
    lemma_fresh_deeper, lemma_fresh_same, lemma_fresh_settled, lemma_reset_fresh,
    lemma_same_after_update, lemma_spine_descend, lemma_spine_entered, lemma_spine_frame_fresh,
    lemma_spine_grounded, lemma_spine_opens, lemma_spine_popped_fresh, lemma_spine_rested,
    lemma_spine_set_scan, lemma_spine_set_wait, lemma_spine_start, matches_of, reset, reset_after,
    rested, results, same_before, same_from, same_selectors, scan_results, settled, settled_at,
    spine, spine_open, visit_results, walk_results,
};

verus! {

/// The question whether a path is a directory, as a step.
pub open spec fn ask_dir(path: PathView) -> StepView {
    StepView::Ask(QueryView::IsDir(path))
}

/// The question whether a path exists, as a step.
pub open spec fn ask_exists(path: PathView) -> StepView {
    StepView::Ask(QueryView::Exists(path))
}

/// The question for the listing of a directory, as a step.
pub open spec fn ask_list(path: PathView) -> StepView {
    StepView::Ask(QueryView::List(path))
}

/// The steps from handing `path` to the selector at place `i` until that
/// selector has nothing more, with the selectors in the state they are in.
/// `back` holds the questions that lead back to this selector: they are
/// asked again after every match, when the traversal starts from the top
/// once more.
pub open spec fn script(
    chain: Seq<SelectorView>,
    only_dirs: bool,
    tree: Tree,
    i: int,
    path: PathView,
    back: Seq<StepView>,
) -> Seq<StepView>
    decreases 2 * (chain.len() - i) + 1, 0nat, 1nat,
{
    if i < 0 || i >= chain.len() {
        Seq::empty()
    } else {
        match chain[i] {
            SelectorView::Terminating { terminated } => if terminated {
                Seq::empty()
            } else if only_dirs {
                if tree.directories.contains(path) {
                    seq![ask_dir(path), StepView::Yield(path)] + back
                } else {
                    seq![ask_dir(path)]
                }
            } else {
                seq![StepView::Yield(path)] + back
            },
            _ => seq![ask_dir(path)] + opened(chain, only_dirs, tree, i, path, back),
        }
    }
}

/// The steps of the selector at place `i`, which is not the end of the
/// chain, once it knows whether `path` is a directory.
pub open spec fn opened(
    chain: Seq<SelectorView>,
    only_dirs: bool,
    tree: Tree,
    i: int,
    path: PathView,
    back: Seq<StepView>,
) -> Seq<StepView>
    decreases 2 * (chain.len() - i) + 1, 0nat, 0nat,
{
    if i < 0 || i >= chain.len() || !tree.directories.contains(path) {
        Seq::empty()
    } else {
        match chain[i] {
            SelectorView::Precise { pattern } => {
                let target = joined(path, pattern);
                if tree.present.contains(target) {
                    seq![ask_exists(target)] + script(
                        chain,
                        only_dirs,
                        tree,
                        i + 1,
                        target,
                        back + seq![ask_dir(path), ask_exists(target)],
                    )
                } else {
                    seq![ask_exists(target)]
                }
            },
            SelectorView::Wildcard { entries, .. } => match entries {
                Some(es) => scan_script(chain, only_dirs, tree, i, es, back + seq![ask_dir(path)]),
                None => seq![ask_list(path)] + scan_script(
                    chain,
                    only_dirs,
                    tree,
                    i,
                    children_in_order(path, tree.names(path)),
                    back + seq![ask_dir(path)],
                ),
            },
            SelectorView::Recursive { directories } => match directories {
                None => walk(
                    chain,
                    only_dirs,
                    tree,
                    i,
                    seq![path],
                    tree.depth,
                    back + seq![ask_dir(path)],
                ),
                Some(w) => match w.peeked {
                    Some(at) => hand(chain, only_dirs, tree, i, at, back + seq![ask_dir(path)])
                        + walk(
                        reset_after(chain, i),
                        only_dirs,
                        tree,
                        i,
                        w.stack,
                        tree.depth,
                        back + seq![ask_dir(path)],
                    ),
                    None => walk(
                        chain,
                        only_dirs,
                        tree,
                        i,
                        w.stack,
                        tree.depth,
                        back + seq![ask_dir(path)],
                    ),
                },
            },
            _ => Seq::empty(),
        }
    }
}

/// The questions whether the entries are directories, the last entry
/// first.
pub open spec fn checks(entries: Seq<PathView>) -> Seq<StepView>
    decreases entries.len(),
{
    if entries.len() == 0 {
        Seq::empty()
    } else {
        seq![ask_dir(entries.last())] + checks(entries.drop_last())
    }
}

/// The steps of the recursive selector at place `i` for the directory its
/// walk stands at: the directory itself where the chain ends after the
/// selector, else the steps of the rest of the chain below it. `back`
/// leads back to the selector at work.
pub open spec fn hand(
    chain: Seq<SelectorView>,
    only_dirs: bool,
    tree: Tree,
    i: int,
    at: PathView,
    back: Seq<StepView>,
) -> Seq<StepView>
    decreases 2 * (chain.len() - i), 0nat, 0nat,
{
    if i < 0 || i + 1 >= chain.len() {
        Seq::empty()
    } else if chain[i + 1] is Terminating {
        seq![StepView::Yield(at)] + back
    } else {
        script(chain, only_dirs, tree, i + 1, at, back)
    }
}

/// The steps of a walk that moves to the directory `at`: it lists the
/// directory and asks of each entry whether it is a directory, hands the
/// directory to the rest of the chain, and goes on below the entries that
/// are directories. `fuel` is how many levels down the walk may go.
pub open spec fn visit(
    chain: Seq<SelectorView>,
    only_dirs: bool,
    tree: Tree,
    i: int,
    at: PathView,
    fuel: nat,
    back: Seq<StepView>,
) -> Seq<StepView>
    decreases 2 * (chain.len() - i), fuel + 1, 0nat,
{
    let entries = children_reversed(at, tree.names(at));
    if i < 0 || i + 1 >= chain.len() {
        Seq::empty()
    } else {
        seq![ask_list(at)] + (checks(entries) + (hand(chain, only_dirs, tree, i, at, back) + (
        if fuel == 0 {
            Seq::empty()
        } else {
            walk(
                reset_after(chain, i),
                only_dirs,
                tree,
                i,
                kept(tree, entries),
                (fuel - 1) as nat,
                back,
            )
        })))
    }
}

/// The steps of a walk through the directories on its stack, the last one
/// first. The rest of the chain starts afresh for every directory but the
/// first.
pub open spec fn walk(
    chain: Seq<SelectorView>,
    only_dirs: bool,
    tree: Tree,
    i: int,
    stack: Seq<PathView>,
    fuel: nat,
    back: Seq<StepView>,
) -> Seq<StepView>
    decreases 2 * (chain.len() - i), fuel + 1, stack.len() + 1,
{
    if i < 0 || i + 1 >= chain.len() || stack.len() == 0 {
        Seq::empty()
    } else {
        visit(chain, only_dirs, tree, i, stack.last(), fuel, back) + walk(
            reset_after(chain, i),
            only_dirs,
            tree,
            i,
            stack.drop_last(),
            fuel,
            back,
        )
    }
}

/// The steps of the wildcard at place `i` through the entries `entries`,
/// the last one first. `back` leads back to the wildcard at work.
pub open spec fn scan_script(
    chain: Seq<SelectorView>,
    only_dirs: bool,
    tree: Tree,
    i: int,
    entries: Seq<PathView>,
    back: Seq<StepView>,
) -> Seq<StepView>
    decreases 2 * (chain.len() - i), 0nat, entries.len(),
{
    if i < 0 || i + 1 >= chain.len() || entries.len() == 0 {
        Seq::empty()
    } else {
        entry_script(chain, only_dirs, tree, i, entries.last(), back) + scan_script(
            reset_after(chain, i),
            only_dirs,
            tree,
            i,
            entries.drop_last(),
            back,
        )
    }
}

/// The steps of the wildcard at place `i` for one entry.
pub open spec fn entry_script(
    chain: Seq<SelectorView>,
    only_dirs: bool,
    tree: Tree,
    i: int,
    entry: PathView,
    back: Seq<StepView>,
) -> Seq<StepView>
    decreases 2 * (chain.len() - i), 0nat, 0nat,
{
    if i < 0 || i + 1 >= chain.len() {
        Seq::empty()
    } else if !selects(chain[i], name_of(entry)) {
        Seq::empty()
    } else if chain[i + 1] is Terminating {
        if only_dirs {
            if tree.directories.contains(entry) {
                seq![ask_dir(entry), StepView::Yield(entry)] + back
            } else {
                seq![ask_dir(entry)]
            }
        } else {
            seq![StepView::Yield(entry)] + back
        }
    } else {
        script(chain, only_dirs, tree, i + 1, entry, back)
    }
}

/// The questions that the selector at place `k` asks before it passes a
/// path on.
pub open spec fn level_questions(chain: Seq<SelectorView>, frames: Seq<PathView>, k: int) -> Seq<
    StepView,
> {
    match chain[k] {
        SelectorView::Precise { .. } => seq![ask_dir(frames[k]), ask_exists(frames[k + 1])],
        _ => seq![ask_dir(frames[k])],
    }
}

/// The questions that lead from the top of the chain to the selector at
/// place `i`, along the paths last handed to the selectors.
pub open spec fn back_to(chain: Seq<SelectorView>, frames: Seq<PathView>, i: int) -> Seq<StepView>
    decreases i,
{
    if i <= 0 {
        Seq::empty()
    } else {
        back_to(chain, frames, i - 1) + level_questions(chain, frames, i - 1)
    }
}

/// The steps still to come once the selector at place `k` has nothing
/// more: those of the entries left to the wildcards before it, the nearest
/// first.
pub open spec fn after(
    chain: Seq<SelectorView>,
    frames: Seq<PathView>,
    only_dirs: bool,
    tree: Tree,
    k: int,
) -> Seq<StepView>
    decreases k,
{
    if k <= 0 || k > chain.len() {
        Seq::empty()
    } else {
        match chain[k - 1] {
            SelectorView::Wildcard { entries: Some(es), .. } => scan_script(
                reset_after(chain, k - 1),
                only_dirs,
                tree,
                k - 1,
                es,
                back_to(chain, frames, k),
            ) + after(chain, frames, only_dirs, tree, k - 1),
            SelectorView::Recursive { directories: Some(w) } => walk(
                reset_after(chain, k - 1),
                only_dirs,
                tree,
                k - 1,
                w.stack,
                tree.depth,
                back_to(chain, frames, k),
            ) + after(chain, frames, only_dirs, tree, k - 1),
            _ => after(chain, frames, only_dirs, tree, k - 1),
        }
    }
}

/// Two runs of paths agree up to place `k`.
pub open spec fn same_frames(a: Seq<PathView>, b: Seq<PathView>, k: int) -> bool {
    forall|j: int| 0 <= j <= k ==> #[trigger] a[j] == b[j]
}

/// The steps from place `i` on depend on the selectors from there on
/// alone.
pub proof fn lemma_script_same(
    a: Seq<SelectorView>,
    b: Seq<SelectorView>,
    only_dirs: bool,
    tree: Tree,
    i: int,
    path: PathView,
    back: Seq<StepView>,
)
    requires
        same_from(a, b, i),
    ensures
        script(a, only_dirs, tree, i, path, back) == script(b, only_dirs, tree, i, path, back),
        opened(a, only_dirs, tree, i, path, back) == opened(b, only_dirs, tree, i, path, back),
    decreases 2 * (a.len() - i) + 1, 0nat, 0nat,
{
    if 0 <= i < a.len() {
        assert(a[i] == b[i]);
        match a[i] {
            SelectorView::Precise { pattern } => {
                let target = joined(path, pattern);
                lemma_script_same(
                    a,
                    b,
                    only_dirs,
                    tree,
                    i + 1,
                    target,
                    back + seq![ask_dir(path), ask_exists(target)],
                );
            },
            SelectorView::Wildcard { entries, .. } => {
                let es = match entries {
                    Some(es) => es,
                    None => children_in_order(path, tree.names(path)),
                };
                lemma_scan_script_same(a, b, only_dirs, tree, i, es, back + seq![ask_dir(path)]);
            },
            SelectorView::Recursive { directories } => {
                let more = back + seq![ask_dir(path)];
                let ra = reset_after(a, i);
                let rb = reset_after(b, i);
                assert(same_from(ra, rb, i + 1)) by {
                    assert forall|k: int| 0 <= k < ra.len() && i + 1 <= k implies #[trigger] ra[k]
                        == rb[k] by {
                        assert(a[k] == b[k]);
                    }
                }
                match directories {
                    None => {
                        lemma_walk_same(a, b, only_dirs, tree, i, seq![path], tree.depth, more);
                    },
                    Some(w) => {
                        match w.peeked {
                            Some(at) => {
                                lemma_hand_same(a, b, only_dirs, tree, i, at, more);
                                lemma_walk_same(ra, rb, only_dirs, tree, i, w.stack, tree.depth, more);
                            },
                            None => {
                                lemma_walk_same(a, b, only_dirs, tree, i, w.stack, tree.depth, more);
                            },
                        }
                    },
                }
            },
            _ => {},
        }
    }
}

/// The steps of a recursive selector for one directory depend on the
/// selectors after it alone.
pub proof fn lemma_hand_same(
    a: Seq<SelectorView>,
    b: Seq<SelectorView>,
    only_dirs: bool,
    tree: Tree,
    i: int,
    at: PathView,
    back: Seq<StepView>,
)
    requires
        same_from(a, b, i + 1),
    ensures
        hand(a, only_dirs, tree, i, at, back) == hand(b, only_dirs, tree, i, at, back),
    decreases 2 * (a.len() - i), 0nat, 0nat,
{
    if 0 <= i && i + 1 < a.len() {
        assert(a[i + 1] == b[i + 1]);
        if !(a[i + 1] is Terminating) {
            lemma_script_same(a, b, only_dirs, tree, i + 1, at, back);
        }
    }
}

/// The steps of a walk depend on the selectors after the recursive
/// selector alone.
pub proof fn lemma_visit_same(
    a: Seq<SelectorView>,
    b: Seq<SelectorView>,
    only_dirs: bool,
    tree: Tree,
    i: int,
    at: PathView,
    fuel: nat,
    back: Seq<StepView>,
)
    requires
        same_from(a, b, i + 1),
    ensures
        visit(a, only_dirs, tree, i, at, fuel, back) == visit(b, only_dirs, tree, i, at, fuel, back),
    decreases 2 * (a.len() - i), fuel + 1, 0nat,
{
    if 0 <= i && i + 1 < a.len() {
        lemma_hand_same(a, b, only_dirs, tree, i, at, back);
        if fuel > 0 {
            let ra = reset_after(a, i);
            let rb = reset_after(b, i);
            assert(same_from(ra, rb, i + 1)) by {
                assert forall|k: int| 0 <= k < ra.len() && i + 1 <= k implies #[trigger] ra[k]
                    == rb[k] by {
                    assert(a[k] == b[k]);
                }
            }
            lemma_walk_same(
                ra,
                rb,
                only_dirs,
                tree,
                i,
                kept(tree, children_reversed(at, tree.names(at))),
                (fuel - 1) as nat,
                back,
            );
        }
    }
}

/// The steps of a walk through a stack depend on the selectors after the
/// recursive selector alone.
pub proof fn lemma_walk_same(
    a: Seq<SelectorView>,
    b: Seq<SelectorView>,
    only_dirs: bool,
    tree: Tree,
    i: int,
    stack: Seq<PathView>,
    fuel: nat,
    back: Seq<StepView>,
)
    requires
        same_from(a, b, i + 1),
    ensures
        walk(a, only_dirs, tree, i, stack, fuel, back) == walk(
            b,
            only_dirs,
            tree,
            i,
            stack,
            fuel,
            back,
        ),
    decreases 2 * (a.len() - i), fuel + 1, stack.len() + 1,
{
    if 0 <= i && i + 1 < a.len() && stack.len() > 0 {
        lemma_visit_same(a, b, only_dirs, tree, i, stack.last(), fuel, back);
        let ra = reset_after(a, i);
        let rb = reset_after(b, i);
        assert(same_from(ra, rb, i + 1)) by {
            assert forall|k: int| 0 <= k < ra.len() && i + 1 <= k implies #[trigger] ra[k]
                == rb[k] by {
                assert(a[k] == b[k]);
            }
        }
        lemma_walk_same(ra, rb, only_dirs, tree, i, stack.drop_last(), fuel, back);
    }
}

/// The steps of a wildcard through given entries depend on its pattern and
/// on the selectors after it alone.
pub proof fn lemma_scan_script_same(
    a: Seq<SelectorView>,
    b: Seq<SelectorView>,
    only_dirs: bool,
    tree: Tree,
    i: int,
    entries: Seq<PathView>,
    back: Seq<StepView>,
)
    requires
        same_from(a, b, i + 1),
        0 <= i < a.len() ==> reset(a[i]) == reset(b[i]),
    ensures
        scan_script(a, only_dirs, tree, i, entries, back) == scan_script(
            b,
            only_dirs,
            tree,
            i,
            entries,
            back,
        ),
    decreases 2 * (a.len() - i), 0nat, entries.len(),
{
    if 0 <= i && i + 1 < a.len() && entries.len() > 0 {
        assert(a[i + 1] == b[i + 1]);
        lemma_entry_script_same(a, b, only_dirs, tree, i, entries.last(), back);
        let ra = reset_after(a, i);
        let rb = reset_after(b, i);
        assert(same_from(ra, rb, i + 1)) by {
            assert forall|k: int| 0 <= k < ra.len() && i + 1 <= k implies #[trigger] ra[k]
                == rb[k] by {
                assert(a[k] == b[k]);
            }
        }
        lemma_scan_script_same(ra, rb, only_dirs, tree, i, entries.drop_last(), back);
    }
}

/// The steps of a wildcard for one entry depend on its pattern and on the
/// selectors after it alone.
pub proof fn lemma_entry_script_same(
    a: Seq<SelectorView>,
    b: Seq<SelectorView>,
    only_dirs: bool,
    tree: Tree,
    i: int,
    entry: PathView,
    back: Seq<StepView>,
)
    requires
        same_from(a, b, i + 1),
        0 <= i < a.len() ==> reset(a[i]) == reset(b[i]),
    ensures
        entry_script(a, only_dirs, tree, i, entry, back) == entry_script(
            b,
            only_dirs,
            tree,
            i,
            entry,
            back,
        ),
    decreases 2 * (a.len() - i), 0nat, 0nat,
{
    if 0 <= i && i + 1 < a.len() {
        assert(a[i + 1] == b[i + 1]);
        if selects(a[i], name_of(entry)) && !(a[i + 1] is Terminating) {
            lemma_script_same(a, b, only_dirs, tree, i + 1, entry, back);
        }
    }
}

/// The way back to a place depends on what the chain is made of and on the
/// paths up to that place alone.
pub proof fn lemma_back_same(
    a: Seq<SelectorView>,
    f: Seq<PathView>,
    b: Seq<SelectorView>,
    g: Seq<PathView>,
    i: int,
)
    requires
        same_selectors(a, b),
        i <= a.len(),
        same_frames(f, g, i),
    ensures
        back_to(a, f, i) == back_to(b, g, i),
    decreases i,
{
    if i > 0 {
        lemma_back_same(a, f, b, g, i - 1);
        assert(reset(a[i - 1]) == reset(b[i - 1]));
        assert(f[i - 1] == g[i - 1]);
        assert(f[i] == g[i]);
    }
}

/// What is still to come after place `k` depends on the selectors before
/// it, on what the chain is made of, and on the paths up to that place
/// alone.
pub proof fn lemma_after_same(
    a: Seq<SelectorView>,
    f: Seq<PathView>,
    b: Seq<SelectorView>,
    g: Seq<PathView>,
    only_dirs: bool,
    tree: Tree,
    k: int,
)
    requires
        same_before(a, b, k),
        same_selectors(a, b),
        same_frames(f, g, k - 1),
    ensures
        after(a, f, only_dirs, tree, k) == after(b, g, only_dirs, tree, k),
    decreases k,
{
    if 0 < k <= a.len() {
        lemma_after_same(a, f, b, g, only_dirs, tree, k - 1);
        assert(a[k - 1] == b[k - 1]);
        match a[k - 1] {
            SelectorView::Wildcard { entries: Some(es), .. } => {
                let ra = reset_after(a, k - 1);
                let rb = reset_after(b, k - 1);
                assert(same_from(ra, rb, k)) by {
                    assert forall|j: int| 0 <= j < ra.len() && k <= j implies #[trigger] ra[j]
                        == rb[j] by {
                        assert(reset(a[j]) == reset(b[j]));
                    }
                }
                lemma_back_same(a, f, b, g, k - 1);
                assert(f[k - 1] == g[k - 1]);
                assert(back_to(a, f, k) == back_to(b, g, k));
                lemma_scan_script_same(ra, rb, only_dirs, tree, k - 1, es, back_to(a, f, k));
            },
            SelectorView::Recursive { directories: Some(w) } => {
                let ra = reset_after(a, k - 1);
                let rb = reset_after(b, k - 1);
                assert(same_from(ra, rb, k)) by {
                    assert forall|j: int| 0 <= j < ra.len() && k <= j implies #[trigger] ra[j]
                        == rb[j] by {
                        assert(reset(a[j]) == reset(b[j]));
                    }
                }
                lemma_back_same(a, f, b, g, k - 1);
                assert(f[k - 1] == g[k - 1]);
                assert(back_to(a, f, k) == back_to(b, g, k));
                lemma_walk_same(ra, rb, only_dirs, tree, k - 1, w.stack, tree.depth, back_to(a, f, k));
            },
            _ => {},
        }
    }
}

/// The steps that a traversal has still to take, between two calls.
pub open spec fn trail(s: PathsView, tree: Tree) -> Seq<StepView> {
    let c = s.selector;
    let f = s.frames;
    let d = s.is_dir;
    match s.wait {
        Wait::Idle => script(c, d, tree, 0, s.scope, Seq::empty()),
        Wait::Enter(i) => opened(c, d, tree, i as int, f[i as int], back_to(c, f, i as int))
            + after(c, f, d, tree, i as int),
        Wait::Exists(i) => {
            let target = joined(f[i as int], literal_of(c[i as int]));
            if tree.present.contains(target) {
                script(
                    c,
                    d,
                    tree,
                    i + 1,
                    target,
                    back_to(c, f, i as int) + seq![ask_dir(f[i as int]), ask_exists(target)],
                ) + after(c, f, d, tree, i as int)
            } else {
                after(c, f, d, tree, i as int)
            }
        },
        Wait::Listing(i) => scan_script(
            c,
            d,
            tree,
            i as int,
            children_in_order(f[i as int], tree.names(f[i as int])),
            back_to(c, f, i as int) + seq![ask_dir(f[i as int])],
        ) + after(c, f, d, tree, i as int),
        Wait::Final(i) => seq![StepView::Yield(f[i as int])] + (back_to(c, f, i as int) + after(
            c,
            f,
            d,
            tree,
            i as int,
        )),
        Wait::WalkListing(i) => fetched(
            s,
            tree,
            i as int,
            children_reversed(f[i + 1], tree.names(f[i + 1])),
            children_reversed(f[i + 1], tree.names(f[i + 1])),
        ),
        Wait::WalkCheck(i) => fetched(s, tree, i as int, s.scan.drop_last(), s.scan),
        _ => Seq::empty(),
    }
}

/// The directories on the stack of a walk.
pub open spec fn stack_of(node: SelectorView) -> Seq<PathView> {
    match node {
        SelectorView::Recursive { directories: Some(w) } => w.stack,
        _ => Seq::empty(),
    }
}

/// The steps of a walk that is looking through the listing of the
/// directory it moves to: the questions about the entries in `ask`, then
/// the directory itself, then what is on the stack together with the
/// directories among the entries in `keep`.
pub open spec fn fetched(
    s: PathsView,
    tree: Tree,
    i: int,
    ask: Seq<PathView>,
    keep: Seq<PathView>,
) -> Seq<StepView> {
    let c = s.selector;
    let f = s.frames;
    let d = s.is_dir;
    let back = back_to(c, f, i) + seq![ask_dir(f[i])];
    checks(ask) + (hand(c, d, tree, i, f[i + 1], back) + (walk(
        reset_after(c, i),
        d,
        tree,
        i,
        stack_of(c[i]) + kept(tree, keep),
        tree.depth,
        back,
    ) + after(c, f, d, tree, i)))
}

/// The steps that a traversal has still to take, in the middle of a call.
pub open spec fn trail_at(s: PathsView, pc: PcView, tree: Tree) -> Seq<StepView> {
    let c = s.selector;
    let f = s.frames;
    let d = s.is_dir;
    match pc {
        PcView::Return(i, None) => after(c, f, d, tree, i as int),
        PcView::Return(i, Some(p)) => seq![StepView::Yield(p)] + (back_to(c, f, i as int) + (
        script(c, d, tree, i as int, f[i as int], back_to(c, f, i as int)) + after(
            c,
            f,
            d,
            tree,
            i as int,
        ))),
        PcView::Scan(i) => scan_script(
            c,
            d,
            tree,
            i as int,
            entries_of(c[i as int]),
            back_to(c, f, i as int) + seq![ask_dir(f[i as int])],
        ) + after(c, f, d, tree, i as int),
        PcView::Walk(i) => opened(c, d, tree, i as int, f[i as int], back_to(c, f, i as int))
            + after(c, f, d, tree, i as int),
        PcView::Halt(StepView::End) => Seq::empty(),
        PcView::Halt(step) => seq![step] + trail(s, tree),
    }
}

proof fn lemma_frames_set(f: Seq<PathView>, g: Seq<PathView>, i: int, path: PathView)
    requires
        0 <= i <= f.len(),
        g == if i < f.len() {
            f.update(i, path)
        } else {
            f.push(path)
        },
    ensures
        same_frames(g, f, i - 1),
        g[i] == path,
        g.len() > i,
{
}

/// Handing a path to a selector: the steps to come are those of the chain
/// from there on, and then what is left to the selectors before.
#[verifier::rlimit(40)]
proof fn lemma_enter_steps(s: PathsView, i: usize, path: PathView, tree: Tree)
    requires
        i < s.selector.len(),
        i <= s.frames.len(),
        spine(s.set_frame(i as int, path), tree, i as int),
    ensures
        settled_at(enter(s, i, path).0, enter(s, i, path).1, tree),
        trail_at(enter(s, i, path).0, enter(s, i, path).1, tree) == script(
            s.selector,
            s.is_dir,
            tree,
            i as int,
            path,
            back_to(s.selector, s.set_frame(i as int, path).frames, i as int),
        ) + after(s.selector, s.set_frame(i as int, path).frames, s.is_dir, tree, i as int),
{
    let s1 = s.set_frame(i as int, path);
    let c = s.selector;
    let f = s1.frames;
    let d = s.is_dir;
    let (s2, pc) = enter(s, i, path);
    let back = back_to(c, f, i as int);
    let tail = after(c, f, d, tree, i as int);
    lemma_frames_set(s.frames, f, i as int, path);
    lemma_spine_grounded(s1, tree, i as int);
    lemma_spine_rested(s1, tree, i as int, i as int);
    let (node, was) = toggled(c[i as int]);
    match was {
        None => {
            lemma_spine_set_wait(s1, tree, i as int, Wait::Enter(i));
            assert(s2 == s1.set_wait(Wait::Enter(i)));
            let inner = opened(c, d, tree, i as int, path, back);
            assert(trail(s2, tree) == inner + tail);
            assert(seq![ask_dir(path)] + (inner + tail) == (seq![ask_dir(path)] + inner) + tail);
        },
        Some(flag) => {
            let s3 = s1.set_node(i as int, node);
            lemma_same_after_update(c, i as int, node);
            lemma_after_same(s3.selector, f, c, f, d, tree, i as int);
            lemma_back_same(s3.selector, f, c, f, i as int);
            assert(spine(s3, tree, i as int)) by {
                reveal(spine);
                assert forall|k: int| 0 <= k < i implies #[trigger] entered(s3, tree, k) by {
                    assert(entered(s1, tree, k));
                }
                assert forall|k: int|
                    i <= k < s3.selector.len() && 0 <= k implies #[trigger] rested(
                    s3,
                    tree,
                    k,
                ) by {
                    assert(k == i);
                    if flag {
                        assert(is_fresh(s3.selector[i as int]));
                    }
                }
            }
            lemma_spine_set_wait(s3, tree, i as int, Wait::Final(i));
            assert(i + 1 == c.len());
            if flag {
                assert(fresh_from(s3.selector, i as int));
                assert(script(c, d, tree, i as int, path, back) == Seq::<StepView>::empty());
                assert(Seq::<StepView>::empty() + tail == tail);
            } else if d {
                assert(s2 == s3.set_wait(Wait::Final(i)));
                lemma_spine_entered(s1, tree, i as int, i - 1);
                assert(tree.directories.contains(path));
                assert(trail(s2, tree) == seq![StepView::Yield(path)] + (back + tail));
                assert(seq![ask_dir(path)] + (seq![StepView::Yield(path)] + (back + tail)) == (
                seq![ask_dir(path), StepView::Yield(path)] + back) + tail);
            } else {
                assert(script(s3.selector, d, tree, i as int, path, back) == Seq::<
                    StepView,
                >::empty());
                assert(Seq::<StepView>::empty() + tail == tail);
                assert(seq![StepView::Yield(path)] + (back + tail) == (seq![StepView::Yield(path)]
                    + back) + tail);
            }
        },
    }
}

proof fn lemma_deliver_steps_enter(s: PathsView, tree: Tree, i: usize)
    requires
        s.wf(),
        settled(s, tree),
        s.wait == Wait::Enter(i),
    ensures
        settled_at(
            deliver(s, tree.reply_to(s)).0,
            deliver(s, tree.reply_to(s)).1,
            tree,
        ),
        trail_at(deliver(s, tree.reply_to(s)).0, deliver(s, tree.reply_to(s)).1, tree) == trail(
            s,
            tree,
        ),
{
    let reply = tree.reply_to(s);
    let (s1, pc) = deliver(s, reply);
    let c = s.selector;
    let f = s.frames;
    let d = s.is_dir;
    let back = back_to(c, f, i as int);
    let tail = after(c, f, d, tree, i as int);
    lemma_spine_grounded(s, tree, i as int);
    lemma_spine_rested(s, tree, i as int, i as int);
    if flag_of(reply) && c[i as int] is Recursive {
        lemma_deliver_steps_enter_walk(s, tree, i);
    } else if flag_of(reply) {
        lemma_spine_set_wait(s, tree, i as int, Wait::Exists(i));
        lemma_spine_set_wait(s, tree, i as int, Wait::Listing(i));
        match c[i as int] {
            SelectorView::Precise { pattern } => {
                let target = joined(f[i as int], pattern);
                if tree.present.contains(target) {
                    let below = script(
                        c,
                        d,
                        tree,
                        i + 1,
                        target,
                        back + seq![ask_dir(f[i as int]), ask_exists(target)],
                    );
                    assert(seq![ask_exists(target)] + (below + tail) == (seq![ask_exists(target)]
                        + below) + tail);
                }
            },
            SelectorView::Wildcard { entries, .. } => {
                if entries is None {
                    let listing = children_in_order(f[i as int], tree.names(f[i as int]));
                    let below = scan_script(
                        c,
                        d,
                        tree,
                        i as int,
                        listing,
                        back + seq![ask_dir(f[i as int])],
                    );
                    assert(seq![ask_list(f[i as int])] + (below + tail) == (seq![
                        ask_list(f[i as int]),
                    ] + below) + tail);
                }
            },
            _ => {},
        }
    } else {
        assert(fresh_from(c, i as int));
        assert(Seq::<StepView>::empty() + tail == tail);
    }
}

proof fn lemma_deliver_steps_exists(s: PathsView, tree: Tree, i: usize)
    requires
        s.wf(),
        settled(s, tree),
        s.wait == Wait::Exists(i),
    ensures
        settled_at(
            deliver(s, tree.reply_to(s)).0,
            deliver(s, tree.reply_to(s)).1,
            tree,
        ),
        trail_at(deliver(s, tree.reply_to(s)).0, deliver(s, tree.reply_to(s)).1, tree) == trail(
            s,
            tree,
        ),
{
    let reply = tree.reply_to(s);
    let c = s.selector;
    let f = s.frames;
    let d = s.is_dir;
    let target = joined(f[i as int], literal_of(c[i as int]));
    lemma_spine_grounded(s, tree, i as int);
    lemma_spine_rested(s, tree, i as int, i as int);
    if flag_of(reply) {
        if !fresh_from(c, i + 1) {
            assert(!fresh_from(c, i as int)) by {
                if fresh_from(c, i as int) {
                    lemma_fresh_deeper(c, i as int, i + 1);
                }
            }
        }
        lemma_spine_opens(s, tree, i as int);
        lemma_spine_descend(s, tree, i as int, target);
        lemma_enter_steps(s, (i + 1) as usize, target, tree);
        let g = s.set_frame(i + 1, target).frames;
        lemma_frames_set(f, g, i + 1, target);
        lemma_back_same(c, g, c, f, i as int);
        lemma_after_same(c, g, c, f, d, tree, i as int);
        assert(g[i as int] == f[i as int]);
        assert(back_to(c, g, i + 1) == back_to(c, f, i as int) + seq![
            ask_dir(f[i as int]),
            ask_exists(target),
        ]);
        assert(after(c, g, d, tree, i + 1) == after(c, g, d, tree, i as int));
    } else {
        assert(fresh_from(c, i as int)) by {
            if !fresh_from(c, i + 1) {
                if fresh_from(c, i as int) {
                    lemma_fresh_deeper(c, i as int, i + 1);
                }
            } else {
                assert forall|k: int| 0 <= k < c.len() && i <= k implies is_fresh(
                    #[trigger] c[k],
                ) by {
                    if k > i {
                        lemma_fresh_deeper(c, i + 1, k);
                    }
                }
            }
        }
    }
}

proof fn lemma_deliver_steps_listing(s: PathsView, tree: Tree, i: usize)
    requires
        s.wf(),
        settled(s, tree),
        s.wait == Wait::Listing(i),
    ensures
        settled_at(
            deliver(s, tree.reply_to(s)).0,
            deliver(s, tree.reply_to(s)).1,
            tree,
        ),
        trail_at(deliver(s, tree.reply_to(s)).0, deliver(s, tree.reply_to(s)).1, tree) == trail(
            s,
            tree,
        ),
{
    let reply = tree.reply_to(s);
    let (s1, pc) = deliver(s, reply);
    let c = s.selector;
    let f = s.frames;
    let d = s.is_dir;
    let listing = children_in_order(f[i as int], tree.names(f[i as int]));
    let node = with_entries(c[i as int], listing);
    lemma_spine_grounded(s, tree, i as int);
    lemma_spine_rested(s, tree, i as int, i as int);
    assert(fresh_from(c, i as int));
    lemma_fresh_deeper(c, i as int, i + 1);
    lemma_same_after_update(c, i as int, node);
    lemma_fresh_same(c, s1.selector, i + 1);
    assert(spine(s1, tree, i as int)) by {
        reveal(spine);
        assert forall|k: int| 0 <= k < i implies #[trigger] entered(s1, tree, k) by {
            assert(entered(s, tree, k));
        }
        assert forall|k: int| i <= k < s1.selector.len() && 0 <= k implies #[trigger] rested(
            s1,
            tree,
            k,
        ) by {
            if k > i {
                lemma_fresh_deeper(s1.selector, i + 1, k);
            }
        }
    }
    lemma_back_same(s1.selector, f, c, f, i as int);
    lemma_scan_script_same(
        s1.selector,
        c,
        d,
        tree,
        i as int,
        listing,
        back_to(c, f, i as int) + seq![ask_dir(f[i as int])],
    );
    lemma_after_same(s1.selector, f, c, f, d, tree, i as int);
}

proof fn lemma_deliver_steps_final(s: PathsView, tree: Tree, i: usize)
    requires
        s.wf(),
        settled(s, tree),
        s.wait == Wait::Final(i),
    ensures
        settled_at(
            deliver(s, tree.reply_to(s)).0,
            deliver(s, tree.reply_to(s)).1,
            tree,
        ),
        trail_at(deliver(s, tree.reply_to(s)).0, deliver(s, tree.reply_to(s)).1, tree) == trail(
            s,
            tree,
        ),
{
    let c = s.selector;
    let f = s.frames;
    let d = s.is_dir;
    lemma_spine_grounded(s, tree, i as int);
    lemma_spine_entered(s, tree, i as int, i - 1);
    assert(tree.directories.contains(f[i as int]));
    let back = back_to(c, f, i as int);
    let tail = after(c, f, d, tree, i as int);
    assert(script(c, d, tree, i as int, f[i as int], back) == Seq::<StepView>::empty());
    assert(Seq::<StepView>::empty() + tail == tail);
}

/// Resetting twice is resetting once.
proof fn lemma_reset_twice(c: Seq<SelectorView>, i: int)
    ensures
        reset_after(reset_after(c, i), i) == reset_after(c, i),
{
    assert forall|k: int| 0 <= k < c.len() implies reset_after(reset_after(c, i), i)[k]
        == reset_after(c, i)[k] by {}
}

/// A walk through a stack goes through its upper part first, then through
/// its lower part.
proof fn lemma_walk_concat(
    r: Seq<SelectorView>,
    d: bool,
    tree: Tree,
    i: int,
    lower: Seq<PathView>,
    upper: Seq<PathView>,
    fuel: nat,
    back: Seq<StepView>,
)
    requires
        reset_after(r, i) == r,
    ensures
        walk(r, d, tree, i, lower + upper, fuel, back) == walk(r, d, tree, i, upper, fuel, back)
            + walk(r, d, tree, i, lower, fuel, back),
    decreases upper.len(),
{
    let low = walk(r, d, tree, i, lower, fuel, back);
    if upper.len() == 0 {
        assert(lower + upper == lower);
        assert(Seq::<StepView>::empty() + low == low);
    } else if 0 <= i && i + 1 < r.len() {
        lemma_walk_concat(r, d, tree, i, lower, upper.drop_last(), fuel, back);
        assert((lower + upper).drop_last() == lower + upper.drop_last());
        assert((lower + upper).last() == upper.last());
        let first = visit(r, d, tree, i, upper.last(), fuel, back);
        let rest = walk(r, d, tree, i, upper.drop_last(), fuel, back);
        assert(first + (rest + low) == (first + rest) + low);
    } else {
        assert(Seq::<StepView>::empty() + low == low);
    }
}

/// The entries that a walk keeps are entries of the directory, one level
/// below it, and directories.
proof fn lemma_kept_below(tree: Tree, at: PathView, names: Seq<Seq<char>>, entries: Seq<PathView>, k: int)
    requires
        forall|j: int|
            0 <= j < entries.len() ==> (#[trigger] entries[j]).components.len()
                == at.components.len() + 1,
        0 <= k < kept(tree, entries).len(),
    ensures
        kept(tree, entries)[k].components.len() == at.components.len() + 1,
        tree.directories.contains(kept(tree, entries)[k]),
    decreases entries.len(),
{
    if entries.len() > 0 {
        let rest = entries.drop_last();
        assert forall|j: int| 0 <= j < rest.len() implies (#[trigger] rest[j]).components.len()
            == at.components.len() + 1 by {
            assert(rest[j] == entries[j]);
        }
        if tree.directories.contains(entries.last()) {
            if k > 0 {
                lemma_kept_below(tree, at, names, rest, k - 1);
            }
        } else {
            lemma_kept_below(tree, at, names, rest, k);
        }
    }
}

/// With enough fuel for what lies below a directory, more fuel changes
/// nothing in a walk there.
proof fn lemma_visit_fuel(
    c: Seq<SelectorView>,
    d: bool,
    tree: Tree,
    i: int,
    at: PathView,
    f1: nat,
    f2: nat,
    back: Seq<StepView>,
)
    requires
        tree.is_bounded(),
        f1 + at.components.len() >= tree.depth,
        f2 + at.components.len() >= tree.depth,
    ensures
        visit(c, d, tree, i, at, f1, back) == visit(c, d, tree, i, at, f2, back),
    decreases f1, 0nat,
{
    if 0 <= i && i + 1 < c.len() {
        let entries = children_reversed(at, tree.names(at));
        let below = kept(tree, entries);
        let r = reset_after(c, i);
        if below.len() == 0 {
            assert(walk(r, d, tree, i, below, (f1 - 1) as nat, back) == Seq::<StepView>::empty());
            assert(walk(r, d, tree, i, below, (f2 - 1) as nat, back) == Seq::<StepView>::empty());
        } else {
            lemma_kept_below(tree, at, tree.names(at), entries, 0);
            assert(tree.directories.contains(below[0]));
            assert(below[0].components.len() <= tree.depth);
            assert forall|k: int| 0 <= k < below.len() implies (f1 - 1) + (
            #[trigger] below[k]).components.len() >= tree.depth && (f2 - 1)
                + below[k].components.len() >= tree.depth by {
                lemma_kept_below(tree, at, tree.names(at), entries, k);
            }
            lemma_walk_fuel(r, d, tree, i, below, (f1 - 1) as nat, (f2 - 1) as nat, back);
        }
    }
}

/// With enough fuel for what lies below the directories on a stack, more
/// fuel changes nothing in a walk through it.
proof fn lemma_walk_fuel(
    c: Seq<SelectorView>,
    d: bool,
    tree: Tree,
    i: int,
    stack: Seq<PathView>,
    f1: nat,
    f2: nat,
    back: Seq<StepView>,
)
    requires
        tree.is_bounded(),
        forall|k: int|
            0 <= k < stack.len() ==> f1 + (#[trigger] stack[k]).components.len() >= tree.depth
                && f2 + stack[k].components.len() >= tree.depth,
    ensures
        walk(c, d, tree, i, stack, f1, back) == walk(c, d, tree, i, stack, f2, back),
    decreases f1, stack.len() + 1,
{
    if 0 <= i && i + 1 < c.len() && stack.len() > 0 {
        assert(f1 + stack[stack.len() - 1].components.len() >= tree.depth);
        lemma_visit_fuel(c, d, tree, i, stack.last(), f1, f2, back);
        assert forall|k: int| 0 <= k < stack.drop_last().len() implies f1 + (
        #[trigger] stack.drop_last()[k]).components.len() >= tree.depth && f2
            + stack.drop_last()[k].components.len() >= tree.depth by {
            assert(stack.drop_last()[k] == stack[k]);
        }
        lemma_walk_fuel(reset_after(c, i), d, tree, i, stack.drop_last(), f1, f2, back);
    }
}

/// A walk that has looked at some entries of its listing: the steps to
/// come are the questions about the others, the directory itself, and
/// then what is on its stack with the directories among the others.
#[verifier::rlimit(40)]
proof fn lemma_walk_scan_steps(s: PathsView, tree: Tree, i: usize)
    requires
        s.selector.len() <= usize::MAX,
        i + 1 < s.selector.len(),
        i + 1 < s.frames.len(),
        spine(s, tree, i as int),
        s.selector[i as int] matches SelectorView::Recursive { directories: Some(w) } && w.peeked
            is None,
    ensures
        settled_at(walk_scan(s, i).0, walk_scan(s, i).1, tree),
        trail_at(walk_scan(s, i).0, walk_scan(s, i).1, tree) == fetched(
            s,
            tree,
            i as int,
            s.scan,
            s.scan,
        ),
{
    let c = s.selector;
    let f = s.frames;
    let d = s.is_dir;
    let (s1, pc) = walk_scan(s, i);
    let here = back_to(c, f, i as int);
    let there = here + seq![ask_dir(f[i as int])];
    let at = f[i + 1];
    let tail = after(c, f, d, tree, i as int);
    let handed = hand(c, d, tree, i as int, at, there);
    let r = reset_after(c, i as int);
    lemma_spine_grounded(s, tree, i as int);
    lemma_spine_rested(s, tree, i as int, i as int);
    assert(!fresh_from(c, i as int)) by {
        assert(!is_fresh(c[i as int]));
    }
    assert(fresh_from(c, i + 1));
    if s.scan.len() == 0 {
        let node = with_peeked(c[i as int], Some(at));
        let c1 = s1.selector;
        lemma_same_after_update(c, i as int, node);
        lemma_spine_popped_fresh(s, tree, i as int, node);
        lemma_after_same(c1, f, c, f, d, tree, i as int);
        lemma_back_same(c1, f, c, f, i as int);
        lemma_hand_same(c1, c, d, tree, i as int, at, there);
        assert(same_from(reset_after(c1, i as int), r, i + 1)) by {
            assert forall|k: int|
                0 <= k < c.len() && i + 1 <= k implies #[trigger] reset_after(c1, i as int)[k]
                == r[k] by {
                assert(c1[k] == c[k]);
            }
        }
        lemma_walk_same(
            reset_after(c1, i as int),
            r,
            d,
            tree,
            i as int,
            stack_of(c[i as int]),
            tree.depth,
            there,
        );
        assert(stack_of(c1[i as int]) == stack_of(c[i as int]));
        assert(stack_of(c[i as int]) + kept(tree, s.scan) == stack_of(c[i as int]));
        let rest = walk(r, d, tree, i as int, stack_of(c[i as int]), tree.depth, there);
        assert(checks(s.scan) == Seq::<StepView>::empty());
        assert(Seq::<StepView>::empty() + (handed + (rest + tail)) == (handed + rest) + tail);
    } else {
        lemma_spine_set_wait(s, tree, i as int, Wait::WalkCheck(i));
        let rest = walk(
            r,
            d,
            tree,
            i as int,
            stack_of(c[i as int]) + kept(tree, s.scan),
            tree.depth,
            there,
        );
        assert(seq![ask_dir(s.scan.last())] + (checks(s.scan.drop_last()) + (handed + (rest
            + tail))) == (seq![ask_dir(s.scan.last())] + checks(s.scan.drop_last())) + (handed + (
        rest + tail)));
    }
}

proof fn lemma_deliver_steps_walk_listing(s: PathsView, tree: Tree, i: usize)
    requires
        s.wf(),
        settled(s, tree),
        s.wait == Wait::WalkListing(i),
    ensures
        settled_at(
            deliver(s, tree.reply_to(s)).0,
            deliver(s, tree.reply_to(s)).1,
            tree,
        ),
        trail_at(deliver(s, tree.reply_to(s)).0, deliver(s, tree.reply_to(s)).1, tree) == trail(
            s,
            tree,
        ),
{
    let f = s.frames;
    let listing = children_reversed(f[i + 1], tree.names(f[i + 1]));
    let s0 = s.set_scan(listing);
    lemma_spine_set_scan(s, tree, i as int, listing);
    lemma_walk_scan_steps(s0, tree, i);
}

#[verifier::rlimit(40)]
proof fn lemma_deliver_steps_walk_check(s: PathsView, tree: Tree, i: usize)
    requires
        s.wf(),
        settled(s, tree),
        s.wait == Wait::WalkCheck(i),
    ensures
        settled_at(
            deliver(s, tree.reply_to(s)).0,
            deliver(s, tree.reply_to(s)).1,
            tree,
        ),
        trail_at(deliver(s, tree.reply_to(s)).0, deliver(s, tree.reply_to(s)).1, tree) == trail(
            s,
            tree,
        ),
{
    let c = s.selector;
    let f = s.frames;
    let d = s.is_dir;
    let reply = tree.reply_to(s);
    let candidate = s.scan.last();
    let left = s.scan.drop_last();
    let s1 = s.set_scan(left);
    lemma_spine_grounded(s, tree, i as int);
    lemma_spine_rested(s, tree, i as int, i as int);
    lemma_spine_set_scan(s, tree, i as int, left);
    assert(!fresh_from(c, i as int)) by {
        assert(!is_fresh(c[i as int]));
    }
    assert(fresh_from(c, i + 1));
    let here = back_to(c, f, i as int);
    let there = here + seq![ask_dir(f[i as int])];
    if flag_of(reply) {
        let node = push_directory(c[i as int], candidate);
        let s2 = s1.set_node(i as int, node);
        let c2 = s2.selector;
        lemma_same_after_update(c, i as int, node);
        lemma_spine_popped_fresh(s1, tree, i as int, node);
        lemma_walk_scan_steps(s2, tree, i);
        lemma_after_same(c2, f, c, f, d, tree, i as int);
        lemma_back_same(c2, f, c, f, i as int);
        lemma_hand_same(c2, c, d, tree, i as int, f[i + 1], there);
        assert(same_from(reset_after(c2, i as int), reset_after(c, i as int), i + 1)) by {
            assert forall|k: int|
                0 <= k < c.len() && i + 1 <= k implies #[trigger] reset_after(c2, i as int)[k]
                == reset_after(c, i as int)[k] by {
                assert(c2[k] == c[k]);
            }
        }
        assert(stack_of(c2[i as int]) == stack_of(c[i as int]).push(candidate));
        assert(stack_of(c2[i as int]) + kept(tree, left) == stack_of(c[i as int]) + kept(
            tree,
            s.scan,
        ));
        lemma_walk_same(
            reset_after(c2, i as int),
            reset_after(c, i as int),
            d,
            tree,
            i as int,
            stack_of(c[i as int]) + kept(tree, s.scan),
            tree.depth,
            there,
        );
    } else {
        lemma_walk_scan_steps(s1, tree, i);
        assert(kept(tree, s.scan) == kept(tree, left));
    }
}

proof fn lemma_deliver_steps_enter_walk(s: PathsView, tree: Tree, i: usize)
    requires
        s.wf(),
        settled(s, tree),
        s.wait == Wait::Enter(i),
        s.selector[i as int] is Recursive,
        flag_of(tree.reply_to(s)),
    ensures
        settled_at(
            deliver(s, tree.reply_to(s)).0,
            deliver(s, tree.reply_to(s)).1,
            tree,
        ),
        trail_at(deliver(s, tree.reply_to(s)).0, deliver(s, tree.reply_to(s)).1, tree) == trail(
            s,
            tree,
        ),
{
    let c = s.selector;
    let f = s.frames;
    let d = s.is_dir;
    let (s1, pc) = deliver(s, tree.reply_to(s));
    let c1 = s1.selector;
    let node = begin_walk(c[i as int], f[i as int]);
    let here = back_to(c, f, i as int);
    let there = here + seq![ask_dir(f[i as int])];
    lemma_spine_grounded(s, tree, i as int);
    lemma_spine_rested(s, tree, i as int, i as int);
    lemma_same_after_update(c, i as int, node);
    lemma_after_same(c1, f, c, f, d, tree, i as int);
    lemma_back_same(c1, f, c, f, i as int);
    if is_fresh(c[i as int]) {
        assert(fresh_from(c, i as int));
        lemma_fresh_deeper(c, i as int, i + 1);
        lemma_spine_popped_fresh(s, tree, i as int, node);
        lemma_walk_same(c1, c, d, tree, i as int, seq![f[i as int]], tree.depth, there);
    } else {
        assert(node == c[i as int]);
        assert(c1 == c);
        assert(s1 == s);
    }
}

proof fn lemma_advance_steps_walker_none(s: PathsView, i: usize, tree: Tree)
    requires
        i > 0,
        s.wf_at(PcView::Return(i, None)),
        settled_at(s, PcView::Return(i, None), tree),
        s.selector[i - 1] is Recursive,
    ensures
        settled_at(
            advance(s, PcView::Return(i, None)).0,
            advance(s, PcView::Return(i, None)).1,
            tree,
        ),
        trail_at(
            advance(s, PcView::Return(i, None)).0,
            advance(s, PcView::Return(i, None)).1,
            tree,
        ) == trail_at(s, PcView::Return(i, None), tree),
{
    let j = i - 1;
    let c = s.selector;
    let f = s.frames;
    let d = s.is_dir;
    let node = with_peeked(c[j], None);
    let s1 = s.set_node(j, node);
    let c1 = s1.selector;
    let here = back_to(c, f, j);
    let there = here + seq![ask_dir(f[j])];
    lemma_spine_grounded(s, tree, i as int);
    lemma_spine_entered(s, tree, i as int, j);
    lemma_same_after_update(c, j, node);
    lemma_fresh_same(c, c1, i as int);
    assert(spine(s1, tree, j)) by {
        reveal(spine);
        assert forall|k: int| 0 <= k < j implies #[trigger] entered(s1, tree, k) by {
            assert(entered(s, tree, k));
        }
        assert forall|k: int| j <= k < s1.selector.len() && 0 <= k implies #[trigger] rested(
            s1,
            tree,
            k,
        ) by {
            if k > j {
                lemma_fresh_deeper(c1, i as int, k);
            }
        }
    }
    lemma_after_same(c1, f, c, f, d, tree, j);
    lemma_back_same(c1, f, c, f, j);
    assert(back_to(c, f, i as int) == there);
    assert(same_from(c1, reset_after(c, j), i as int)) by {
        assert forall|k: int| 0 <= k < c.len() && i <= k implies #[trigger] c1[k] == reset_after(
            c,
            j,
        )[k] by {
            assert(is_fresh(c[k]));
        }
    }
    lemma_walk_same(c1, reset_after(c, j), d, tree, j, stack_of(c[j]), tree.depth, there);
    assert(stack_of(c1[j]) == stack_of(c[j]));
}

proof fn lemma_advance_steps_walker_some(s: PathsView, i: usize, p: PathView, tree: Tree)
    requires
        i > 0,
        s.wf_at(PcView::Return(i, Some(p))),
        settled_at(s, PcView::Return(i, Some(p)), tree),
        s.selector[i - 1] is Recursive,
    ensures
        settled_at(
            advance(s, PcView::Return(i, Some(p))).0,
            advance(s, PcView::Return(i, Some(p))).1,
            tree,
        ),
        trail_at(
            advance(s, PcView::Return(i, Some(p))).0,
            advance(s, PcView::Return(i, Some(p))).1,
            tree,
        ) == trail_at(s, PcView::Return(i, Some(p)), tree),
{
    let j = i - 1;
    let c = s.selector;
    let f = s.frames;
    let d = s.is_dir;
    let here = back_to(c, f, j);
    let there = here + seq![ask_dir(f[j])];
    lemma_spine_grounded(s, tree, i as int);
    lemma_spine_entered(s, tree, i as int, j);
    assert(spine(s, tree, j)) by {
        reveal(spine);
        assert(rested(s, tree, j));
    }
    assert(back_to(c, f, i as int) == there);
    let below = script(c, d, tree, i as int, f[i as int], there);
    let left = walk(reset_after(c, j), d, tree, j, stack_of(c[j]), tree.depth, there);
    let rest = after(c, f, d, tree, j);
    assert(hand(c, d, tree, j, f[i as int], there) == below);
    assert(opened(c, d, tree, j, f[j], here) == below + left);
    assert(script(c, d, tree, j, f[j], here) == seq![ask_dir(f[j])] + (below + left));
    assert(after(c, f, d, tree, i as int) == left + rest);
    assert(here + ((seq![ask_dir(f[j])] + (below + left)) + rest) == there + (below + (left
        + rest)));
}

proof fn lemma_advance_steps_walk_yield(s: PathsView, i: usize, at: PathView, tree: Tree)
    requires
        s.wf_at(PcView::Walk(i)),
        settled_at(s, PcView::Walk(i), tree),
        peeked(s.selector[i as int]) == Some(at),
        s.selector[i + 1] is Terminating,
    ensures
        settled_at(advance(s, PcView::Walk(i)).0, advance(s, PcView::Walk(i)).1, tree),
        trail_at(advance(s, PcView::Walk(i)).0, advance(s, PcView::Walk(i)).1, tree) == trail_at(
            s,
            PcView::Walk(i),
            tree,
        ),
{
    let c = s.selector;
    let f = s.frames;
    let d = s.is_dir;
    let node = c[i as int];
    let here = back_to(c, f, i as int);
    let there = here + seq![ask_dir(f[i as int])];
    let tail = after(c, f, d, tree, i as int);
    let r = reset_after(c, i as int);
    let stack = stack_of(node);
    lemma_spine_grounded(s, tree, i as int);
    lemma_spine_rested(s, tree, i as int, i as int);
    assert(!fresh_from(c, i as int)) by {
        assert(!is_fresh(c[i as int]));
    }
    let node1 = with_peeked(node, None);
    let s1 = s.set_node(i as int, node1);
    let c1 = s1.selector;
    assert(fresh_from(c, i + 1));
    lemma_same_after_update(c, i as int, node1);
    lemma_spine_popped_fresh(s, tree, i as int, node1);
    lemma_after_same(c1, f, c, f, d, tree, i as int);
    lemma_back_same(c1, f, c, f, i as int);
    assert(same_from(c1, r, i + 1)) by {
        assert forall|k: int| 0 <= k < c.len() && i + 1 <= k implies #[trigger] c1[k] == r[k] by {
            assert(is_fresh(c[k]));
        }
    }
    lemma_walk_same(c1, r, d, tree, i as int, stack, tree.depth, there);
    assert(stack_of(c1[i as int]) == stack);
    let rest = walk(r, d, tree, i as int, stack, tree.depth, there);
    assert(opened(c1, d, tree, i as int, f[i as int], here) == rest);
    assert(script(c1, d, tree, i as int, f[i as int], here) == seq![ask_dir(f[i as int])] + rest);
    assert(hand(c, d, tree, i as int, at, there) == seq![StepView::Yield(at)] + there);
    assert(opened(c, d, tree, i as int, f[i as int], here) == (seq![StepView::Yield(at)] + there)
        + rest);
    assert(seq![StepView::Yield(at)] + (here + ((seq![ask_dir(f[i as int])] + rest) + tail)) == ((
    seq![StepView::Yield(at)] + there) + rest) + tail);
}

proof fn lemma_advance_steps_walk_hand(s: PathsView, i: usize, at: PathView, tree: Tree)
    requires
        s.wf_at(PcView::Walk(i)),
        settled_at(s, PcView::Walk(i), tree),
        peeked(s.selector[i as int]) == Some(at),
        !(s.selector[i + 1] is Terminating),
    ensures
        settled_at(advance(s, PcView::Walk(i)).0, advance(s, PcView::Walk(i)).1, tree),
        trail_at(advance(s, PcView::Walk(i)).0, advance(s, PcView::Walk(i)).1, tree) == trail_at(
            s,
            PcView::Walk(i),
            tree,
        ),
{
    let c = s.selector;
    let f = s.frames;
    let d = s.is_dir;
    let node = c[i as int];
    let here = back_to(c, f, i as int);
    let there = here + seq![ask_dir(f[i as int])];
    let tail = after(c, f, d, tree, i as int);
    let r = reset_after(c, i as int);
    let stack = stack_of(node);
    lemma_spine_grounded(s, tree, i as int);
    lemma_spine_rested(s, tree, i as int, i as int);
    assert(!fresh_from(c, i as int)) by {
        assert(!is_fresh(c[i as int]));
    }
    lemma_spine_opens(s, tree, i as int);
    lemma_spine_descend(s, tree, i as int, at);
    lemma_enter_steps(s, (i + 1) as usize, at, tree);
    let g = s.set_frame(i + 1, at).frames;
    lemma_frames_set(f, g, i + 1, at);
    lemma_back_same(c, g, c, f, i as int);
    lemma_after_same(c, g, c, f, d, tree, i as int);
    assert(g[i as int] == f[i as int]);
    assert(back_to(c, g, i + 1) == there);
    let below = script(c, d, tree, i + 1, at, there);
    let rest = walk(r, d, tree, i as int, stack, tree.depth, there);
    assert(after(c, g, d, tree, i + 1) == rest + after(c, g, d, tree, i as int));
    assert(hand(c, d, tree, i as int, at, there) == below);
    assert(opened(c, d, tree, i as int, f[i as int], here) == below + rest);
    assert((below + rest) + tail == below + (rest + tail));
}

/// The directories among the entries of a directory are walked as deep as
/// the tree goes.
proof fn lemma_walk_below(
    r: Seq<SelectorView>,
    d: bool,
    tree: Tree,
    i: int,
    at: PathView,
    back: Seq<StepView>,
)
    requires
        tree.is_bounded(),
    ensures
        (if tree.depth == 0 {
            Seq::<StepView>::empty()
        } else {
            walk(
                r,
                d,
                tree,
                i,
                kept(tree, children_reversed(at, tree.names(at))),
                (tree.depth - 1) as nat,
                back,
            )
        }) == walk(
            r,
            d,
            tree,
            i,
            kept(tree, children_reversed(at, tree.names(at))),
            tree.depth,
            back,
        ),
{
    let entries = children_reversed(at, tree.names(at));
    let below = kept(tree, entries);
    if below.len() > 0 {
        lemma_kept_below(tree, at, tree.names(at), entries, 0);
        assert(below[0].components.len() <= tree.depth);
        assert forall|k: int| 0 <= k < below.len() implies (tree.depth - 1) + (
        #[trigger] below[k]).components.len() >= tree.depth && tree.depth
            + below[k].components.len() >= tree.depth by {
            lemma_kept_below(tree, at, tree.names(at), entries, k);
        }
        lemma_walk_fuel(r, d, tree, i, below, (tree.depth - 1) as nat, tree.depth, back);
    }
}

#[verifier::rlimit(40)]
proof fn lemma_advance_steps_walk_move(s: PathsView, i: usize, tree: Tree)
    requires
        tree.is_bounded(),
        s.wf_at(PcView::Walk(i)),
        settled_at(s, PcView::Walk(i), tree),
        peeked(s.selector[i as int]) is None,
    ensures
        settled_at(advance(s, PcView::Walk(i)).0, advance(s, PcView::Walk(i)).1, tree),
        trail_at(advance(s, PcView::Walk(i)).0, advance(s, PcView::Walk(i)).1, tree) == trail_at(
            s,
            PcView::Walk(i),
            tree,
        ),
{
    let c = s.selector;
    let f = s.frames;
    let d = s.is_dir;
    let node = c[i as int];
    let here = back_to(c, f, i as int);
    let there = here + seq![ask_dir(f[i as int])];
    let tail = after(c, f, d, tree, i as int);
    let r = reset_after(c, i as int);
    let stack = stack_of(node);
    lemma_spine_grounded(s, tree, i as int);
    lemma_spine_rested(s, tree, i as int, i as int);
    assert(!fresh_from(c, i as int)) by {
        assert(!is_fresh(c[i as int]));
    }
    assert(fresh_from(c, i + 1));
    let (node1, next) = pop_directory(node);
    let s1 = s.set_node(i as int, node1);
    let c1 = s1.selector;
    lemma_same_after_update(c, i as int, node1);
    lemma_spine_popped_fresh(s, tree, i as int, node1);
    lemma_after_same(c1, f, c, f, d, tree, i as int);
    lemma_back_same(c1, f, c, f, i as int);
    assert(opened(c, d, tree, i as int, f[i as int], here) == walk(
        c,
        d,
        tree,
        i as int,
        stack,
        tree.depth,
        there,
    ));
    match next {
        None => {
            assert(stack.len() == 0);
            assert(Seq::<StepView>::empty() + tail == tail);
        },
        Some(at) => {
            let left = stack.drop_last();
            let s2 = s1.set_frame(i + 1, at);
            let g = s2.frames;
            let entries = children_reversed(at, tree.names(at));
            lemma_fresh_same(c, c1, i + 1);
            lemma_spine_frame_fresh(s1, tree, i as int, at);
            lemma_spine_set_wait(s2, tree, i as int, Wait::WalkListing(i));
            lemma_frames_set(f, g, i + 1, at);
            lemma_back_same(c1, g, c, f, i as int);
            lemma_after_same(c1, g, c, f, d, tree, i as int);
            assert(g[i as int] == f[i as int]);
            assert(g[i + 1] == at);
            lemma_hand_same(c1, c, d, tree, i as int, at, there);
            assert(same_from(reset_after(c1, i as int), r, i + 1)) by {
                assert forall|k: int|
                    0 <= k < c.len() && i + 1 <= k implies #[trigger] reset_after(
                    c1,
                    i as int,
                )[k] == r[k] by {
                    assert(c1[k] == c[k]);
                }
            }
            assert(stack_of(c1[i as int]) == left);
            lemma_walk_same(
                reset_after(c1, i as int),
                r,
                d,
                tree,
                i as int,
                left + kept(tree, entries),
                tree.depth,
                there,
            );
            lemma_reset_twice(c, i as int);
            lemma_walk_concat(r, d, tree, i as int, left, kept(tree, entries), tree.depth, there);
            lemma_walk_below(r, d, tree, i as int, at, there);
            let deeper = walk(r, d, tree, i as int, kept(tree, entries), tree.depth, there);
            let handed = hand(c, d, tree, i as int, at, there);
            let lower = walk(r, d, tree, i as int, left, tree.depth, there);
            assert(visit(c, d, tree, i as int, at, tree.depth, there) == seq![ask_list(at)] + (
            checks(entries) + (handed + deeper)));
            assert(walk(c, d, tree, i as int, stack, tree.depth, there) == visit(
                c,
                d,
                tree,
                i as int,
                at,
                tree.depth,
                there,
            ) + lower);
            assert(trail(s2.set_wait(Wait::WalkListing(i)), tree) == checks(entries) + (handed + ((
            deeper + lower) + tail)));
            assert(((seq![ask_list(at)] + (checks(entries) + (handed + deeper))) + lower) + tail
                == seq![ask_list(at)] + (checks(entries) + (handed + ((deeper + lower) + tail))));
        },
    }
}

/// A recursive selector that goes on with its walk leaves the steps to
/// come as they were.
proof fn lemma_advance_steps_walk(s: PathsView, i: usize, tree: Tree)
    requires
        tree.is_bounded(),
        s.wf_at(PcView::Walk(i)),
        settled_at(s, PcView::Walk(i), tree),
    ensures
        settled_at(advance(s, PcView::Walk(i)).0, advance(s, PcView::Walk(i)).1, tree),
        trail_at(advance(s, PcView::Walk(i)).0, advance(s, PcView::Walk(i)).1, tree) == trail_at(
            s,
            PcView::Walk(i),
            tree,
        ),
{
    match peeked(s.selector[i as int]) {
        Some(at) => {
            if s.selector[i + 1] is Terminating {
                lemma_advance_steps_walk_yield(s, i, at, tree);
            } else {
                lemma_advance_steps_walk_hand(s, i, at, tree);
            }
        },
        None => {
            lemma_advance_steps_walk_move(s, i, tree);
        },
    }
}

/// Taking in the answer of the tree leaves the steps to come as they were.
proof fn lemma_deliver_steps(s: PathsView, tree: Tree)
    requires
        s.wf(),
        settled(s, tree),
    ensures
        settled_at(
            deliver(s, tree.reply_to(s)).0,
            deliver(s, tree.reply_to(s)).1,
            tree,
        ),
        trail_at(deliver(s, tree.reply_to(s)).0, deliver(s, tree.reply_to(s)).1, tree) == trail(
            s,
            tree,
        ),
{
    match s.wait {
        Wait::Idle => {
            lemma_spine_grounded(s, tree, 0);
            lemma_spine_start(s, tree);
            lemma_enter_steps(s, 0, s.scope, tree);
            let g = s.set_frame(0, s.scope).frames;
            let below = script(s.selector, s.is_dir, tree, 0, s.scope, Seq::empty());
            assert(back_to(s.selector, g, 0) == Seq::<StepView>::empty());
            assert(after(s.selector, g, s.is_dir, tree, 0) == Seq::<StepView>::empty());
            assert(below + Seq::<StepView>::empty() == below);
        },
        Wait::Exhausted => {},
        Wait::Enter(i) => {
            lemma_deliver_steps_enter(s, tree, i);
        },
        Wait::Exists(i) => {
            lemma_deliver_steps_exists(s, tree, i);
        },
        Wait::Listing(i) => {
            lemma_deliver_steps_listing(s, tree, i);
        },
        Wait::Final(i) => {
            lemma_deliver_steps_final(s, tree, i);
        },
        Wait::WalkListing(i) => {
            lemma_deliver_steps_walk_listing(s, tree, i);
        },
        Wait::WalkCheck(i) => {
            lemma_deliver_steps_walk_check(s, tree, i);
        },
        Wait::Entry(_) => {},
    }
}

proof fn lemma_advance_steps_top(s: PathsView, r: Option<PathView>, tree: Tree)
    requires
        s.wf_at(PcView::Return(0, r)),
        settled_at(s, PcView::Return(0, r), tree),
    ensures
        settled_at(
            advance(s, PcView::Return(0, r)).0,
            advance(s, PcView::Return(0, r)).1,
            tree,
        ),
        trail_at(advance(s, PcView::Return(0, r)).0, advance(s, PcView::Return(0, r)).1, tree)
            == trail_at(s, PcView::Return(0, r), tree),
{
    let c = s.selector;
    let f = s.frames;
    let d = s.is_dir;
    lemma_spine_grounded(s, tree, 0);
    lemma_spine_set_wait(s, tree, 0, Wait::Idle);
    assert(after(c, f, d, tree, 0) == Seq::<StepView>::empty());
    assert(back_to(c, f, 0) == Seq::<StepView>::empty());
    if r is Some {
        let rest = script(c, d, tree, 0, s.scope, Seq::empty());
        assert(Seq::<StepView>::empty() + (rest + Seq::<StepView>::empty()) == rest);
    }
}

proof fn lemma_advance_steps_precise(s: PathsView, i: usize, r: Option<PathView>, tree: Tree)
    requires
        i > 0,
        s.wf_at(PcView::Return(i, r)),
        settled_at(s, PcView::Return(i, r), tree),
        s.selector[i - 1] is Precise,
    ensures
        settled_at(
            advance(s, PcView::Return(i, r)).0,
            advance(s, PcView::Return(i, r)).1,
            tree,
        ),
        trail_at(advance(s, PcView::Return(i, r)).0, advance(s, PcView::Return(i, r)).1, tree)
            == trail_at(s, PcView::Return(i, r), tree),
{
    let j = i - 1;
    let c = s.selector;
    let f = s.frames;
    let d = s.is_dir;
    lemma_spine_grounded(s, tree, i as int);
    lemma_spine_entered(s, tree, i as int, j);
    assert(spine(s, tree, j)) by {
        reveal(spine);
        assert(rested(s, tree, j));
    }
    match r {
        None => {
            assert(fresh_from(c, j)) by {
                assert forall|k: int| 0 <= k < c.len() && j <= k implies is_fresh(
                    #[trigger] c[k],
                ) by {
                    if k > j {
                        lemma_fresh_deeper(c, i as int, k);
                    }
                }
            }
        },
        Some(p) => {
            let here = back_to(c, f, j);
            let asked = seq![ask_dir(f[j]), ask_exists(f[i as int])];
            let below = script(c, d, tree, i as int, f[i as int], here + asked);
            let tail = after(c, f, d, tree, j);
            assert(back_to(c, f, i as int) == here + asked);
            assert(script(c, d, tree, j, f[j], here) == seq![ask_dir(f[j])] + (seq![
                ask_exists(f[i as int]),
            ] + below));
            assert(here + ((seq![ask_dir(f[j])] + (seq![ask_exists(f[i as int])] + below)) + tail)
                == (here + asked) + (below + tail));
        },
    }
}

proof fn lemma_advance_steps_wildcard_none(s: PathsView, i: usize, tree: Tree)
    requires
        i > 0,
        s.wf_at(PcView::Return(i, None)),
        settled_at(s, PcView::Return(i, None), tree),
        s.selector[i - 1] is Wildcard,
    ensures
        settled_at(
            advance(s, PcView::Return(i, None)).0,
            advance(s, PcView::Return(i, None)).1,
            tree,
        ),
        trail_at(
            advance(s, PcView::Return(i, None)).0,
            advance(s, PcView::Return(i, None)).1,
            tree,
        ) == trail_at(s, PcView::Return(i, None), tree),
{
    let j = i - 1;
    let c = s.selector;
    let f = s.frames;
    lemma_spine_grounded(s, tree, i as int);
    lemma_spine_entered(s, tree, i as int, j);
    assert(spine(s, tree, j)) by {
        reveal(spine);
        assert(rested(s, tree, j));
    }
    lemma_reset_fresh(c, j);
    assert(back_to(c, f, i as int) == back_to(c, f, j) + seq![ask_dir(f[j])]);
}

#[verifier::rlimit(40)]
proof fn lemma_advance_steps_wildcard_some(s: PathsView, i: usize, p: PathView, tree: Tree)
    requires
        i > 0,
        s.wf_at(PcView::Return(i, Some(p))),
        settled_at(s, PcView::Return(i, Some(p)), tree),
        s.selector[i - 1] is Wildcard,
    ensures
        settled_at(
            advance(s, PcView::Return(i, Some(p))).0,
            advance(s, PcView::Return(i, Some(p))).1,
            tree,
        ),
        trail_at(
            advance(s, PcView::Return(i, Some(p))).0,
            advance(s, PcView::Return(i, Some(p))).1,
            tree,
        ) == trail_at(s, PcView::Return(i, Some(p)), tree),
{
    let j = i - 1;
    let c = s.selector;
    let f = s.frames;
    let d = s.is_dir;
    let e = f[i as int];
    let es = entries_of(c[j]);
    let node = push_entry(c[j], e);
    let s1 = s.set_node(j, node);
    let c1 = s1.selector;
    lemma_spine_grounded(s, tree, i as int);
    lemma_spine_entered(s, tree, i as int, j);
    lemma_same_after_update(c, j, node);
    assert(spine(s1, tree, j)) by {
        reveal(spine);
        assert forall|k: int| 0 <= k < j implies #[trigger] entered(s1, tree, k) by {
            assert(entered(s, tree, k));
        }
        assert forall|k: int| j <= k < s1.selector.len() && 0 <= k implies #[trigger] rested(
            s1,
            tree,
            k,
        ) by {
            if k > j {
                assert(rested(s, tree, k));
                if fresh_from(c, k) {
                    lemma_fresh_same(c, c1, k);
                }
            }
        }
    }
    let here = back_to(c, f, j);
    let there = here + seq![ask_dir(f[j])];
    lemma_back_same(c1, f, c, f, j);
    lemma_back_same(c1, f, c, f, i as int);
    assert(back_to(c, f, i as int) == there);
    // the steps from the wildcard on, once the entry is back in place
    let now = script(c1, d, tree, j, f[j], here);
    assert((es.push(e)).drop_last() == es);
    assert(c1[j] == push_entry(c[j], e));
    assert(entries_of(c1[j]) == es.push(e));
    assert(opened(c1, d, tree, j, f[j], here) == scan_script(c1, d, tree, j, es.push(e), there));
    assert(now == seq![ask_dir(f[j])] + scan_script(c1, d, tree, j, es.push(e), there));
    assert(scan_script(c1, d, tree, j, es.push(e), there) == entry_script(
        c1,
        d,
        tree,
        j,
        e,
        there,
    ) + scan_script(reset_after(c1, j), d, tree, j, es, there));
    lemma_script_same(c1, c, d, tree, i as int, e, there);
    assert(entry_script(c1, d, tree, j, e, there) == script(c, d, tree, i as int, e, there));
    assert(same_from(reset_after(c1, j), reset_after(c, j), i as int)) by {
        assert forall|k: int|
            0 <= k < c.len() && i <= k implies #[trigger] reset_after(c1, j)[k] == reset_after(
            c,
            j,
        )[k] by {
            assert(c1[k] == c[k]);
        }
    }
    lemma_scan_script_same(reset_after(c1, j), reset_after(c, j), d, tree, j, es, there);
    lemma_after_same(c1, f, c, f, d, tree, j);
    let below = script(c, d, tree, i as int, e, there);
    let left = scan_script(reset_after(c, j), d, tree, j, es, there);
    let rest = after(c, f, d, tree, j);
    assert(after(c, f, d, tree, i as int) == left + rest);
    assert(here + ((seq![ask_dir(f[j])] + (below + left)) + rest) == there + (below + (left
        + rest)));
}

/// An answer that goes one place up the chain leaves the steps to come as
/// they were.
proof fn lemma_advance_steps_return(s: PathsView, i: usize, r: Option<PathView>, tree: Tree)
    requires
        s.wf_at(PcView::Return(i, r)),
        settled_at(s, PcView::Return(i, r), tree),
    ensures
        settled_at(
            advance(s, PcView::Return(i, r)).0,
            advance(s, PcView::Return(i, r)).1,
            tree,
        ),
        trail_at(advance(s, PcView::Return(i, r)).0, advance(s, PcView::Return(i, r)).1, tree)
            == trail_at(s, PcView::Return(i, r), tree),
{
    if i == 0 {
        lemma_spine_grounded(s, tree, 0);
        lemma_advance_steps_top(s, r, tree);
    } else {
        lemma_spine_grounded(s, tree, i as int);
        lemma_spine_entered(s, tree, i as int, i - 1);
        match s.selector[i - 1] {
            SelectorView::Precise { .. } => {
                lemma_advance_steps_precise(s, i, r, tree);
            },
            SelectorView::Wildcard { .. } => {
                match r {
                    None => {
                        lemma_advance_steps_wildcard_none(s, i, tree);
                    },
                    Some(p) => {
                        lemma_advance_steps_wildcard_some(s, i, p, tree);
                    },
                }
            },
            SelectorView::Recursive { .. } => {
                match r {
                    None => {
                        lemma_advance_steps_walker_none(s, i, tree);
                    },
                    Some(p) => {
                        lemma_advance_steps_walker_some(s, i, p, tree);
                    },
                }
            },
            _ => {},
        }
    }
}

/// A wildcard that goes on through its listing leaves the steps to come as
/// they were.
#[verifier::rlimit(40)]
proof fn lemma_advance_steps_scan(s: PathsView, i: usize, tree: Tree)
    requires
        s.wf_at(PcView::Scan(i)),
        settled_at(s, PcView::Scan(i), tree),
    ensures
        settled_at(advance(s, PcView::Scan(i)).0, advance(s, PcView::Scan(i)).1, tree),
        trail_at(advance(s, PcView::Scan(i)).0, advance(s, PcView::Scan(i)).1, tree) == trail_at(
            s,
            PcView::Scan(i),
            tree,
        ),
{
    let c = s.selector;
    let f = s.frames;
    let d = s.is_dir;
    let es = entries_of(c[i as int]);
    let (node, entry) = pop_entry(c[i as int]);
    let s1 = s.set_node(i as int, node);
    let c1 = s1.selector;
    let here = back_to(c, f, i as int);
    let there = here + seq![ask_dir(f[i as int])];
    let tail = after(c, f, d, tree, i as int);
    lemma_spine_grounded(s, tree, i as int);
    lemma_spine_rested(s, tree, i as int, i as int);
    lemma_same_after_update(c, i as int, node);
    lemma_after_same(c1, f, c, f, d, tree, i as int);
    lemma_back_same(c1, f, c, f, i as int);
    assert(!fresh_from(c, i as int)) by {
        assert(!is_fresh(c[i as int]));
    }
    assert(tree.directories.contains(f[i as int]));
    match entry {
        None => {
            assert(es.len() == 0);
            lemma_spine_popped_fresh(s, tree, i as int, node);
            assert(Seq::<StepView>::empty() + tail == tail);
        },
        Some(e) => {
            let left = es.drop_last();
            assert(e == es.last());
            assert(scan_script(c, d, tree, i as int, es, there) == entry_script(
                c,
                d,
                tree,
                i as int,
                e,
                there,
            ) + scan_script(reset_after(c, i as int), d, tree, i as int, left, there));
            if !selects(node, name_of(e)) {
                assert(fresh_from(c, i + 1));
                lemma_spine_popped_fresh(s, tree, i as int, node);
                lemma_reset_fresh(c, i as int);
                lemma_scan_script_same(c1, c, d, tree, i as int, left, there);
                let rest = scan_script(c, d, tree, i as int, left, there);
                assert(Seq::<StepView>::empty() + rest == rest);
            } else if c1[i + 1] is Terminating {
                assert(!d);
                assert(fresh_from(c, i + 1));
                lemma_spine_popped_fresh(s, tree, i as int, node);
                lemma_reset_fresh(c, i as int);
                lemma_scan_script_same(c1, c, d, tree, i as int, left, there);
                let rest = scan_script(c, d, tree, i as int, left, there);
                assert(opened(c1, d, tree, i as int, f[i as int], here) == scan_script(
                    c1,
                    d,
                    tree,
                    i as int,
                    left,
                    there,
                ));
                assert(script(c1, d, tree, i as int, f[i as int], here) == seq![
                    ask_dir(f[i as int]),
                ] + rest);
                assert(seq![StepView::Yield(e)] + (here + ((seq![ask_dir(f[i as int])] + rest)
                    + tail)) == ((seq![StepView::Yield(e)] + there) + rest) + tail);
            } else {
                assert(spine_open(s1, tree, i as int)) by {
                    reveal(spine);
                    reveal(spine_open);
                    assert forall|k: int| 0 <= k < i implies #[trigger] entered(s1, tree, k) by {
                        assert(entered(s, tree, k));
                    }
                    assert forall|k: int|
                        i < k < s1.selector.len() && 0 <= k implies #[trigger] rested(
                        s1,
                        tree,
                        k,
                    ) by {
                        assert(rested(s, tree, k));
                        if fresh_from(c, k) {
                            lemma_fresh_same(c, c1, k);
                        }
                    }
                }
                if fresh_from(c, i + 1) {
                    lemma_fresh_same(c, c1, i + 1);
                }
                lemma_spine_descend(s1, tree, i as int, e);
                lemma_enter_steps(s1, (i + 1) as usize, e, tree);
                let g = s1.set_frame(i + 1, e).frames;
                lemma_frames_set(f, g, i + 1, e);
                lemma_back_same(c1, g, c, f, i as int);
                lemma_after_same(c1, g, c, f, d, tree, i as int);
                assert(g[i as int] == f[i as int]);
                assert(back_to(c1, g, i + 1) == there);
                lemma_script_same(c1, c, d, tree, i + 1, e, there);
                assert(same_from(reset_after(c1, i as int), reset_after(c, i as int), i + 1)) by {
                    assert forall|k: int|
                        0 <= k < c.len() && i + 1 <= k implies #[trigger] reset_after(
                        c1,
                        i as int,
                    )[k] == reset_after(c, i as int)[k] by {
                        assert(c1[k] == c[k]);
                    }
                }
                lemma_scan_script_same(
                    reset_after(c1, i as int),
                    reset_after(c, i as int),
                    d,
                    tree,
                    i as int,
                    left,
                    there,
                );
                let below = script(c, d, tree, i + 1, e, there);
                let rest = scan_script(reset_after(c, i as int), d, tree, i as int, left, there);
                assert(after(c1, g, d, tree, i + 1) == scan_script(
                    reset_after(c1, i as int),
                    d,
                    tree,
                    i as int,
                    left,
                    there,
                ) + after(c1, g, d, tree, i as int));
                assert((below + rest) + tail == below + (rest + tail));
            }
        },
    }
}

/// Every move in the middle of a call leaves the steps to come as they
/// were.
proof fn lemma_advance_steps(s: PathsView, pc: PcView, tree: Tree)
    requires
        tree.is_bounded(),
        s.wf_at(pc),
        settled_at(s, pc, tree),
    ensures
        settled_at(advance(s, pc).0, advance(s, pc).1, tree),
        trail_at(advance(s, pc).0, advance(s, pc).1, tree) == trail_at(s, pc, tree),
{
    match pc {
        PcView::Return(i, r) => {
            lemma_advance_steps_return(s, i, r, tree);
        },
        PcView::Scan(i) => {
            lemma_advance_steps_scan(s, i, tree);
        },
        PcView::Walk(i) => {
            lemma_advance_steps_walk(s, i, tree);
        },
        PcView::Halt(_) => {},
    }
}

proof fn lemma_run_steps(s: PathsView, pc: PcView, tree: Tree)
    requires
        tree.is_bounded(),
        s.wf_at(pc),
        settled_at(s, pc, tree),
    ensures
        settled(run(s, pc).0, tree),
        trail_at(s, pc, tree) == trail_at(run(s, pc).0, PcView::Halt(run(s, pc).1), tree),
    decreases level(pc), rank(pc), listing_left(s, pc),
{
    if !(pc is Halt) {
        lemma_advance_wf(s, pc);
        lemma_advance_steps(s, pc, tree);
        let (s1, pc1) = advance(s, pc);
        lemma_run_steps(s1, pc1, tree);
    }
}

/// One call, answered from the tree, takes the first of the steps that the
/// traversal had still to take and leaves the others; and it ends exactly
/// when there is no step left.
pub proof fn lemma_next_step(s: PathsView, tree: Tree)
    requires
        tree.is_bounded(),
        s.wf(),
        settled(s, tree),
    ensures
        next_spec(s, tree.reply_to(s)).0.wf(),
        settled(next_spec(s, tree.reply_to(s)).0, tree),
        match next_spec(s, tree.reply_to(s)).1 {
            StepView::End => trail(s, tree) == Seq::<StepView>::empty(),
            step => trail(s, tree) == seq![step] + trail(next_spec(s, tree.reply_to(s)).0, tree),
        },
{
    let reply = tree.reply_to(s);
    lemma_deliver_wf(s, reply);
    lemma_deliver_steps(s, tree);
    let (s1, pc) = deliver(s, reply);
    lemma_run_steps(s1, pc, tree);
    lemma_next_wf(s, reply);
}

/// The matches among some steps, in order.
pub open spec fn yields_of(steps: Seq<StepView>) -> Seq<PathView>
    decreases steps.len(),
{
    if steps.len() == 0 {
        Seq::empty()
    } else {
        match steps.last() {
            StepView::Yield(p) => yields_of(steps.drop_last()).push(p),
            _ => yields_of(steps.drop_last()),
        }
    }
}

/// Whether the steps are questions only.
pub open spec fn only_asks(steps: Seq<StepView>) -> bool {
    forall|k: int| 0 <= k < steps.len() ==> #[trigger] steps[k] is Ask
}

/// The matches among two runs of steps are those of the first, then those
/// of the second.
pub proof fn lemma_yields_concat(a: Seq<StepView>, b: Seq<StepView>)
    ensures
        yields_of(a + b) == yields_of(a) + yields_of(b),
    decreases b.len(),
{
    if b.len() == 0 {
        assert(a + b == a);
        assert(yields_of(a) + Seq::<PathView>::empty() == yields_of(a));
    } else {
        lemma_yields_concat(a, b.drop_last());
        assert((a + b).drop_last() == a + b.drop_last());
        assert((a + b).last() == b.last());
        match b.last() {
            StepView::Yield(p) => {
                assert((yields_of(a) + yields_of(b.drop_last())).push(p) == yields_of(a)
                    + yields_of(b.drop_last()).push(p));
            },
            _ => {},
        }
    }
}

/// There is no match among questions.
pub proof fn lemma_yields_of_asks(steps: Seq<StepView>)
    requires
        only_asks(steps),
    ensures
        yields_of(steps) == Seq::<PathView>::empty(),
    decreases steps.len(),
{
    if steps.len() > 0 {
        assert(steps.last() is Ask);
        assert(only_asks(steps.drop_last())) by {
            assert forall|k: int| 0 <= k < steps.drop_last().len() implies (
            #[trigger] steps.drop_last()[k]) is Ask by {
                assert(steps[k] is Ask);
            }
        }
        lemma_yields_of_asks(steps.drop_last());
    }
}

proof fn lemma_asks_grow(back: Seq<StepView>, more: Seq<StepView>)
    requires
        only_asks(back),
        only_asks(more),
    ensures
        only_asks(back + more),
{
    assert forall|k: int| 0 <= k < (back + more).len() implies (#[trigger] (back + more)[k])
        is Ask by {
        if k < back.len() {
            assert(back[k] is Ask);
        } else {
            assert(more[k - back.len()] is Ask);
        }
    }
}

proof fn lemma_yields_one(step: StepView)
    ensures
        yields_of(seq![step]) == match step {
            StepView::Yield(p) => seq![p],
            _ => Seq::<PathView>::empty(),
        },
{
    assert(seq![step].drop_last() == Seq::<StepView>::empty());
    assert(yields_of(Seq::<StepView>::empty()) == Seq::<PathView>::empty());
    match step {
        StepView::Yield(p) => {
            assert(Seq::<PathView>::empty().push(p) == seq![p]);
        },
        _ => {},
    }
}

/// The matches among the steps of the chain are the matches of the chain:
/// the script adds the questions, and nothing else.
pub proof fn lemma_script_yields(
    c: Seq<SelectorView>,
    d: bool,
    tree: Tree,
    i: int,
    path: PathView,
    back: Seq<StepView>,
)
    requires
        only_asks(back),
    ensures
        yields_of(script(c, d, tree, i, path, back)) == results(c, d, tree, i, path),
    decreases 2 * (c.len() - i) + 1, 0nat, 1nat,
{
    let all = script(c, d, tree, i, path, back);
    lemma_yields_of_asks(back);
    lemma_yields_of_asks(Seq::<StepView>::empty());
    if 0 <= i < c.len() {
        match c[i] {
            SelectorView::Terminating { terminated } => {
                if !terminated {
                    if d {
                        if tree.directories.contains(path) {
                            let head = seq![ask_dir(path), StepView::Yield(path)];
                            assert(head == seq![ask_dir(path)] + seq![StepView::Yield(path)]);
                            lemma_yields_one(ask_dir(path));
                            lemma_yields_one(StepView::Yield(path));
                            lemma_yields_concat(seq![ask_dir(path)], seq![StepView::Yield(path)]);
                            lemma_yields_concat(head, back);
                            assert(yields_of(all) == seq![path]);
                        } else {
                            lemma_yields_one(ask_dir(path));
                        }
                    } else {
                        lemma_yields_one(StepView::Yield(path));
                        lemma_yields_concat(seq![StepView::Yield(path)], back);
                        assert(yields_of(all) == seq![path]);
                    }
                }
            },
            _ => {
                lemma_opened_yields(c, d, tree, i, path, back);
                lemma_yields_one(ask_dir(path));
                lemma_yields_concat(seq![ask_dir(path)], opened(c, d, tree, i, path, back));
                let inner = yields_of(opened(c, d, tree, i, path, back));
                assert(Seq::<PathView>::empty() + inner == inner);
            },
        }
    }
}

/// The matches among the steps of a selector that knows its path are its
/// matches.
pub proof fn lemma_opened_yields(
    c: Seq<SelectorView>,
    d: bool,
    tree: Tree,
    i: int,
    path: PathView,
    back: Seq<StepView>,
)
    requires
        only_asks(back),
        0 <= i < c.len(),
        !(c[i] is Terminating),
    ensures
        yields_of(opened(c, d, tree, i, path, back)) == results(c, d, tree, i, path),
    decreases 2 * (c.len() - i) + 1, 0nat, 0nat,
{
    lemma_yields_of_asks(Seq::<StepView>::empty());
    if tree.directories.contains(path) {
        match c[i] {
            SelectorView::Precise { pattern } => {
                let target = joined(path, pattern);
                lemma_yields_one(ask_exists(target));
                if tree.present.contains(target) {
                    let more = seq![ask_dir(path), ask_exists(target)];
                    assert(only_asks(more));
                    lemma_asks_grow(back, more);
                    lemma_script_yields(c, d, tree, i + 1, target, back + more);
                    let below = script(c, d, tree, i + 1, target, back + more);
                    lemma_yields_concat(seq![ask_exists(target)], below);
                    assert(Seq::<PathView>::empty() + yields_of(below) == yields_of(below));
                }
            },
            SelectorView::Wildcard { entries, .. } => {
                let more = seq![ask_dir(path)];
                assert(only_asks(more));
                lemma_asks_grow(back, more);
                match entries {
                    Some(es) => {
                        lemma_scan_script_yields(c, d, tree, i, es, back + more);
                    },
                    None => {
                        let es = children_in_order(path, tree.names(path));
                        lemma_scan_script_yields(c, d, tree, i, es, back + more);
                        let below = scan_script(c, d, tree, i, es, back + more);
                        lemma_yields_one(ask_list(path));
                        lemma_yields_concat(seq![ask_list(path)], below);
                        assert(Seq::<PathView>::empty() + yields_of(below) == yields_of(below));
                    },
                }
            },
            SelectorView::Recursive { directories } => {
                let more = seq![ask_dir(path)];
                assert(only_asks(more));
                lemma_asks_grow(back, more);
                match directories {
                    None => {
                        lemma_walk_yields(c, d, tree, i, seq![path], tree.depth, back + more);
                    },
                    Some(w) => {
                        match w.peeked {
                            Some(at) => {
                                lemma_hand_yields(c, d, tree, i, at, back + more);
                                assert(reset_after(c, i).len() == c.len());
                                lemma_walk_yields(
                                    reset_after(c, i),
                                    d,
                                    tree,
                                    i,
                                    w.stack,
                                    tree.depth,
                                    back + more,
                                );
                                lemma_yields_concat(
                                    hand(c, d, tree, i, at, back + more),
                                    walk(
                                        reset_after(c, i),
                                        d,
                                        tree,
                                        i,
                                        w.stack,
                                        tree.depth,
                                        back + more,
                                    ),
                                );
                            },
                            None => {
                                lemma_walk_yields(c, d, tree, i, w.stack, tree.depth, back + more);
                            },
                        }
                    },
                }
            },
            _ => {},
        }
    }
}

/// Questions about entries are questions.
pub proof fn lemma_checks_ask(entries: Seq<PathView>)
    ensures
        only_asks(checks(entries)),
    decreases entries.len(),
{
    if entries.len() > 0 {
        lemma_checks_ask(entries.drop_last());
        assert(only_asks(seq![ask_dir(entries.last())]));
        lemma_asks_grow(seq![ask_dir(entries.last())], checks(entries.drop_last()));
    }
}

/// The matches among the steps of a recursive selector for one directory
/// are its matches for that directory.
pub proof fn lemma_hand_yields(
    c: Seq<SelectorView>,
    d: bool,
    tree: Tree,
    i: int,
    at: PathView,
    back: Seq<StepView>,
)
    requires
        only_asks(back),
    ensures
        yields_of(hand(c, d, tree, i, at, back)) == hand_results(c, d, tree, i, at),
    decreases 2 * (c.len() - i), 0nat, 0nat,
{
    lemma_yields_of_asks(back);
    lemma_yields_of_asks(Seq::<StepView>::empty());
    if 0 <= i && i + 1 < c.len() {
        if c[i + 1] is Terminating {
            lemma_yields_one(StepView::Yield(at));
            lemma_yields_concat(seq![StepView::Yield(at)], back);
            assert(seq![at] + Seq::<PathView>::empty() == seq![at]);
        } else {
            lemma_script_yields(c, d, tree, i + 1, at, back);
        }
    }
}

/// The matches among the steps of a walk at a directory and below are the
/// matches of the walk there.
pub proof fn lemma_visit_yields(
    c: Seq<SelectorView>,
    d: bool,
    tree: Tree,
    i: int,
    at: PathView,
    fuel: nat,
    back: Seq<StepView>,
)
    requires
        only_asks(back),
    ensures
        yields_of(visit(c, d, tree, i, at, fuel, back)) == visit_results(c, d, tree, i, at, fuel),
    decreases 2 * (c.len() - i), fuel + 1, 0nat,
{
    lemma_yields_of_asks(Seq::<StepView>::empty());
    if 0 <= i && i + 1 < c.len() {
        let entries = children_reversed(at, tree.names(at));
        let handed = hand(c, d, tree, i, at, back);
        let below = if fuel == 0 {
            Seq::<StepView>::empty()
        } else {
            walk(reset_after(c, i), d, tree, i, kept(tree, entries), (fuel - 1) as nat, back)
        };
        lemma_hand_yields(c, d, tree, i, at, back);
        if fuel > 0 {
            assert(reset_after(c, i).len() == c.len());
            lemma_walk_yields(
                reset_after(c, i),
                d,
                tree,
                i,
                kept(tree, entries),
                (fuel - 1) as nat,
                back,
            );
        }
        lemma_checks_ask(entries);
        lemma_yields_of_asks(checks(entries));
        lemma_yields_one(ask_list(at));
        lemma_yields_concat(handed, below);
        lemma_yields_concat(checks(entries), handed + below);
        lemma_yields_concat(seq![ask_list(at)], checks(entries) + (handed + below));
        let found = yields_of(handed) + yields_of(below);
        assert(Seq::<PathView>::empty() + (Seq::<PathView>::empty() + found) == found);
    }
}

/// The matches among the steps of a walk through a stack are the matches
/// of the walk.
pub proof fn lemma_walk_yields(
    c: Seq<SelectorView>,
    d: bool,
    tree: Tree,
    i: int,
    stack: Seq<PathView>,
    fuel: nat,
    back: Seq<StepView>,
)
    requires
        only_asks(back),
    ensures
        yields_of(walk(c, d, tree, i, stack, fuel, back)) == walk_results(
            c,
            d,
            tree,
            i,
            stack,
            fuel,
        ),
    decreases 2 * (c.len() - i), fuel + 1, stack.len() + 1,
{
    lemma_yields_of_asks(Seq::<StepView>::empty());
    if 0 <= i && i + 1 < c.len() && stack.len() > 0 {
        lemma_visit_yields(c, d, tree, i, stack.last(), fuel, back);
        assert(reset_after(c, i).len() == c.len());
        lemma_walk_yields(reset_after(c, i), d, tree, i, stack.drop_last(), fuel, back);
        lemma_yields_concat(
            visit(c, d, tree, i, stack.last(), fuel, back),
            walk(reset_after(c, i), d, tree, i, stack.drop_last(), fuel, back),
        );
    }
}

/// The matches among the steps of a wildcard are its matches.
pub proof fn lemma_scan_script_yields(
    c: Seq<SelectorView>,
    d: bool,
    tree: Tree,
    i: int,
    es: Seq<PathView>,
    back: Seq<StepView>,
)
    requires
        only_asks(back),
    ensures
        yields_of(scan_script(c, d, tree, i, es, back)) == scan_results(c, d, tree, i, es),
    decreases 2 * (c.len() - i), 0nat, es.len(),
{
    lemma_yields_of_asks(Seq::<StepView>::empty());
    if 0 <= i && i + 1 < c.len() && es.len() > 0 {
        lemma_entry_script_yields(c, d, tree, i, es.last(), back);
        assert(reset_after(c, i).len() == c.len());
        lemma_scan_script_yields(reset_after(c, i), d, tree, i, es.drop_last(), back);
        lemma_yields_concat(
            entry_script(c, d, tree, i, es.last(), back),
            scan_script(reset_after(c, i), d, tree, i, es.drop_last(), back),
        );
    }
}

/// The matches among the steps of a wildcard for one entry are its
/// matches under that entry.
pub proof fn lemma_entry_script_yields(
    c: Seq<SelectorView>,
    d: bool,
    tree: Tree,
    i: int,
    e: PathView,
    back: Seq<StepView>,
)
    requires
        only_asks(back),
    ensures
        yields_of(entry_script(c, d, tree, i, e, back)) == entry_results(c, d, tree, i, e),
    decreases 2 * (c.len() - i), 0nat, 0nat,
{
    let all = entry_script(c, d, tree, i, e, back);
    lemma_yields_of_asks(back);
    lemma_yields_of_asks(Seq::<StepView>::empty());
    if 0 <= i && i + 1 < c.len() && selects(c[i], name_of(e)) {
        if c[i + 1] is Terminating {
            if d {
                if tree.directories.contains(e) {
                    let head = seq![ask_dir(e), StepView::Yield(e)];
                    assert(head == seq![ask_dir(e)] + seq![StepView::Yield(e)]);
                    lemma_yields_one(ask_dir(e));
                    lemma_yields_one(StepView::Yield(e));
                    lemma_yields_concat(seq![ask_dir(e)], seq![StepView::Yield(e)]);
                    lemma_yields_concat(head, back);
                    assert(yields_of(all) == seq![e]);
                } else {
                    lemma_yields_one(ask_dir(e));
                }
            } else {
                lemma_yields_one(StepView::Yield(e));
                lemma_yields_concat(seq![StepView::Yield(e)], back);
                assert(yields_of(all) == seq![e]);
            }
        } else {
            lemma_script_yields(c, d, tree, i + 1, e, back);
        }
    }
}

/// The traversal as it stands after a number of calls, each answered from
/// the tree.
pub open spec fn state_after(s: PathsView, tree: Tree, calls: nat) -> PathsView
    decreases calls,
{
    if calls == 0 {
        s
    } else {
        state_after(next_spec(s, tree.reply_to(s)).0, tree, (calls - 1) as nat)
    }
}

/// The step that call number `k` comes back with, counting from zero.
pub open spec fn step_at(s: PathsView, tree: Tree, k: nat) -> StepView {
    next_spec(state_after(s, tree, k), tree.reply_to(state_after(s, tree, k))).1
}

proof fn lemma_run_end(s: PathsView, pc: PcView)
    requires
        s.wf_at(pc),
        pc matches PcView::Halt(StepView::End) ==> s.wait == Wait::Exhausted,
    ensures
        run(s, pc).1 is End ==> run(s, pc).0.wait == Wait::Exhausted,
    decreases level(pc), rank(pc), listing_left(s, pc),
{
    if !(pc is Halt) {
        lemma_advance_wf(s, pc);
        let (s1, pc1) = advance(s, pc);
        lemma_run_end(s1, pc1);
    }
}

/// A traversal that says it has ended has ended.
pub proof fn lemma_end_is_final(s: PathsView, tree: Tree)
    requires
        s.wf(),
    ensures
        next_spec(s, tree.reply_to(s)).1 is End ==> next_spec(s, tree.reply_to(s)).0.wait
            == Wait::Exhausted,
{
    let reply = tree.reply_to(s);
    lemma_deliver_wf(s, reply);
    let (s1, pc) = deliver(s, reply);
    lemma_run_end(s1, pc);
}

/// After any number of calls the traversal is sound and settled, and has
/// the rest of its steps still to take.
pub proof fn lemma_after_calls(s: PathsView, tree: Tree, calls: nat)
    requires
        tree.is_bounded(),
        s.wf(),
        settled(s, tree),
    ensures
        state_after(s, tree, calls).wf(),
        settled(state_after(s, tree, calls), tree),
        trail(state_after(s, tree, calls), tree) == if calls <= trail(s, tree).len() {
            trail(s, tree).skip(calls as int)
        } else {
            Seq::<StepView>::empty()
        },
    decreases calls,
{
    if calls > 0 {
        lemma_next_step(s, tree);
        lemma_end_is_final(s, tree);
        let (s1, step) = next_spec(s, tree.reply_to(s));
        lemma_after_calls(s1, tree, (calls - 1) as nat);
        if !(step is End) && calls <= trail(s, tree).len() {
            assert(trail(s, tree) == seq![step] + trail(s1, tree));
            assert(trail(s, tree).skip(calls as int) == trail(s1, tree).skip(calls - 1));
        }
    } else {
        assert(trail(s, tree).skip(0) == trail(s, tree));
    }
}

/// The matches found in a number of calls are the matches among the first
/// so many steps.
pub proof fn lemma_found_in_trail(s: PathsView, tree: Tree, calls: nat)
    requires
        tree.is_bounded(),
        s.wf(),
        settled(s, tree),
    ensures
        found(s, tree, calls) == yields_of(
            if calls <= trail(s, tree).len() {
                trail(s, tree).take(calls as int)
            } else {
                trail(s, tree)
            },
        ),
    decreases calls,
{
    lemma_yields_of_asks(Seq::<StepView>::empty());
    if calls > 0 {
        lemma_next_step(s, tree);
        lemma_end_is_final(s, tree);
        let (s1, step) = next_spec(s, tree.reply_to(s));
        lemma_found_in_trail(s1, tree, (calls - 1) as nat);
        let all = trail(s, tree);
        let rest = trail(s1, tree);
        if step is End {
            assert(all.take(0) == all);
            assert(rest == Seq::<StepView>::empty());
            assert(rest.take(0) == rest);
        } else {
            let cut = if calls - 1 <= rest.len() {
                rest.take(calls - 1)
            } else {
                rest
            };
            assert(all == seq![step] + rest);
            if calls <= all.len() {
                assert(all.take(calls as int) == seq![step] + cut);
            } else {
                assert(all == seq![step] + cut);
            }
            lemma_yields_concat(seq![step], cut);
            lemma_yields_one(step);
            assert(Seq::<PathView>::empty() + yields_of(cut) == yields_of(cut));
        }
    } else {
        assert(trail(s, tree).take(0) == Seq::<StepView>::empty());
    }
}

/// The steps of a pattern in a tree: the questions that its traversal asks
/// and the matches that it finds, in order, up to the end.
pub open spec fn steps_of(
    scope: PathView,
    components: Seq<Seq<char>>,
    is_dir: bool,
    tree: Tree,
) -> Seq<StepView> {
    script(chain_of(components), is_dir, tree, 0, scope, Seq::empty())
}

/// A traversal takes the steps of its pattern, one with each call, and
/// then ends: call number `k` comes back with step number `k` of the
/// pattern in the tree, and with the end once the steps are over.
pub proof fn law_steps_follow_the_pattern(
    scope: PathView,
    components: Seq<Seq<char>>,
    is_dir: bool,
    tree: Tree,
    k: nat,
)
    requires
        components.len() < usize::MAX,
        fits_mode(components, is_dir),
        tree.is_bounded(),
    ensures
        step_at(fresh(scope, chain_of(components), is_dir), tree, k) == if k < steps_of(
            scope,
            components,
            is_dir,
            tree,
        ).len() {
            steps_of(scope, components, is_dir, tree)[k as int]
        } else {
            StepView::End
        },
{
    let s = fresh(scope, chain_of(components), is_dir);
    lemma_fresh_settled(scope, components, is_dir, tree);
    lemma_after_calls(s, tree, k);
    let now = state_after(s, tree, k);
    lemma_next_step(now, tree);
    let all = trail(s, tree);
    let step = step_at(s, tree, k);
    assert(all == steps_of(scope, components, is_dir, tree));
    if k < all.len() {
        assert(all.skip(k as int).len() > 0);
        assert(all.skip(k as int)[0] == all[k as int]);
        assert(trail(now, tree) == all.skip(k as int));
        assert(!(step is End));
        assert(trail(now, tree)[0] == step);
    } else {
        assert(trail(now, tree).len() == 0);
        if !(step is End) {
            assert((seq![step] + trail(next_spec(now, tree.reply_to(now)).0, tree)).len() > 0);
        }
    }
}

/// A traversal finds the matches of its pattern, all of them, each once,
/// in their order: once the steps of the pattern are over, what has been
/// found are the matches of the pattern in the tree, and before that the
/// first of them.
pub proof fn law_finds_the_matches(
    scope: PathView,
    components: Seq<Seq<char>>,
    is_dir: bool,
    tree: Tree,
    calls: nat,
)
    requires
        components.len() < usize::MAX,
        fits_mode(components, is_dir),
        tree.is_bounded(),
    ensures
        calls >= steps_of(scope, components, is_dir, tree).len() ==> found(
            fresh(scope, chain_of(components), is_dir),
            tree,
            calls,
        ) == matches_of(scope, components, is_dir, tree),
        found(fresh(scope, chain_of(components), is_dir), tree, calls).len() <= matches_of(
            scope,
            components,
            is_dir,
            tree,
        ).len(),
        found(fresh(scope, chain_of(components), is_dir), tree, calls) == matches_of(
            scope,
            components,
            is_dir,
            tree,
        ).take(found(fresh(scope, chain_of(components), is_dir), tree, calls).len() as int),
{
    let s = fresh(scope, chain_of(components), is_dir);
    let all = trail(s, tree);
    lemma_fresh_settled(scope, components, is_dir, tree);
    lemma_found_in_trail(s, tree, calls);
    lemma_script_yields(chain_of(components), is_dir, tree, 0, scope, Seq::empty());
    if calls < all.len() {
        let head = all.take(calls as int);
        let tail = all.skip(calls as int);
        assert(all == head + tail);
        lemma_yields_concat(head, tail);
        let some = yields_of(head);
        assert((some + yields_of(tail)).take(some.len() as int) == some);
    } else {
        if calls == all.len() {
            assert(all.take(calls as int) == all);
        }
        let every = matches_of(scope, components, is_dir, tree);
        assert(every.take(every.len() as int) == every);
    }
}

/// A pattern with at most one `**` finds no path twice: in a tree that
/// lists no name twice in one directory, the matches that a traversal finds
/// are all different.
pub proof fn law_no_match_twice(
    scope: PathView,
    components: Seq<Seq<char>>,
    is_dir: bool,
    tree: Tree,
    calls: nat,
)
    requires
        components.len() < usize::MAX,
        walks_from(chain_of(components), 0) <= 1,
        fits_mode(components, is_dir),
        tree.lists_once(),
        tree.is_bounded(),
    ensures
        found(fresh(scope, chain_of(components), is_dir), tree, calls).no_duplicates(),
{
    let s = fresh(scope, chain_of(components), is_dir);
    lemma_fresh_settled(scope, components, is_dir, tree);
    law_finds_the_matches(scope, components, is_dir, tree, calls);
    crate::glob::lemma_chain_of_is_chain(components);
    lemma_results_distinct(chain_of(components), is_dir, tree, 0, scope);
    let all = matches_of(scope, components, is_dir, tree);
    let some = found(s, tree, calls);
    assert forall|a: int, b: int| 0 <= a < some.len() && 0 <= b < some.len() && a
        != b implies some[a] != some[b] by {
        assert(some[a] == all[a]);
        assert(some[b] == all[b]);
    }
}

/// Two traversals of one pattern find the same: run to their ends in two
/// trees that hold the same, in whatever order the trees list their
/// entries, they have found the same paths.
pub proof fn law_two_traversals_find_the_same(
    scope: PathView,
    components: Seq<Seq<char>>,
    is_dir: bool,
    a: Tree,
    b: Tree,
    calls_a: nat,
    calls_b: nat,
    r: PathView,
)
    requires
        components.len() < usize::MAX,
        fits_mode(components, is_dir),
        a.is_bounded(),
        b.is_bounded(),
        alike(a, b),
        calls_a >= steps_of(scope, components, is_dir, a).len(),
        calls_b >= steps_of(scope, components, is_dir, b).len(),
    ensures
        found(fresh(scope, chain_of(components), is_dir), a, calls_a).contains(r) <==> found(
            fresh(scope, chain_of(components), is_dir),
            b,
            calls_b,
        ).contains(r),
{
    law_finds_the_matches(scope, components, is_dir, a, calls_a);
    law_finds_the_matches(scope, components, is_dir, b, calls_b);
    law_matches_whatever_the_order(scope, components, is_dir, a, b, r);
}

} // verus!
