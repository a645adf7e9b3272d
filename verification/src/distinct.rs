//! No match twice: the matches of a pattern with at most one `**`, in a
//! tree that lists no name twice, are all different.

use vstd::prelude::*;
use vstd::seq_lib::lemma_no_dup_in_concat;
use crate::glob::{children_in_order, children_reversed};
use crate::laws::step_of;
use crate::tree::Tree;
use crate::path::{joined, name_of, PathView};
use crate::selector::{is_chain, selects, SelectorView};
use crate::semantics::{
    entry_results, fresh_from, hand_results, is_fresh, kept, lemma_fresh_deeper,
    lemma_reset_fresh, results, scan_results, visit_results, walk_results,
};

verus! {

/// Whether `longer` lies at or below `path`.
pub open spec fn extends(path: PathView, longer: PathView) -> bool {
    &&& longer.root == path.root
    &&& path.components.len() <= longer.components.len()
    &&& longer.components.take(path.components.len() as int) =~= path.components
}

/// Two different paths of one depth have nothing below them in common.
pub proof fn lemma_apart(a: PathView, b: PathView, below: PathView)
    requires
        a.root == b.root,
        a.components.len() == b.components.len(),
        extends(a, below),
        extends(b, below),
    ensures
        a == b,
{
    assert(a.components =~= b.components);
}

proof fn lemma_extends_trans(a: PathView, b: PathView, c: PathView)
    requires
        extends(a, b),
        extends(b, c),
    ensures
        extends(a, c),
{
    assert(c.components.take(a.components.len() as int) =~= b.components.take(
        a.components.len() as int,
    ));
}

/// The entries are entries of one directory, each listed once.
pub open spec fn siblings(entries: Seq<PathView>) -> bool {
    forall|a: int, b: int|
        0 <= a < entries.len() && 0 <= b < entries.len() && a != b ==> (#[trigger] entries[a]).root
            == (#[trigger] entries[b]).root && entries[a].components.len()
            == entries[b].components.len() && entries[a] != entries[b]
}

/// How many recursive selectors the chain has from place `i` on.
pub open spec fn walks_from(c: Seq<SelectorView>, i: int) -> nat
    decreases c.len() - i,
{
    if i < 0 || i >= c.len() {
        0
    } else if c[i] is Recursive {
        1 + walks_from(c, i + 1)
    } else {
        walks_from(c, i + 1)
    }
}

/// How many components the selectors from place `i` on add to a path.
pub open spec fn reach(c: Seq<SelectorView>, i: int) -> int
    decreases c.len() - i,
{
    if i < 0 || i >= c.len() {
        0
    } else {
        step_of(c[i]) + reach(c, i + 1)
    }
}

/// Every directory that a walk keeps is one of the entries.
pub proof fn lemma_kept_in(tree: Tree, entries: Seq<PathView>, k: int)
    requires
        0 <= k < kept(tree, entries).len(),
    ensures
        exists|j: int| 0 <= j < entries.len() && kept(tree, entries)[k] == #[trigger] entries[j],
    decreases entries.len(),
{
    if entries.len() > 0 {
        let rest = entries.drop_last();
        if tree.directories.contains(entries.last()) && k == 0 {
            assert(kept(tree, entries)[k] == entries[entries.len() - 1]);
        } else {
            let k1 = if tree.directories.contains(entries.last()) {
                k - 1
            } else {
                k
            };
            lemma_kept_in(tree, rest, k1);
            let j = choose|j: int| 0 <= j < rest.len() && kept(tree, rest)[k1] == #[trigger] rest[j];
            assert(rest[j] == entries[j]);
        }
    }
}

/// Everything that a walk keeps is a directory.
pub proof fn lemma_kept_dirs(tree: Tree, entries: Seq<PathView>, k: int)
    requires
        0 <= k < kept(tree, entries).len(),
    ensures
        tree.directories.contains(kept(tree, entries)[k]),
    decreases entries.len(),
{
    if entries.len() > 0 {
        let rest = entries.drop_last();
        if tree.directories.contains(entries.last()) {
            if k > 0 {
                lemma_kept_dirs(tree, rest, k - 1);
            }
        } else {
            lemma_kept_dirs(tree, rest, k);
        }
    }
}

/// The directories kept from entries of one directory are entries of one
/// directory.
proof fn lemma_kept_siblings(tree: Tree, entries: Seq<PathView>)
    requires
        siblings(entries),
    ensures
        siblings(kept(tree, entries)),
    decreases entries.len(),
{
    if entries.len() > 0 {
        let rest = entries.drop_last();
        assert(siblings(rest)) by {
            assert forall|a: int, b: int|
                0 <= a < rest.len() && 0 <= b < rest.len() && a != b implies (
            #[trigger] rest[a]).root == (#[trigger] rest[b]).root && rest[a].components.len()
                == rest[b].components.len() && rest[a] != rest[b] by {
                assert(entries[a].root == entries[b].root);
            }
        }
        lemma_kept_siblings(tree, rest);
        let all = kept(tree, entries);
        let last = entries.len() - 1;
        if tree.directories.contains(entries.last()) {
            assert forall|a: int, b: int| 0 <= a < all.len() && 0 <= b < all.len() && a
                != b implies (#[trigger] all[a]).root == (#[trigger] all[b]).root
                && all[a].components.len() == all[b].components.len() && all[a] != all[b] by {
                if a > 0 {
                    lemma_kept_in(tree, rest, a - 1);
                    let j = choose|j: int|
                        0 <= j < rest.len() && kept(tree, rest)[a - 1] == #[trigger] rest[j];
                    assert(entries[j].root == entries[last].root);
                }
                if b > 0 {
                    lemma_kept_in(tree, rest, b - 1);
                    let j = choose|j: int|
                        0 <= j < rest.len() && kept(tree, rest)[b - 1] == #[trigger] rest[j];
                    assert(entries[j].root == entries[last].root);
                }
                if a > 0 && b > 0 {
                    assert(kept(tree, rest)[a - 1].root == kept(tree, rest)[b - 1].root);
                }
            }
        }
    }
}

/// The entries of a directory that lists no name twice are entries of one
/// directory, each listed once.
proof fn lemma_children_siblings(path: PathView, names: Seq<Seq<char>>)
    requires
        names.no_duplicates(),
    ensures
        siblings(children_in_order(path, names)),
        siblings(children_reversed(path, names)),
{
    let es = children_in_order(path, names);
    let rs = children_reversed(path, names);
    assert forall|a: int, b: int| 0 <= a < es.len() && 0 <= b < es.len() && a != b implies (
    #[trigger] es[a]).root == (#[trigger] es[b]).root && es[a].components.len()
        == es[b].components.len() && es[a] != es[b] by {
        assert(names[a] != names[b]);
        assert(es[a].components.last() == names[a]);
        assert(es[b].components.last() == names[b]);
    }
    assert forall|a: int, b: int| 0 <= a < rs.len() && 0 <= b < rs.len() && a != b implies (
    #[trigger] rs[a]).root == (#[trigger] rs[b]).root && rs[a].components.len()
        == rs[b].components.len() && rs[a] != rs[b] by {
        assert(names[names.len() - 1 - a] != names[names.len() - 1 - b]);
        assert(rs[a].components.last() == names[names.len() - 1 - a]);
        assert(rs[b].components.last() == names[names.len() - 1 - b]);
    }
}

/// Every match found from place `i` on lies at or below the path handed
/// to the selector there.
pub proof fn lemma_results_extend(
    c: Seq<SelectorView>,
    d: bool,
    tree: Tree,
    i: int,
    path: PathView,
    m: int,
)
    requires
        fresh_from(c, i),
        0 <= m < results(c, d, tree, i, path).len(),
    ensures
        extends(path, results(c, d, tree, i, path)[m]),
    decreases 2 * (c.len() - i) + 1, 0nat, 0nat,
{
    if 0 <= i < c.len() {
        assert(is_fresh(c[i]));
        lemma_fresh_deeper(c, i, i + 1);
        match c[i] {
            SelectorView::Precise { pattern } => {
                lemma_results_extend(c, d, tree, i + 1, joined(path, pattern), m);
                assert(extends(path, joined(path, pattern)));
                lemma_extends_trans(
                    path,
                    joined(path, pattern),
                    results(c, d, tree, i, path)[m],
                );
            },
            SelectorView::Wildcard { .. } => {
                let es = children_in_order(path, tree.names(path));
                lemma_scan_extend(c, d, tree, i, es, m);
                let t = choose|t: int|
                    0 <= t < es.len() && extends(es[t], scan_results(c, d, tree, i, es)[m]);
                assert(extends(path, es[t]));
                lemma_extends_trans(path, es[t], results(c, d, tree, i, path)[m]);
            },
            SelectorView::Recursive { .. } => {
                lemma_walk_extend(c, d, tree, i, seq![path], tree.depth, m);
            },
            _ => {},
        }
    }
}

/// Every match that a wildcard finds lies at or below one of its entries.
pub proof fn lemma_scan_extend(
    c: Seq<SelectorView>,
    d: bool,
    tree: Tree,
    i: int,
    es: Seq<PathView>,
    m: int,
)
    requires
        fresh_from(c, i + 1),
        0 <= m < scan_results(c, d, tree, i, es).len(),
    ensures
        exists|t: int| 0 <= t < es.len() && extends(es[t], scan_results(c, d, tree, i, es)[m]),
    decreases 2 * (c.len() - i), 0nat, es.len(),
{
    if 0 <= i && i + 1 < c.len() && es.len() > 0 {
        let first = entry_results(c, d, tree, i, es.last());
        lemma_reset_fresh(c, i);
        let rest = scan_results(c, d, tree, i, es.drop_last());
        assert(scan_results(c, d, tree, i, es) == first + rest);
        if m < first.len() {
            lemma_entry_extend(c, d, tree, i, es.last(), m);
            assert(extends(es[es.len() - 1], scan_results(c, d, tree, i, es)[m]));
        } else {
            lemma_scan_extend(c, d, tree, i, es.drop_last(), m - first.len());
            let t = choose|t: int|
                0 <= t < es.drop_last().len() && extends(es.drop_last()[t], rest[m - first.len()]);
            assert(es[t] == es.drop_last()[t]);
            assert(extends(es[t], scan_results(c, d, tree, i, es)[m]));
        }
    }
}

/// Every match that a wildcard finds under an entry lies at or below it.
pub proof fn lemma_entry_extend(
    c: Seq<SelectorView>,
    d: bool,
    tree: Tree,
    i: int,
    e: PathView,
    m: int,
)
    requires
        fresh_from(c, i + 1),
        0 <= m < entry_results(c, d, tree, i, e).len(),
    ensures
        extends(e, entry_results(c, d, tree, i, e)[m]),
    decreases 2 * (c.len() - i), 0nat, 0nat,
{
    if 0 <= i && i + 1 < c.len() && selects(c[i], name_of(e)) && !(c[i + 1] is Terminating) {
        lemma_results_extend(c, d, tree, i + 1, e, m);
    }
}

/// Every match that a recursive selector finds for a directory lies at or
/// below it.
pub proof fn lemma_hand_extend(
    c: Seq<SelectorView>,
    d: bool,
    tree: Tree,
    i: int,
    at: PathView,
    m: int,
)
    requires
        fresh_from(c, i + 1),
        0 <= m < hand_results(c, d, tree, i, at).len(),
    ensures
        extends(at, hand_results(c, d, tree, i, at)[m]),
    decreases 2 * (c.len() - i), 0nat, 0nat,
{
    if 0 <= i && i + 1 < c.len() && !(c[i + 1] is Terminating) {
        lemma_results_extend(c, d, tree, i + 1, at, m);
    }
}

/// Every match that a walk finds at a directory and below lies at or
/// below it.
pub proof fn lemma_visit_extend(
    c: Seq<SelectorView>,
    d: bool,
    tree: Tree,
    i: int,
    at: PathView,
    fuel: nat,
    m: int,
)
    requires
        fresh_from(c, i + 1),
        0 <= m < visit_results(c, d, tree, i, at, fuel).len(),
    ensures
        extends(at, visit_results(c, d, tree, i, at, fuel)[m]),
    decreases 2 * (c.len() - i), fuel + 1, 0nat,
{
    if 0 <= i && i + 1 < c.len() {
        let first = hand_results(c, d, tree, i, at);
        if m < first.len() {
            lemma_hand_extend(c, d, tree, i, at, m);
        } else {
            let entries = children_reversed(at, tree.names(at));
            let below = kept(tree, entries);
            lemma_reset_fresh(c, i);
            lemma_walk_extend(c, d, tree, i, below, (fuel - 1) as nat, m - first.len());
            let rest = walk_results(c, d, tree, i, below, (fuel - 1) as nat);
            let t = choose|t: int| 0 <= t < below.len() && extends(below[t], rest[m - first.len()]);
            lemma_kept_in(tree, entries, t);
            let j = choose|j: int| 0 <= j < entries.len() && below[t] == #[trigger] entries[j];
            assert(extends(at, entries[j]));
            lemma_extends_trans(at, below[t], rest[m - first.len()]);
        }
    }
}

/// Every match that a walk finds lies at or below a directory of its
/// stack.
pub proof fn lemma_walk_extend(
    c: Seq<SelectorView>,
    d: bool,
    tree: Tree,
    i: int,
    stack: Seq<PathView>,
    fuel: nat,
    m: int,
)
    requires
        fresh_from(c, i + 1),
        0 <= m < walk_results(c, d, tree, i, stack, fuel).len(),
    ensures
        exists|t: int|
            0 <= t < stack.len() && extends(stack[t], walk_results(c, d, tree, i, stack, fuel)[m]),
    decreases 2 * (c.len() - i), fuel + 1, stack.len() + 1,
{
    if 0 <= i && i + 1 < c.len() && stack.len() > 0 {
        let first = visit_results(c, d, tree, i, stack.last(), fuel);
        lemma_reset_fresh(c, i);
        let rest = walk_results(c, d, tree, i, stack.drop_last(), fuel);
        let all = walk_results(c, d, tree, i, stack, fuel);
        assert(all == first + rest);
        if m < first.len() {
            lemma_visit_extend(c, d, tree, i, stack.last(), fuel, m);
            assert(extends(stack[stack.len() - 1], all[m]));
        } else {
            lemma_walk_extend(c, d, tree, i, stack.drop_last(), fuel, m - first.len());
            let t = choose|t: int|
                0 <= t < stack.drop_last().len() && extends(
                    stack.drop_last()[t],
                    rest[m - first.len()],
                );
            assert(stack[t] == stack.drop_last()[t]);
            assert(extends(stack[t], all[m]));
        }
    }
}

/// Without a recursive selector from place `i` on, every match found from
/// there lies as deep below the path handed to the selector as the
/// selectors add components.
pub proof fn lemma_results_length(
    c: Seq<SelectorView>,
    d: bool,
    tree: Tree,
    i: int,
    path: PathView,
    m: int,
)
    requires
        is_chain(c),
        fresh_from(c, i),
        walks_from(c, i) == 0,
        0 <= m < results(c, d, tree, i, path).len(),
    ensures
        results(c, d, tree, i, path)[m].components.len() == path.components.len() + reach(c, i),
    decreases 2 * (c.len() - i) + 1, 0nat, 0nat,
{
    if 0 <= i < c.len() {
        assert(is_fresh(c[i]));
        lemma_fresh_deeper(c, i, i + 1);
        match c[i] {
            SelectorView::Precise { pattern } => {
                lemma_results_length(c, d, tree, i + 1, joined(path, pattern), m);
            },
            SelectorView::Wildcard { .. } => {
                let es = children_in_order(path, tree.names(path));
                lemma_scan_length(c, d, tree, i, es, path.components.len() as int, m);
            },
            SelectorView::Terminating { .. } => {
                assert(reach(c, i + 1) == 0);
            },
            _ => {},
        }
    }
}

/// Without a recursive selector after a wildcard, every match that it
/// finds through entries of one depth lies as deep below them as the
/// selectors after it add components.
pub proof fn lemma_scan_length(
    c: Seq<SelectorView>,
    d: bool,
    tree: Tree,
    i: int,
    es: Seq<PathView>,
    base: int,
    m: int,
)
    requires
        is_chain(c),
        fresh_from(c, i + 1),
        walks_from(c, i + 1) == 0,
        forall|t: int| 0 <= t < es.len() ==> (#[trigger] es[t]).components.len() == base + 1,
        0 <= m < scan_results(c, d, tree, i, es).len(),
    ensures
        scan_results(c, d, tree, i, es)[m].components.len() == base + 1 + reach(c, i + 1),
    decreases 2 * (c.len() - i), 0nat, es.len(),
{
    if 0 <= i && i + 1 < c.len() && es.len() > 0 {
        let e = es.last();
        let first = entry_results(c, d, tree, i, e);
        lemma_reset_fresh(c, i);
        let rest = scan_results(c, d, tree, i, es.drop_last());
        assert(scan_results(c, d, tree, i, es) == first + rest);
        assert(es[es.len() - 1].components.len() == base + 1);
        if m < first.len() {
            if c[i + 1] is Terminating {
                assert(reach(c, i + 2) == 0);
                assert(reach(c, i + 1) == 0);
            } else {
                lemma_results_length(c, d, tree, i + 1, e, m);
            }
        } else {
            assert forall|t: int| 0 <= t < es.drop_last().len() implies (
            #[trigger] es.drop_last()[t]).components.len() == base + 1 by {
                assert(es.drop_last()[t] == es[t]);
            }
            lemma_scan_length(c, d, tree, i, es.drop_last(), base, m - first.len());
        }
    }
}

/// Every match that a recursive selector finds for a directory lies as
/// deep below it as the selectors after it add components.
proof fn lemma_hand_length(c: Seq<SelectorView>, d: bool, tree: Tree, i: int, at: PathView, m: int)
    requires
        is_chain(c),
        fresh_from(c, i + 1),
        walks_from(c, i + 1) == 0,
        0 <= m < hand_results(c, d, tree, i, at).len(),
    ensures
        hand_results(c, d, tree, i, at)[m].components.len() == at.components.len() + reach(
            c,
            i + 1,
        ),
{
    if 0 <= i && i + 1 < c.len() {
        if c[i + 1] is Terminating {
            assert(reach(c, i + 2) == 0);
            assert(reach(c, i + 1) == 0);
        } else {
            lemma_results_length(c, d, tree, i + 1, at, m);
        }
    }
}

/// Every match that a walk finds below the entries of a directory lies
/// deeper than the matches for the directory itself.
proof fn lemma_walk_longer(
    c: Seq<SelectorView>,
    d: bool,
    tree: Tree,
    i: int,
    stack: Seq<PathView>,
    fuel: nat,
    low: int,
    m: int,
)
    requires
        is_chain(c),
        fresh_from(c, i + 1),
        walks_from(c, i + 1) == 0,
        forall|t: int| 0 <= t < stack.len() ==> (#[trigger] stack[t]).components.len() >= low,
        0 <= m < walk_results(c, d, tree, i, stack, fuel).len(),
    ensures
        walk_results(c, d, tree, i, stack, fuel)[m].components.len() >= low + reach(c, i + 1),
    decreases fuel, stack.len(),
{
    if 0 <= i && i + 1 < c.len() && stack.len() > 0 {
        let at = stack.last();
        let first = visit_results(c, d, tree, i, at, fuel);
        lemma_reset_fresh(c, i);
        let rest = walk_results(c, d, tree, i, stack.drop_last(), fuel);
        assert(walk_results(c, d, tree, i, stack, fuel) == first + rest);
        assert(stack[stack.len() - 1].components.len() >= low);
        if m < first.len() {
            let handed = hand_results(c, d, tree, i, at);
            if m < handed.len() {
                lemma_hand_length(c, d, tree, i, at, m);
            } else {
                let entries = children_reversed(at, tree.names(at));
                let below = kept(tree, entries);
                assert forall|t: int| 0 <= t < below.len() implies (
                #[trigger] below[t]).components.len() >= low + 1 by {
                    lemma_kept_in(tree, entries, t);
                    let j = choose|j: int|
                        0 <= j < entries.len() && below[t] == #[trigger] entries[j];
                    assert(entries[j].components.len() == at.components.len() + 1);
                }
                lemma_walk_longer(
                    c,
                    d,
                    tree,
                    i,
                    below,
                    (fuel - 1) as nat,
                    low + 1,
                    m - handed.len(),
                );
            }
        } else {
            assert forall|t: int| 0 <= t < stack.drop_last().len() implies (
            #[trigger] stack.drop_last()[t]).components.len() >= low by {
                assert(stack.drop_last()[t] == stack[t]);
            }
            lemma_walk_longer(c, d, tree, i, stack.drop_last(), fuel, low, m - first.len());
        }
    }
}

/// In a tree that lists no name twice, a chain with at most one recursive
/// selector from place `i` on finds no path twice from there.
pub proof fn lemma_results_distinct(
    c: Seq<SelectorView>,
    d: bool,
    tree: Tree,
    i: int,
    path: PathView,
)
    requires
        is_chain(c),
        fresh_from(c, i),
        walks_from(c, i) <= 1,
        tree.lists_once(),
    ensures
        results(c, d, tree, i, path).no_duplicates(),
    decreases 2 * (c.len() - i) + 1, 0nat, 0nat,
{
    if 0 <= i < c.len() {
        assert(is_fresh(c[i]));
        lemma_fresh_deeper(c, i, i + 1);
        match c[i] {
            SelectorView::Precise { pattern } => {
                lemma_results_distinct(c, d, tree, i + 1, joined(path, pattern));
            },
            SelectorView::Wildcard { .. } => {
                let names = tree.names(path);
                let es = children_in_order(path, names);
                assert(names.no_duplicates());
                lemma_children_siblings(path, names);
                lemma_scan_distinct(c, d, tree, i, es);
            },
            SelectorView::Recursive { .. } => {
                assert(siblings(seq![path]));
                lemma_walk_distinct(c, d, tree, i, seq![path], tree.depth);
            },
            _ => {},
        }
    }
}

/// In a tree that lists no name twice, a wildcard finds no path twice
/// through the entries of one directory.
pub proof fn lemma_scan_distinct(
    c: Seq<SelectorView>,
    d: bool,
    tree: Tree,
    i: int,
    es: Seq<PathView>,
)
    requires
        is_chain(c),
        fresh_from(c, i + 1),
        walks_from(c, i + 1) <= 1,
        tree.lists_once(),
        siblings(es),
    ensures
        scan_results(c, d, tree, i, es).no_duplicates(),
    decreases 2 * (c.len() - i), 0nat, es.len(),
{
    if 0 <= i && i + 1 < c.len() && es.len() > 0 {
        let e = es.last();
        let first = entry_results(c, d, tree, i, e);
        lemma_reset_fresh(c, i);
        let rest = scan_results(c, d, tree, i, es.drop_last());
        assert(scan_results(c, d, tree, i, es) == first + rest);
        if selects(c[i], name_of(e)) && !(c[i + 1] is Terminating) {
            lemma_results_distinct(c, d, tree, i + 1, e);
        }
        assert(siblings(es.drop_last())) by {
            assert forall|a: int, b: int|
                0 <= a < es.drop_last().len() && 0 <= b < es.drop_last().len() && a
                    != b implies (#[trigger] es.drop_last()[a]).root == (
            #[trigger] es.drop_last()[b]).root && es.drop_last()[a].components.len()
                == es.drop_last()[b].components.len() && es.drop_last()[a]
                != es.drop_last()[b] by {
                assert(es[a].root == es[b].root);
            }
        }
        lemma_scan_distinct(c, d, tree, i, es.drop_last());
        assert forall|a: int, b: int| 0 <= a < first.len() && 0 <= b < rest.len() implies first[a]
            != rest[b] by {
            lemma_entry_extend(c, d, tree, i, e, a);
            lemma_scan_extend(c, d, tree, i, es.drop_last(), b);
            let t = choose|t: int|
                0 <= t < es.drop_last().len() && extends(es.drop_last()[t], rest[b]);
            assert(es[t] == es.drop_last()[t]);
            assert(es[t].root == es[es.len() - 1].root);
            if first[a] == rest[b] {
                lemma_apart(es[t], e, rest[b]);
            }
        }
        lemma_no_dup_in_concat(first, rest);
    }
}

/// In a tree that lists no name twice, a walk finds no path twice at a
/// directory and below, where no recursive selector follows.
#[verifier::rlimit(40)]
pub proof fn lemma_visit_distinct(
    c: Seq<SelectorView>,
    d: bool,
    tree: Tree,
    i: int,
    at: PathView,
    fuel: nat,
)
    requires
        is_chain(c),
        fresh_from(c, i + 1),
        walks_from(c, i + 1) == 0,
        tree.lists_once(),
    ensures
        visit_results(c, d, tree, i, at, fuel).no_duplicates(),
    decreases 2 * (c.len() - i), fuel + 1, 0nat,
{
    if 0 <= i && i + 1 < c.len() {
        let first = hand_results(c, d, tree, i, at);
        let entries = children_reversed(at, tree.names(at));
        let below = kept(tree, entries);
        lemma_reset_fresh(c, i);
        if !(c[i + 1] is Terminating) {
            lemma_results_distinct(c, d, tree, i + 1, at);
        }
        if fuel > 0 {
            let rest = walk_results(c, d, tree, i, below, (fuel - 1) as nat);
            assert(tree.names(at).no_duplicates());
            lemma_children_siblings(at, tree.names(at));
            lemma_kept_siblings(tree, entries);
            lemma_walk_distinct(c, d, tree, i, below, (fuel - 1) as nat);
            assert forall|a: int, b: int|
                0 <= a < first.len() && 0 <= b < rest.len() implies first[a] != rest[b] by {
                lemma_hand_length(c, d, tree, i, at, a);
                assert forall|t: int| 0 <= t < below.len() implies (
                #[trigger] below[t]).components.len() >= at.components.len() + 1 by {
                    lemma_kept_in(tree, entries, t);
                    let j = choose|j: int|
                        0 <= j < entries.len() && below[t] == #[trigger] entries[j];
                    assert(entries[j].components.len() == at.components.len() + 1);
                }
                lemma_walk_longer(
                    c,
                    d,
                    tree,
                    i,
                    below,
                    (fuel - 1) as nat,
                    (at.components.len() + 1) as int,
                    b,
                );
            }
            lemma_no_dup_in_concat(first, rest);
        } else {
            assert(first + Seq::<PathView>::empty() == first);
        }
    }
}

/// In a tree that lists no name twice, a walk finds no path twice through
/// directories that are entries of one directory, where no recursive
/// selector follows.
pub proof fn lemma_walk_distinct(
    c: Seq<SelectorView>,
    d: bool,
    tree: Tree,
    i: int,
    stack: Seq<PathView>,
    fuel: nat,
)
    requires
        is_chain(c),
        fresh_from(c, i + 1),
        walks_from(c, i + 1) == 0,
        tree.lists_once(),
        siblings(stack),
    ensures
        walk_results(c, d, tree, i, stack, fuel).no_duplicates(),
    decreases 2 * (c.len() - i), fuel + 1, stack.len() + 1,
{
    if 0 <= i && i + 1 < c.len() && stack.len() > 0 {
        let at = stack.last();
        let first = visit_results(c, d, tree, i, at, fuel);
        lemma_reset_fresh(c, i);
        let rest = walk_results(c, d, tree, i, stack.drop_last(), fuel);
        assert(walk_results(c, d, tree, i, stack, fuel) == first + rest);
        lemma_visit_distinct(c, d, tree, i, at, fuel);
        assert(siblings(stack.drop_last())) by {
            assert forall|a: int, b: int|
                0 <= a < stack.drop_last().len() && 0 <= b < stack.drop_last().len() && a
                    != b implies (#[trigger] stack.drop_last()[a]).root == (
            #[trigger] stack.drop_last()[b]).root && stack.drop_last()[a].components.len()
                == stack.drop_last()[b].components.len() && stack.drop_last()[a]
                != stack.drop_last()[b] by {
                assert(stack[a].root == stack[b].root);
            }
        }
        lemma_walk_distinct(c, d, tree, i, stack.drop_last(), fuel);
        assert forall|a: int, b: int| 0 <= a < first.len() && 0 <= b < rest.len() implies first[a]
            != rest[b] by {
            lemma_visit_extend(c, d, tree, i, at, fuel, a);
            lemma_walk_extend(c, d, tree, i, stack.drop_last(), fuel, b);
            let t = choose|t: int|
                0 <= t < stack.drop_last().len() && extends(stack.drop_last()[t], rest[b]);
            assert(stack[t] == stack.drop_last()[t]);
            assert(stack[t].root == stack[stack.len() - 1].root);
            if first[a] == rest[b] {
                lemma_apart(stack[t], at, rest[b]);
            }
        }
        lemma_no_dup_in_concat(first, rest);
    }
}

} // verus!
