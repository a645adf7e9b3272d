//! The matches of a pattern do not depend on the order in which a tree
//! lists its entries.

use vstd::prelude::*;
use crate::distinct::{lemma_kept_dirs, lemma_kept_in};
use crate::glob::{children_in_order, children_reversed};
use crate::path::{child, joined, name_of, PathView};
use crate::selector::{chain_of, selector_of, selects, SelectorView};
use crate::semantics::{
    entry_results, fresh_from, hand_results, is_fresh, kept, lemma_fresh_deeper,
    lemma_reset_fresh, matches_of, results, scan_results, visit_results, walk_results,
};
use crate::tree::Tree;

verus! {

/// What is in one of two runs of paths is in the two put together, and the
/// other way round.
proof fn lemma_contains_concat(a: Seq<PathView>, b: Seq<PathView>, x: PathView)
    ensures
        (a + b).contains(x) <==> a.contains(x) || b.contains(x),
{
    if a.contains(x) {
        let k = choose|k: int| 0 <= k < a.len() && a[k] == x;
        assert((a + b)[k] == x);
    }
    if b.contains(x) {
        let k = choose|k: int| 0 <= k < b.len() && b[k] == x;
        assert((a + b)[a.len() + k] == x);
    }
    if (a + b).contains(x) {
        let k = choose|k: int| 0 <= k < (a + b).len() && (a + b)[k] == x;
        if k < a.len() {
            assert(a[k] == x);
        } else {
            assert(b[k - a.len()] == x);
        }
    }
}

/// Every entry that is a directory is among those that a walk keeps.
proof fn lemma_kept_has(tree: Tree, entries: Seq<PathView>, j: int)
    requires
        0 <= j < entries.len(),
        tree.directories.contains(entries[j]),
    ensures
        exists|t: int| 0 <= t < kept(tree, entries).len() && #[trigger] kept(tree, entries)[t]
            == entries[j],
    decreases entries.len(),
{
    let rest = entries.drop_last();
    if j == entries.len() - 1 {
        assert(kept(tree, entries)[0] == entries[j]);
    } else {
        lemma_kept_has(tree, rest, j);
        let t = choose|t: int| 0 <= t < kept(tree, rest).len() && #[trigger] kept(tree, rest)[t]
            == rest[j];
        assert(rest[j] == entries[j]);
        if tree.directories.contains(entries.last()) {
            assert(kept(tree, entries)[t + 1] == entries[j]);
        } else {
            assert(kept(tree, entries)[t] == entries[j]);
        }
    }
}

/// What a wildcard finds through its entries is what it finds under one
/// of them.
pub proof fn lemma_scan_members(
    c: Seq<SelectorView>,
    d: bool,
    tree: Tree,
    i: int,
    es: Seq<PathView>,
    r: PathView,
)
    requires
        fresh_from(c, i + 1),
    ensures
        scan_results(c, d, tree, i, es).contains(r) <==> exists|t: int|
            0 <= t < es.len() && (#[trigger] entry_results(c, d, tree, i, es[t])).contains(r),
    decreases es.len(),
{
    if 0 <= i && i + 1 < c.len() && es.len() > 0 {
        let e = es.last();
        let first = entry_results(c, d, tree, i, e);
        lemma_reset_fresh(c, i);
        let rest = scan_results(c, d, tree, i, es.drop_last());
        assert(scan_results(c, d, tree, i, es) == first + rest);
        lemma_contains_concat(first, rest, r);
        lemma_scan_members(c, d, tree, i, es.drop_last(), r);
        if first.contains(r) {
            assert(entry_results(c, d, tree, i, es[es.len() - 1]).contains(r));
        }
        if rest.contains(r) {
            let t = choose|t: int|
                0 <= t < es.drop_last().len() && (#[trigger] entry_results(
                    c,
                    d,
                    tree,
                    i,
                    es.drop_last()[t],
                )).contains(r);
            assert(es.drop_last()[t] == es[t]);
            assert(entry_results(c, d, tree, i, es[t]).contains(r));
        }
        if exists|t: int|
            0 <= t < es.len() && (#[trigger] entry_results(c, d, tree, i, es[t])).contains(r) {
            let t = choose|t: int|
                0 <= t < es.len() && (#[trigger] entry_results(c, d, tree, i, es[t])).contains(r);
            if t < es.len() - 1 {
                assert(es.drop_last()[t] == es[t]);
                assert(entry_results(c, d, tree, i, es.drop_last()[t]).contains(r));
            }
        }
    } else {
        assert(scan_results(c, d, tree, i, es) == Seq::<PathView>::empty());
        if 0 <= i && i + 1 < c.len() {
        } else {
            assert forall|t: int| 0 <= t < es.len() implies !(#[trigger] entry_results(
                c,
                d,
                tree,
                i,
                es[t],
            )).contains(r) by {}
        }
    }
}

/// What a walk finds through its stack is what it finds at or below one
/// of the directories on it.
pub proof fn lemma_walk_members(
    c: Seq<SelectorView>,
    d: bool,
    tree: Tree,
    i: int,
    stack: Seq<PathView>,
    fuel: nat,
    r: PathView,
)
    requires
        fresh_from(c, i + 1),
    ensures
        walk_results(c, d, tree, i, stack, fuel).contains(r) <==> exists|t: int|
            0 <= t < stack.len() && (#[trigger] visit_results(
                c,
                d,
                tree,
                i,
                stack[t],
                fuel,
            )).contains(r),
    decreases stack.len(),
{
    if 0 <= i && i + 1 < c.len() && stack.len() > 0 {
        let at = stack.last();
        let first = visit_results(c, d, tree, i, at, fuel);
        lemma_reset_fresh(c, i);
        let rest = walk_results(c, d, tree, i, stack.drop_last(), fuel);
        assert(walk_results(c, d, tree, i, stack, fuel) == first + rest);
        lemma_contains_concat(first, rest, r);
        lemma_walk_members(c, d, tree, i, stack.drop_last(), fuel, r);
        if first.contains(r) {
            assert(visit_results(c, d, tree, i, stack[stack.len() - 1], fuel).contains(r));
        }
        if rest.contains(r) {
            let t = choose|t: int|
                0 <= t < stack.drop_last().len() && (#[trigger] visit_results(
                    c,
                    d,
                    tree,
                    i,
                    stack.drop_last()[t],
                    fuel,
                )).contains(r);
            assert(stack.drop_last()[t] == stack[t]);
            assert(visit_results(c, d, tree, i, stack[t], fuel).contains(r));
        }
        if exists|t: int|
            0 <= t < stack.len() && (#[trigger] visit_results(
                c,
                d,
                tree,
                i,
                stack[t],
                fuel,
            )).contains(r) {
            let t = choose|t: int|
                0 <= t < stack.len() && (#[trigger] visit_results(
                    c,
                    d,
                    tree,
                    i,
                    stack[t],
                    fuel,
                )).contains(r);
            if t < stack.len() - 1 {
                assert(stack.drop_last()[t] == stack[t]);
                assert(visit_results(c, d, tree, i, stack.drop_last()[t], fuel).contains(r));
            }
        }
    } else {
        assert(walk_results(c, d, tree, i, stack, fuel) == Seq::<PathView>::empty());
        if 0 <= i && i + 1 < c.len() {
        } else {
            assert forall|t: int| 0 <= t < stack.len() implies !(#[trigger] visit_results(
                c,
                d,
                tree,
                i,
                stack[t],
                fuel,
            )).contains(r) by {}
        }
    }
}

/// Two trees hold the same: the same directories and paths, and in every
/// directory the same names, in whatever order.
pub open spec fn alike(a: Tree, b: Tree) -> bool {
    &&& a.depth == b.depth
    &&& forall|p: PathView| a.directories.contains(p) <==> b.directories.contains(p)
    &&& forall|p: PathView| a.present.contains(p) <==> b.present.contains(p)
    &&& forall|p: PathView, name: Seq<char>| #[trigger]
        a.names(p).contains(name) <==> b.names(p).contains(name)
}

/// What the chain finds from place `i` on in a tree, it finds in every
/// tree that holds the same.
pub proof fn lemma_results_alike(
    c: Seq<SelectorView>,
    d: bool,
    a: Tree,
    b: Tree,
    i: int,
    path: PathView,
    r: PathView,
)
    requires
        alike(a, b),
        fresh_from(c, i),
        results(c, d, a, i, path).contains(r),
    ensures
        results(c, d, b, i, path).contains(r),
    decreases 2 * (c.len() - i) + 1, 0nat, 0nat,
{
    if 0 <= i < c.len() {
        assert(is_fresh(c[i]));
        lemma_fresh_deeper(c, i, i + 1);
        match c[i] {
            SelectorView::Terminating { .. } => {
                assert(results(c, d, a, i, path) == results(c, d, b, i, path));
            },
            SelectorView::Precise { pattern } => {
                lemma_results_alike(c, d, a, b, i + 1, joined(path, pattern), r);
            },
            SelectorView::Wildcard { .. } => {
                let ea = children_in_order(path, a.names(path));
                let eb = children_in_order(path, b.names(path));
                lemma_scan_members(c, d, a, i, ea, r);
                let t = choose|t: int|
                    0 <= t < ea.len() && (#[trigger] entry_results(c, d, a, i, ea[t])).contains(r);
                let name = a.names(path)[t];
                assert(a.names(path).contains(name));
                assert(b.names(path).contains(name));
                let k = choose|k: int| 0 <= k < b.names(path).len() && b.names(path)[k] == name;
                assert(eb[k] == ea[t]);
                lemma_entry_alike(c, d, a, b, i, ea[t], r);
                assert(entry_results(c, d, b, i, eb[k]).contains(r));
                lemma_scan_members(c, d, b, i, eb, r);
            },
            SelectorView::Recursive { .. } => {
                lemma_walk_members(c, d, a, i, seq![path], a.depth, r);
                let t = choose|t: int|
                    0 <= t < seq![path].len() && (#[trigger] visit_results(
                        c,
                        d,
                        a,
                        i,
                        seq![path][t],
                        a.depth,
                    )).contains(r);
                assert(seq![path][t] == path);
                lemma_visit_alike(c, d, a, b, i, path, a.depth, r);
                assert(visit_results(c, d, b, i, seq![path][0], b.depth).contains(r));
                lemma_walk_members(c, d, b, i, seq![path], b.depth, r);
            },
        }
    }
}

/// What a wildcard finds under an entry in a tree, it finds in every tree
/// that holds the same.
pub proof fn lemma_entry_alike(
    c: Seq<SelectorView>,
    d: bool,
    a: Tree,
    b: Tree,
    i: int,
    e: PathView,
    r: PathView,
)
    requires
        alike(a, b),
        fresh_from(c, i + 1),
        entry_results(c, d, a, i, e).contains(r),
    ensures
        entry_results(c, d, b, i, e).contains(r),
    decreases 2 * (c.len() - i), 0nat, 0nat,
{
    if 0 <= i && i + 1 < c.len() && selects(c[i], name_of(e)) {
        if c[i + 1] is Terminating {
            assert(entry_results(c, d, a, i, e) == entry_results(c, d, b, i, e));
        } else {
            lemma_results_alike(c, d, a, b, i + 1, e, r);
        }
    }
}

/// What a walk finds at a directory and below in a tree, it finds in every
/// tree that holds the same.
#[verifier::rlimit(40)]
pub proof fn lemma_visit_alike(
    c: Seq<SelectorView>,
    d: bool,
    a: Tree,
    b: Tree,
    i: int,
    at: PathView,
    fuel: nat,
    r: PathView,
)
    requires
        alike(a, b),
        fresh_from(c, i + 1),
        visit_results(c, d, a, i, at, fuel).contains(r),
    ensures
        visit_results(c, d, b, i, at, fuel).contains(r),
    decreases 2 * (c.len() - i), fuel + 1, 0nat,
{
    if 0 <= i && i + 1 < c.len() {
        let first_a = hand_results(c, d, a, i, at);
        let first_b = hand_results(c, d, b, i, at);
        lemma_reset_fresh(c, i);
        let ra = children_reversed(at, a.names(at));
        let rb = children_reversed(at, b.names(at));
        let rest_a = if fuel == 0 {
            Seq::<PathView>::empty()
        } else {
            walk_results(c, d, a, i, kept(a, ra), (fuel - 1) as nat)
        };
        let rest_b = if fuel == 0 {
            Seq::<PathView>::empty()
        } else {
            walk_results(c, d, b, i, kept(b, rb), (fuel - 1) as nat)
        };
        lemma_contains_concat(first_a, rest_a, r);
        lemma_contains_concat(first_b, rest_b, r);
        if first_a.contains(r) {
            if c[i + 1] is Terminating {
                assert(first_a == first_b);
            } else {
                lemma_results_alike(c, d, a, b, i + 1, at, r);
            }
        } else {
            let ka = kept(a, ra);
            let kb = kept(b, rb);
            lemma_walk_members(c, d, a, i, ka, (fuel - 1) as nat, r);
            let t = choose|t: int|
                0 <= t < ka.len() && (#[trigger] visit_results(
                    c,
                    d,
                    a,
                    i,
                    ka[t],
                    (fuel - 1) as nat,
                )).contains(r);
            lemma_kept_in(a, ra, t);
            lemma_kept_dirs(a, ra, t);
            let j = choose|j: int| 0 <= j < ra.len() && ka[t] == #[trigger] ra[j];
            let name = a.names(at)[a.names(at).len() - 1 - j];
            assert(ra[j] == child(at, name));
            assert(a.names(at).contains(name));
            assert(b.names(at).contains(name));
            let k = choose|k: int| 0 <= k < b.names(at).len() && b.names(at)[k] == name;
            let j2 = b.names(at).len() - 1 - k;
            assert(rb[j2] == child(at, name));
            assert(b.directories.contains(rb[j2]));
            lemma_kept_has(b, rb, j2);
            let t2 = choose|t2: int| 0 <= t2 < kb.len() && #[trigger] kb[t2] == rb[j2];
            lemma_visit_alike(c, d, a, b, i, ka[t], (fuel - 1) as nat, r);
            assert(visit_results(c, d, b, i, kb[t2], (fuel - 1) as nat).contains(r));
            lemma_walk_members(c, d, b, i, kb, (fuel - 1) as nat, r);
        }
    }
}

/// The matches of a pattern do not depend on the order in which a tree
/// lists its entries: two trees that hold the same give the same matches,
/// as sets.
pub proof fn law_matches_whatever_the_order(
    scope: PathView,
    components: Seq<Seq<char>>,
    is_dir: bool,
    a: Tree,
    b: Tree,
    r: PathView,
)
    requires
        alike(a, b),
    ensures
        matches_of(scope, components, is_dir, a).contains(r) <==> matches_of(
            scope,
            components,
            is_dir,
            b,
        ).contains(r),
{
    let c = chain_of(components);
    assert(fresh_from(c, 0)) by {
        assert forall|i: int| 0 <= i < c.len() implies is_fresh(#[trigger] c[i]) by {
            if i < components.len() {
                assert(c[i] == selector_of(components[i]));
            }
        }
    }
    if results(c, is_dir, a, 0, scope).contains(r) {
        lemma_results_alike(c, is_dir, a, b, 0, scope, r);
    }
    if results(c, is_dir, b, 0, scope).contains(r) {
        lemma_results_alike(c, is_dir, b, a, 0, scope, r);
    }
}

} // verus!
