//! What holds of every traversal, whatever the pattern and the tree.

use vstd::prelude::*;
use crate::glob::{
    advance, children_in_order, deliver, enter, flag_of, fresh, lemma_chain_of_is_chain, level,
    listing_left, names_of, next_spec, rank, run, trimmed, walk_scan, wants_directories, PathsView,
    PcView, ReplyView, StepView, Wait,
};
use crate::path::{joined, PathView};
use crate::engine::{regex_accepts, regex_search};
use crate::pattern::{
    escape_spec, escaped_glob_char, first_close, glob_matches, is_valid_pattern, is_whole,
    lemma_first_close, parse_from, parse_spec, with_recursive, Fault,
};
use crate::selector::{
    chain_of, collapsed, has_wildcard, is_chain, is_wildcard_char, literal_of, pattern_components,
    pop_entry, push_entry, recursive_component, selector_of, toggled, with_entries, SelectorView,
};
use crate::text::{split, split_from};
use crate::token::{class_from, class_of, regex_text, CharSpecifier, TokenView, SEPARATOR};
use crate::tree::{found, Tree};

verus! {

broadcast use crate::text::lemma_seq_char_is_scalar_value;

/// Handing a path to a selector leaves the traversal sound.
pub proof fn lemma_enter_wf(s: PathsView, i: usize, path: PathView)
    requires
        is_chain(s.selector),
        s.selector.len() <= usize::MAX,
        i < s.selector.len(),
        i <= s.frames.len(),
    ensures
        enter(s, i, path).0.wf_at(enter(s, i, path).1),
{
}

/// Taking in a reply leaves the traversal sound.
pub proof fn lemma_deliver_wf(s: PathsView, reply: ReplyView)
    requires
        s.wf(),
    ensures
        deliver(s, reply).0.wf_at(deliver(s, reply).1),
{
    match s.wait {
        Wait::Idle => {
            lemma_enter_wf(s, 0, s.scope);
        },
        Wait::Exists(i) => {
            if flag_of(reply) {
                lemma_enter_wf(
                    s,
                    (i + 1) as usize,
                    crate::path::joined(
                        s.frames[i as int],
                        crate::selector::literal_of(s.selector[i as int]),
                    ),
                );
            }
        },
        _ => {},
    }
}

/// Every move leaves the traversal sound.
pub proof fn lemma_advance_wf(s: PathsView, pc: PcView)
    requires
        s.wf_at(pc),
    ensures
        advance(s, pc).0.wf_at(advance(s, pc).1),
{
    match pc {
        PcView::Scan(i) => {
            let (node, entry) = crate::selector::pop_entry(s.selector[i as int]);
            let s1 = s.set_node(i as int, node);
            if entry is Some {
                lemma_enter_wf(s1, (i + 1) as usize, entry->0);
            }
        },
        PcView::Walk(i) => {
            let node = s.selector[i as int];
            if crate::selector::peeked(node) is Some {
                lemma_enter_wf(s, (i + 1) as usize, crate::selector::peeked(node)->0);
            }
        },
        _ => {},
    }
}

/// A call leaves the traversal sound.
pub proof fn lemma_run_wf(s: PathsView, pc: PcView)
    requires
        s.wf_at(pc),
    ensures
        run(s, pc).0.wf(),
    decreases level(pc), rank(pc), listing_left(s, pc),
{
    if !(pc is Halt) {
        lemma_advance_wf(s, pc);
        let (s1, pc1) = advance(s, pc);
        lemma_run_wf(s1, pc1);
    }
}

/// Every call leaves a sound traversal sound.
pub proof fn lemma_next_wf(s: PathsView, reply: ReplyView)
    requires
        s.wf(),
    ensures
        next_spec(s, reply).0.wf(),
{
    lemma_deliver_wf(s, reply);
    let (s1, pc) = deliver(s, reply);
    lemma_run_wf(s1, pc);
}

/// Every directory that a walk holds is a directory of the tree.
pub open spec fn node_holds_directories(node: SelectorView, tree: Tree) -> bool {
    match node {
        SelectorView::Recursive { directories: Some(d) } => {
            &&& forall|k: int|
                0 <= k < d.stack.len() ==> tree.directories.contains(#[trigger] d.stack[k])
            &&& d.peeked matches Some(at) ==> tree.directories.contains(at)
        },
        _ => true,
    }
}

/// Every walk of the chain holds directories of the tree only.
pub open spec fn walks_hold_directories(s: PathsView, tree: Tree) -> bool {
    forall|i: int|
        0 <= i < s.selector.len() ==> node_holds_directories(#[trigger] s.selector[i], tree)
}

/// Where a walk waits for a listing, it is the listing of a directory.
pub open spec fn wait_holds_directory(s: PathsView, tree: Tree) -> bool {
    match s.wait {
        Wait::WalkListing(i) | Wait::WalkCheck(i) => tree.directories.contains(s.frames[i + 1]),
        _ => true,
    }
}

/// Between two calls, the walks of a traversal hold directories only.
pub open spec fn directories_kept(s: PathsView, tree: Tree) -> bool {
    walks_hold_directories(s, tree) && wait_holds_directory(s, tree)
}

/// In the middle of a call, the walks hold directories only, and in
/// directory-only mode so does every answer on its way up.
pub open spec fn directories_kept_at(s: PathsView, pc: PcView, tree: Tree) -> bool {
    &&& walks_hold_directories(s, tree)
    &&& match pc {
        PcView::Return(_, Some(path)) => s.is_dir ==> tree.directories.contains(path),
        PcView::Halt(step) => {
            &&& wait_holds_directory(s, tree)
            &&& s.is_dir ==> (step matches StepView::Yield(path) ==> tree.directories.contains(
                path,
            ))
        },
        _ => true,
    }
}

proof fn lemma_enter_directories(s: PathsView, i: usize, path: PathView, tree: Tree)
    requires
        is_chain(s.selector),
        i < s.selector.len(),
        walks_hold_directories(s, tree),
    ensures
        directories_kept_at(enter(s, i, path).0, enter(s, i, path).1, tree),
        enter(s, i, path).0.is_dir == s.is_dir,
{
    let s1 = enter(s, i, path).0;
    assert forall|k: int| 0 <= k < s1.selector.len() implies node_holds_directories(
        #[trigger] s1.selector[k],
        tree,
    ) by {
        assert(node_holds_directories(s.selector[k], tree));
    }
}

proof fn lemma_walk_scan_directories(s: PathsView, i: usize, tree: Tree)
    requires
        is_chain(s.selector),
        i + 1 < s.selector.len(),
        walks_hold_directories(s, tree),
        tree.directories.contains(s.frames[i + 1]),
    ensures
        directories_kept_at(walk_scan(s, i).0, walk_scan(s, i).1, tree),
        walk_scan(s, i).0.is_dir == s.is_dir,
{
    let s1 = walk_scan(s, i).0;
    assert forall|k: int| 0 <= k < s1.selector.len() implies node_holds_directories(
        #[trigger] s1.selector[k],
        tree,
    ) by {
        assert(node_holds_directories(s.selector[k], tree));
    }
}

proof fn lemma_deliver_directories(s: PathsView, reply: ReplyView, tree: Tree)
    requires
        s.wf(),
        directories_kept(s, tree),
        reply == tree.reply_to(s),
    ensures
        directories_kept_at(deliver(s, reply).0, deliver(s, reply).1, tree),
        deliver(s, reply).0.is_dir == s.is_dir,
{
    let (s1, pc) = deliver(s, reply);
    match s.wait {
        Wait::Idle => {
            lemma_enter_directories(s, 0, s.scope, tree);
        },
        Wait::Exists(i) => {
            if flag_of(reply) {
                lemma_enter_directories(
                    s,
                    (i + 1) as usize,
                    crate::path::joined(
                        s.frames[i as int],
                        crate::selector::literal_of(s.selector[i as int]),
                    ),
                    tree,
                );
            }
        },
        Wait::WalkListing(i) => {
            let s0 = s.set_scan(
                crate::glob::children_reversed(s.frames[i + 1], crate::glob::names_of(reply)),
            );
            assert forall|k: int| 0 <= k < s0.selector.len() implies node_holds_directories(
                #[trigger] s0.selector[k],
                tree,
            ) by {
                assert(node_holds_directories(s.selector[k], tree));
            }
            lemma_walk_scan_directories(s0, i, tree);
        },
        Wait::WalkCheck(i) => {
            let s0 = s.set_scan(s.scan.drop_last());
            let s2 = if flag_of(reply) {
                s0.set_node(
                    i as int,
                    crate::selector::push_directory(s0.selector[i as int], s.scan.last()),
                )
            } else {
                s0
            };
            assert forall|k: int| 0 <= k < s2.selector.len() implies node_holds_directories(
                #[trigger] s2.selector[k],
                tree,
            ) by {
                assert(node_holds_directories(s.selector[k], tree));
            }
            lemma_walk_scan_directories(s2, i, tree);
        },
        _ => {
            assert forall|k: int| 0 <= k < s1.selector.len() implies node_holds_directories(
                #[trigger] s1.selector[k],
                tree,
            ) by {
                assert(node_holds_directories(s.selector[k], tree));
            }
        },
    }
}

proof fn lemma_advance_directories(s: PathsView, pc: PcView, tree: Tree)
    requires
        s.wf_at(pc),
        directories_kept_at(s, pc, tree),
    ensures
        directories_kept_at(advance(s, pc).0, advance(s, pc).1, tree),
        advance(s, pc).0.is_dir == s.is_dir,
{
    let (s1, pc1) = advance(s, pc);
    match pc {
        PcView::Scan(i) => {
            let (node, entry) = crate::selector::pop_entry(s.selector[i as int]);
            let s0 = s.set_node(i as int, node);
            assert forall|k: int| 0 <= k < s0.selector.len() implies node_holds_directories(
                #[trigger] s0.selector[k],
                tree,
            ) by {
                assert(node_holds_directories(s.selector[k], tree));
            }
            if entry is Some {
                lemma_enter_directories(s0, (i + 1) as usize, entry->0, tree);
            }
        },
        PcView::Walk(i) => {
            let node = s.selector[i as int];
            assert(node_holds_directories(node, tree));
            if crate::selector::peeked(node) is Some {
                lemma_enter_directories(
                    s,
                    (i + 1) as usize,
                    crate::selector::peeked(node)->0,
                    tree,
                );
            }
            assert forall|k: int| 0 <= k < s1.selector.len() implies node_holds_directories(
                #[trigger] s1.selector[k],
                tree,
            ) by {
                assert(node_holds_directories(s.selector[k], tree));
            }
        },
        _ => {
            assert forall|k: int| 0 <= k < s1.selector.len() implies node_holds_directories(
                #[trigger] s1.selector[k],
                tree,
            ) by {
                assert(node_holds_directories(s.selector[k], tree));
            }
        },
    }
}

proof fn lemma_run_directories(s: PathsView, pc: PcView, tree: Tree)
    requires
        s.wf_at(pc),
        directories_kept_at(s, pc, tree),
    ensures
        directories_kept(run(s, pc).0, tree),
        run(s, pc).0.is_dir == s.is_dir,
        s.is_dir ==> (run(s, pc).1 matches StepView::Yield(path) ==> tree.directories.contains(
            path,
        )),
    decreases level(pc), rank(pc), listing_left(s, pc),
{
    if !(pc is Halt) {
        lemma_advance_wf(s, pc);
        lemma_advance_directories(s, pc, tree);
        let (s1, pc1) = advance(s, pc);
        lemma_run_directories(s1, pc1, tree);
    }
}

/// One call, answered from the tree, keeps the walks on directories; and
/// in directory-only mode, what it finds is a directory.
pub proof fn lemma_next_directories(s: PathsView, tree: Tree)
    requires
        s.wf(),
        directories_kept(s, tree),
    ensures
        directories_kept(next_spec(s, tree.reply_to(s)).0, tree),
        next_spec(s, tree.reply_to(s)).0.is_dir == s.is_dir,
        s.is_dir ==> (next_spec(s, tree.reply_to(s)).1 matches StepView::Yield(path)
            ==> tree.directories.contains(path)),
{
    let reply = tree.reply_to(s);
    lemma_deliver_wf(s, reply);
    lemma_deliver_directories(s, reply, tree);
    let (s1, pc) = deliver(s, reply);
    lemma_run_directories(s1, pc, tree);
}

/// In directory-only mode, every match that a traversal finds in a tree
/// is a directory of that tree.
pub proof fn law_directories_only(s: PathsView, tree: Tree, calls: nat)
    requires
        s.wf(),
        s.is_dir,
        directories_kept(s, tree),
    ensures
        forall|k: int|
            0 <= k < found(s, tree, calls).len() ==> tree.directories.contains(
                #[trigger] found(s, tree, calls)[k],
            ),
    decreases calls,
{
    if calls > 0 {
        let (s1, step) = next_spec(s, tree.reply_to(s));
        lemma_next_wf(s, tree.reply_to(s));
        lemma_next_directories(s, tree);
        law_directories_only(s1, tree, (calls - 1) as nat);
        let rest = found(s1, tree, (calls - 1) as nat);
        assert forall|k: int| 0 <= k < found(s, tree, calls).len() implies tree.directories.contains(
            #[trigger] found(s, tree, calls)[k],
        ) by {
            if step is Yield && k > 0 {
                assert(found(s, tree, calls)[k] == rest[k - 1]);
            }
        }
    }
}

/// A pattern that ends in a separator finds directories only: whatever the
/// scope, the components and the tree, every match of a traversal that
/// starts in directory-only mode is a directory of the tree.
pub proof fn law_trailing_separator(
    scope: PathView,
    components: Seq<Seq<char>>,
    tree: Tree,
    calls: nat,
)
    requires
        components.len() < usize::MAX,
    ensures
        forall|k: int|
            0 <= k < found(fresh(scope, chain_of(components), true), tree, calls).len()
                ==> tree.directories.contains(
                #[trigger] found(fresh(scope, chain_of(components), true), tree, calls)[k],
            ),
{
    let s = fresh(scope, chain_of(components), true);
    lemma_chain_of_is_chain(components);
    assert forall|i: int| 0 <= i < s.selector.len() implies node_holds_directories(
        #[trigger] s.selector[i],
        tree,
    ) by {
        if i < components.len() {
            assert(s.selector[i] == selector_of(components[i]));
        }
    }
    law_directories_only(s, tree, calls);
}

/// How many components a selector adds to the path it is handed: a
/// wildcard one, a precise selector one unless its literal is empty.
pub open spec fn step_of(node: SelectorView) -> int {
    match node {
        SelectorView::Wildcard { .. } => 1,
        SelectorView::Precise { pattern } => if pattern.len() > 0 {
            1
        } else {
            0
        },
        _ => 0,
    }
}

/// What each selector of a chain adds.
pub open spec fn shape_of(chain: Seq<SelectorView>) -> Seq<int> {
    Seq::new(chain.len(), |i: int| step_of(chain[i]))
}

/// What the first `i` selectors add together.
pub open spec fn steps(shape: Seq<int>, i: int) -> int
    decreases i,
{
    if i <= 0 {
        0
    } else {
        steps(shape, i - 1) + shape[i - 1]
    }
}

/// Whether a chain is free of recursive selectors.
pub open spec fn has_no_walk(chain: Seq<SelectorView>) -> bool {
    forall|i: int| 0 <= i < chain.len() ==> !(#[trigger] chain[i] is Recursive)
}

/// The entries that a wildcard holds lie one below the path it works on.
pub open spec fn entries_deep(node: SelectorView, depth: int) -> bool {
    match node {
        SelectorView::Wildcard { entries: Some(es), .. } => forall|k: int|
            0 <= k < es.len() ==> (#[trigger] es[k]).components.len() == depth + 1,
        _ => true,
    }
}

/// In a chain without recursive selectors, every path at hand is as deep
/// as its place in the chain says.
#[verifier::opaque]
pub open spec fn deep_inside(s: PathsView, base: int, shape: Seq<int>) -> bool {
    &&& s.scope.components.len() == base
    &&& shape_of(s.selector) == shape
    &&& has_no_walk(s.selector)
    &&& forall|i: int|
        0 <= i < s.selector.len() ==> entries_deep(
            #[trigger] s.selector[i],
            base + steps(shape, i),
        )
    &&& forall|k: int|
        0 <= k < s.frames.len() ==> (#[trigger] s.frames[k]).components.len() == base + steps(
            shape,
            k,
        )
}

/// A wildcard that is about to hand out an entry stands last but one.
pub open spec fn deep_wait(s: PathsView) -> bool {
    s.wait matches Wait::Entry(i) ==> i + 2 == s.selector.len()
}

/// The invariant between two calls.
pub open spec fn deep(s: PathsView, base: int, shape: Seq<int>) -> bool {
    deep_inside(s, base, shape) && deep_wait(s)
}

/// How deep a match of the whole chain lies.
pub open spec fn full_depth(s: PathsView, base: int, shape: Seq<int>) -> int {
    base + steps(shape, s.selector.len() - 1)
}

/// The invariant in the middle of a call: every answer on its way up is
/// as deep as the whole chain.
pub open spec fn deep_at(s: PathsView, pc: PcView, base: int, shape: Seq<int>) -> bool {
    &&& deep_inside(s, base, shape)
    &&& match pc {
        PcView::Return(_, Some(path)) => path.components.len() == full_depth(s, base, shape),
        PcView::Halt(step) => {
            &&& deep_wait(s)
            &&& step matches StepView::Yield(path) ==> path.components.len() == full_depth(
                s,
                base,
                shape,
            )
        },
        _ => true,
    }
}

proof fn lemma_deep_facts(s: PathsView, base: int, shape: Seq<int>, i: int)
    requires
        deep_inside(s, base, shape),
        0 <= i < s.selector.len(),
    ensures
        s.scope.components.len() == base,
        shape.len() == s.selector.len(),
        shape[i] == step_of(s.selector[i]),
        !(s.selector[i] is Recursive),
        entries_deep(s.selector[i], base + steps(shape, i)),
        steps(shape, i + 1) == steps(shape, i) + shape[i],
        steps(shape, 0) == 0,
        i < s.frames.len() ==> s.frames[i].components.len() == base + steps(shape, i),
{
    reveal(deep_inside);
    assert(shape_of(s.selector)[i] == step_of(s.selector[i]));
}

proof fn lemma_deep_set_node(s: PathsView, j: int, node: SelectorView, base: int, shape: Seq<int>)
    requires
        deep_inside(s, base, shape),
        0 <= j < s.selector.len(),
        step_of(node) == step_of(s.selector[j]),
        !(node is Recursive),
        entries_deep(node, base + steps(shape, j)),
    ensures
        deep_inside(s.set_node(j, node), base, shape),
{
    reveal(deep_inside);
    let s1 = s.set_node(j, node);
    assert(shape_of(s1.selector) == shape);
    assert forall|k: int| 0 <= k < s1.selector.len() implies entries_deep(
        #[trigger] s1.selector[k],
        base + steps(shape, k),
    ) by {
        assert(entries_deep(s.selector[k], base + steps(shape, k)));
    }
}

proof fn lemma_deep_set_frame(s: PathsView, i: int, path: PathView, base: int, shape: Seq<int>)
    requires
        deep_inside(s, base, shape),
        0 <= i <= s.frames.len(),
        path.components.len() == base + steps(shape, i),
    ensures
        deep_inside(s.set_frame(i, path), base, shape),
{
    reveal(deep_inside);
    let s1 = s.set_frame(i, path);
    assert forall|k: int| 0 <= k < s1.frames.len() implies (#[trigger] s1.frames[k]).components.len()
        == base + steps(shape, k) by {
        if k != i {
            assert(s1.frames[k] == s.frames[k]);
        }
    }
}

proof fn lemma_deep_set_wait(s: PathsView, wait: Wait, base: int, shape: Seq<int>)
    requires
        deep_inside(s, base, shape),
    ensures
        deep_inside(s.set_wait(wait), base, shape),
{
    reveal(deep_inside);
}

proof fn lemma_enter_deep(s: PathsView, i: usize, path: PathView, base: int, shape: Seq<int>)
    requires
        is_chain(s.selector),
        i < s.selector.len(),
        i <= s.frames.len(),
        deep_inside(s, base, shape),
        path.components.len() == base + steps(shape, i as int),
    ensures
        deep_at(enter(s, i, path).0, enter(s, i, path).1, base, shape),
{
    let s1 = s.set_frame(i as int, path);
    lemma_deep_set_frame(s, i as int, path, base, shape);
    lemma_deep_facts(s1, base, shape, i as int);
    let (node, was) = toggled(s1.selector[i as int]);
    lemma_deep_set_node(s1, i as int, node, base, shape);
    let s2 = s1.set_node(i as int, node);
    lemma_deep_set_wait(s2, Wait::Final(i), base, shape);
    lemma_deep_set_wait(s1, Wait::Enter(i), base, shape);
}

proof fn lemma_deliver_deep_enter(s: PathsView, reply: ReplyView, base: int, shape: Seq<int>, i: usize)
    requires
        s.wf(),
        deep(s, base, shape),
        s.wait == Wait::Enter(i),
    ensures
        deep_at(deliver(s, reply).0, deliver(s, reply).1, base, shape),
{
    lemma_deep_facts(s, base, shape, i as int);
    lemma_deep_set_wait(s, Wait::Exists(i), base, shape);
    lemma_deep_set_wait(s, Wait::Listing(i), base, shape);
}

proof fn lemma_deliver_deep_exists(s: PathsView, reply: ReplyView, base: int, shape: Seq<int>, i: usize)
    requires
        s.wf(),
        deep(s, base, shape),
        s.wait == Wait::Exists(i),
    ensures
        deep_at(deliver(s, reply).0, deliver(s, reply).1, base, shape),
{
    lemma_deep_facts(s, base, shape, i as int);
    if flag_of(reply) {
        lemma_enter_deep(
            s,
            (i + 1) as usize,
            joined(s.frames[i as int], literal_of(s.selector[i as int])),
            base,
            shape,
        );
    }
}

proof fn lemma_deliver_deep_listing(s: PathsView, reply: ReplyView, base: int, shape: Seq<int>, i: usize)
    requires
        s.wf(),
        deep(s, base, shape),
        s.wait == Wait::Listing(i),
    ensures
        deep_at(deliver(s, reply).0, deliver(s, reply).1, base, shape),
{
    lemma_deep_facts(s, base, shape, i as int);
    let node = with_entries(
        s.selector[i as int],
        children_in_order(s.frames[i as int], names_of(reply)),
    );
    lemma_deep_set_node(s, i as int, node, base, shape);
}

proof fn lemma_deliver_deep(s: PathsView, reply: ReplyView, base: int, shape: Seq<int>)
    requires
        s.wf(),
        deep(s, base, shape),
    ensures
        deep_at(deliver(s, reply).0, deliver(s, reply).1, base, shape),
{
    match s.wait {
        Wait::Idle => {
            lemma_deep_facts(s, base, shape, 0);
            lemma_enter_deep(s, 0, s.scope, base, shape);
        },
        Wait::Exhausted => {},
        Wait::Enter(i) => {
            lemma_deliver_deep_enter(s, reply, base, shape, i);
        },
        Wait::Exists(i) => {
            lemma_deliver_deep_exists(s, reply, base, shape, i);
        },
        Wait::Listing(i) => {
            lemma_deliver_deep_listing(s, reply, base, shape, i);
        },
        Wait::Entry(i) => {
            lemma_deep_facts(s, base, shape, i as int);
            lemma_deep_facts(s, base, shape, i + 1);
        },
        Wait::Final(i) => {
            lemma_deep_facts(s, base, shape, i as int);
        },
        Wait::WalkListing(i) | Wait::WalkCheck(i) => {
            lemma_deep_facts(s, base, shape, i as int);
        },
    }
}

proof fn lemma_advance_deep_return(
    s: PathsView,
    i: usize,
    r: Option<PathView>,
    base: int,
    shape: Seq<int>,
)
    requires
        s.wf_at(PcView::Return(i, r)),
        deep_at(s, PcView::Return(i, r), base, shape),
    ensures
        deep_at(
            advance(s, PcView::Return(i, r)).0,
            advance(s, PcView::Return(i, r)).1,
            base,
            shape,
        ),
{
    if i > 0 {
        let j = (i - 1) as usize;
        lemma_deep_facts(s, base, shape, j as int);
        lemma_deep_facts(s, base, shape, i as int);
        let node = s.selector[j as int];
        if node is Wildcard && r is Some {
            lemma_deep_set_node(s, j as int, push_entry(node, s.frames[i as int]), base, shape);
        }
    } else {
        lemma_deep_set_wait(s, Wait::Idle, base, shape);
        lemma_deep_set_wait(s, Wait::Exhausted, base, shape);
    }
}

proof fn lemma_advance_deep_scan(s: PathsView, i: usize, base: int, shape: Seq<int>)
    requires
        s.wf_at(PcView::Scan(i)),
        deep_at(s, PcView::Scan(i), base, shape),
    ensures
        deep_at(advance(s, PcView::Scan(i)).0, advance(s, PcView::Scan(i)).1, base, shape),
{
    lemma_deep_facts(s, base, shape, i as int);
    let (node, entry) = pop_entry(s.selector[i as int]);
    lemma_deep_set_node(s, i as int, node, base, shape);
    let s0 = s.set_node(i as int, node);
    if entry is Some {
        let e = entry->0;
        assert(e.components.len() == base + steps(shape, i + 1));
        lemma_enter_deep(s0, (i + 1) as usize, e, base, shape);
        lemma_deep_set_frame(s0, i + 1, e, base, shape);
        lemma_deep_set_wait(s0.set_frame(i + 1, e), Wait::Entry(i), base, shape);
    }
}

proof fn lemma_advance_deep(s: PathsView, pc: PcView, base: int, shape: Seq<int>)
    requires
        s.wf_at(pc),
        deep_at(s, pc, base, shape),
    ensures
        deep_at(advance(s, pc).0, advance(s, pc).1, base, shape),
{
    match pc {
        PcView::Return(i, r) => {
            lemma_advance_deep_return(s, i, r, base, shape);
        },
        PcView::Scan(i) => {
            lemma_advance_deep_scan(s, i, base, shape);
        },
        PcView::Walk(i) => {
            lemma_deep_facts(s, base, shape, i as int);
        },
        PcView::Halt(_) => {},
    }
}

proof fn lemma_run_deep(s: PathsView, pc: PcView, base: int, shape: Seq<int>)
    requires
        s.wf_at(pc),
        deep_at(s, pc, base, shape),
    ensures
        deep(run(s, pc).0, base, shape),
        run(s, pc).0.selector.len() == s.selector.len(),
        run(s, pc).1 matches StepView::Yield(path) ==> path.components.len() == full_depth(
            s,
            base,
            shape,
        ),
    decreases level(pc), rank(pc), listing_left(s, pc),
{
    if !(pc is Halt) {
        lemma_advance_wf(s, pc);
        lemma_advance_deep(s, pc, base, shape);
        let (s1, pc1) = advance(s, pc);
        assert(s1.selector.len() == s.selector.len()) by {
            reveal(deep_inside);
            assert(shape_of(s1.selector).len() == shape_of(s.selector).len());
        }
        lemma_run_deep(s1, pc1, base, shape);
    }
}

/// In a chain without recursive selectors, every match is as deep as the
/// chain says: as many components below the scope as the selectors add.
pub proof fn law_depth(s: PathsView, tree: Tree, calls: nat, base: int, shape: Seq<int>)
    requires
        s.wf(),
        deep(s, base, shape),
    ensures
        forall|k: int|
            0 <= k < found(s, tree, calls).len() ==> (#[trigger] found(
                s,
                tree,
                calls,
            )[k]).components.len() == base + steps(shape, s.selector.len() - 1),
    decreases calls,
{
    if calls > 0 {
        let reply = tree.reply_to(s);
        let (s1, step) = next_spec(s, reply);
        lemma_next_wf(s, reply);
        lemma_deliver_wf(s, reply);
        lemma_deliver_deep(s, reply, base, shape);
        let (s0, pc) = deliver(s, reply);
        assert(s0.selector.len() == s.selector.len()) by {
            reveal(deep_inside);
            assert(shape_of(s0.selector).len() == shape_of(s.selector).len());
        }
        lemma_run_deep(s0, pc, base, shape);
        law_depth(s1, tree, (calls - 1) as nat, base, shape);
        let rest = found(s1, tree, (calls - 1) as nat);
        assert forall|k: int| 0 <= k < found(s, tree, calls).len() implies (#[trigger] found(
            s,
            tree,
            calls,
        )[k]).components.len() == base + steps(shape, s.selector.len() - 1) by {
            if step is Yield && k > 0 {
                assert(found(s, tree, calls)[k] == rest[k - 1]);
            }
        }
    }
}

/// How many of the components are not empty.
pub open spec fn count_filled(components: Seq<Seq<char>>) -> int
    decreases components.len(),
{
    if components.len() == 0 {
        0
    } else {
        count_filled(components.drop_last()) + if components.last().len() > 0 {
            1int
        } else {
            0int
        }
    }
}

proof fn lemma_steps_of_chain(components: Seq<Seq<char>>, i: int)
    requires
        0 <= i <= components.len(),
        forall|k: int| 0 <= k < components.len() ==> components[k] != recursive_component(),
    ensures
        steps(shape_of(chain_of(components)), i) == count_filled(components.take(i)),
    decreases i,
{
    if i > 0 {
        lemma_steps_of_chain(components, i - 1);
        assert(components.take(i).drop_last() == components.take(i - 1));
        let c = components[i - 1];
        assert(chain_of(components)[i - 1] == selector_of(c));
        if has_wildcard(c) {
            let w = choose|w: int| 0 <= w < c.len() && is_wildcard_char(#[trigger] c[w]);
            assert(c.len() > 0);
        }
    }
}

proof fn lemma_fresh_is_deep(scope: PathView, components: Seq<Seq<char>>, is_dir: bool)
    requires
        forall|k: int| 0 <= k < components.len() ==> components[k] != recursive_component(),
    ensures
        deep(
            fresh(scope, chain_of(components), is_dir),
            scope.components.len() as int,
            shape_of(chain_of(components)),
        ),
{
    reveal(deep_inside);
    let s = fresh(scope, chain_of(components), is_dir);
    let shape = shape_of(s.selector);
    let base = scope.components.len() as int;
    assert forall|i: int| 0 <= i < s.selector.len() implies !(#[trigger] s.selector[i]
        is Recursive) && entries_deep(s.selector[i], base + steps(shape, i)) by {
        if i < components.len() {
            assert(s.selector[i] == selector_of(components[i]));
        }
    }
}

/// A pattern without `**` finds paths of one depth only: every match has as
/// many components below the scope as the pattern has non-empty components.
pub proof fn law_same_depth(
    scope: PathView,
    components: Seq<Seq<char>>,
    is_dir: bool,
    tree: Tree,
    calls: nat,
)
    requires
        components.len() < usize::MAX,
        forall|k: int| 0 <= k < components.len() ==> components[k] != recursive_component(),
    ensures
        forall|k: int|
            0 <= k < found(fresh(scope, chain_of(components), is_dir), tree, calls).len() ==> (
            #[trigger] found(
                fresh(scope, chain_of(components), is_dir),
                tree,
                calls,
            )[k]).components.len() == scope.components.len() + count_filled(components),
{
    let s = fresh(scope, chain_of(components), is_dir);
    let shape = shape_of(s.selector);
    let base = scope.components.len() as int;
    lemma_chain_of_is_chain(components);
    lemma_fresh_is_deep(scope, components, is_dir);
    lemma_steps_of_chain(components, components.len() as int);
    assert(components.take(components.len() as int) == components);
    law_depth(s, tree, calls, base, shape);
}

/// Whether a run of components has two recursive wildcards in a row.
pub open spec fn has_adjacent_recursive(components: Seq<Seq<char>>) -> bool {
    exists|i: int|
        0 <= i && i + 1 < components.len() && #[trigger] components[i] == recursive_component()
            && components[i + 1] == recursive_component()
}

proof fn lemma_collapsed(pieces: Seq<Seq<char>>)
    ensures
        !has_adjacent_recursive(collapsed(pieces)),
        pieces.len() > 0 ==> collapsed(pieces).len() > 0 && collapsed(pieces).last()
            == pieces.last(),
    decreases pieces.len(),
{
    if pieces.len() > 0 {
        lemma_collapsed(pieces.drop_last());
        let before = collapsed(pieces.drop_last());
        let all = collapsed(pieces);
        if !(pieces.len() > 1 && pieces.last() == recursive_component() && pieces[pieces.len() - 2]
            == recursive_component()) {
            assert(all == before.push(pieces.last()));
            assert forall|i: int| 0 <= i && i + 1 < all.len() implies !(#[trigger] all[i]
                == recursive_component() && all[i + 1] == recursive_component()) by {
                if i + 1 < before.len() {
                    assert(before[i] == all[i]);
                    assert(before[i + 1] == all[i + 1]);
                } else {
                    assert(before.last() == pieces.drop_last().last());
                }
            }
        }
    }
}

/// A chain never has two recursive selectors in a row: whatever the
/// pattern, consecutive `**` components leave one selector.
pub proof fn law_walks_are_apart(pattern: Seq<char>, i: int)
    requires
        0 <= i,
        i + 1 < chain_of(pattern_components(pattern)).len(),
    ensures
        !(chain_of(pattern_components(pattern))[i] is Recursive && chain_of(
            pattern_components(pattern),
        )[i + 1] is Recursive),
{
    let components = pattern_components(pattern);
    let chain = chain_of(components);
    lemma_collapsed(split(pattern, SEPARATOR));
    if i + 1 < components.len() {
        assert(chain[i] == selector_of(components[i]));
        assert(chain[i + 1] == selector_of(components[i + 1]));
    }
}

/// The token that stands for one character taken literally: the character
/// itself, or a class of its own for a character that means something in
/// a pattern.
pub open spec fn literal_token(c: char) -> TokenView {
    if c == '?' || c == '*' || c == '[' || c == ']' {
        TokenView::AnyWithin(seq![CharSpecifier::SingleChar(c)])
    } else {
        TokenView::Char(c)
    }
}

/// The tokens that stand for a text taken literally.
pub open spec fn literal_tokens(text: Seq<char>) -> Seq<TokenView> {
    Seq::new(text.len(), |i: int| literal_token(text[i]))
}

proof fn lemma_escape_step(text: Seq<char>, k: int)
    requires
        0 <= k < text.len(),
    ensures
        escape_spec(text.take(k + 1)) == escape_spec(text.take(k)) + escaped_glob_char(text[k]),
{
    assert(text.take(k + 1).drop_last() == text.take(k));
}

proof fn lemma_escape_prefix(text: Seq<char>, k: int)
    requires
        0 <= k <= text.len(),
    ensures
        escape_spec(text.take(k)).len() <= escape_spec(text).len(),
        escape_spec(text).take(escape_spec(text.take(k)).len() as int) == escape_spec(
            text.take(k),
        ),
    decreases text.len() - k,
{
    if k == text.len() {
        assert(text.take(k) == text);
    } else {
        lemma_escape_prefix(text, k + 1);
        lemma_escape_step(text, k);
        let longer = escape_spec(text.take(k + 1));
        let shorter = escape_spec(text.take(k));
        assert(longer.take(shorter.len() as int) == shorter);
        assert(escape_spec(text).take(longer.len() as int).take(shorter.len() as int)
            == escape_spec(text).take(shorter.len() as int));
    }
}

proof fn lemma_escape_parses_from(text: Seq<char>, k: int)
    requires
        0 <= k <= text.len(),
    ensures
        parse_from(
            escape_spec(text),
            escape_spec(text.take(k)).len() as int,
            literal_tokens(text.take(k)),
        ) == Ok::<Seq<TokenView>, (int, Fault)>(literal_tokens(text)),
    decreases text.len() - k,
{
    let full = escape_spec(text);
    let at = escape_spec(text.take(k)).len() as int;
    if k == text.len() {
        assert(text.take(k) == text);
    } else {
        lemma_escape_parses_from(text, k + 1);
        lemma_escape_step(text, k);
        lemma_escape_prefix(text, k + 1);
        let c = text[k];
        let longer = escape_spec(text.take(k + 1));
        assert(literal_tokens(text.take(k + 1)) == literal_tokens(text.take(k)).push(
            literal_token(c),
        ));
        assert(forall|j: int| 0 <= j < longer.len() ==> full[j] == longer[j]) by {
            assert(full.take(longer.len() as int) == longer);
            assert forall|j: int| 0 <= j < longer.len() implies full[j] == longer[j] by {
                assert(full.take(longer.len() as int)[j] == full[j]);
            }
        }
        if c == '?' || c == '*' || c == '[' || c == ']' {
            assert(full[at] == longer[at]);
            assert(full[at + 1] == longer[at + 1]);
            assert(full[at + 2] == longer[at + 2]);
            assert(full[at] == '[');
            assert(full[at + 1] == c);
            assert(full[at + 2] == ']');
            assert(first_close(full, at + 2) == Some(at + 2));
            let body = full.subrange(at + 1, at + 2);
            assert(body == seq![c]);
            assert(class_of(body) == seq![CharSpecifier::SingleChar(c)]) by {
                reveal_with_fuel(class_from, 3);
                assert(Seq::<CharSpecifier>::empty().push(CharSpecifier::SingleChar(c)) == seq![
                    CharSpecifier::SingleChar(c),
                ]);
            }
        } else {
            assert(full[at] == longer[at]);
            assert(full[at] == c);
        }
    }
}

/// An escaped text, read as a pattern, is well formed and has one token
/// for each character of the text, which stands for that character alone.
pub proof fn law_escape_parses(text: Seq<char>)
    ensures
        parse_spec(escape_spec(text)) == Ok::<Seq<TokenView>, (int, Fault)>(literal_tokens(text)),
{
    lemma_escape_parses_from(text, 0);
    assert(text.take(0) == Seq::<char>::empty());
    assert(literal_tokens(text.take(0)) == Seq::<TokenView>::empty());
}

proof fn lemma_split_ends_empty(
    chars: Seq<char>,
    sep: char,
    from: int,
    cur: Seq<char>,
    acc: Seq<Seq<char>>,
)
    requires
        0 <= from <= chars.len(),
        from == chars.len() ==> cur.len() == 0,
        from < chars.len() ==> chars.last() == sep,
    ensures
        split_from(chars, sep, from, cur, acc).len() > 0,
        split_from(chars, sep, from, cur, acc).last().len() == 0,
    decreases chars.len() - from,
{
    if from < chars.len() {
        if chars[from] == sep {
            lemma_split_ends_empty(chars, sep, from + 1, Seq::empty(), acc.push(cur));
        } else {
            lemma_split_ends_empty(chars, sep, from + 1, cur.push(chars[from]), acc);
        }
    }
}

/// A trailing separator leaves an empty component at the end: the
/// components of a pattern that asks for directories only, taken after a
/// root of any length, end in the empty component.
pub proof fn law_trailing_separator_ends_the_chain(pattern: Seq<char>, length: int)
    requires
        0 <= length,
        wants_directories(pattern),
    ensures
        pattern_components(trimmed(pattern, length)).len() > 0,
        pattern_components(trimmed(pattern, length)).last().len() == 0,
{
    let rest = trimmed(pattern, length);
    if rest.len() > 0 {
        assert(rest.last() == pattern.last());
    }
    lemma_split_ends_empty(rest, SEPARATOR, 0, Seq::empty(), Seq::empty());
    lemma_collapsed(split(rest, SEPARATOR));
}

/// What is left to the engine when an escaped text is matched against the
/// text it came from: the escaped text is a valid pattern exactly when the
/// engine accepts the expression of its literal tokens, and it matches the
/// text exactly when the leftmost match of that expression is the whole of
/// the text.
pub proof fn law_escape_leaves_the_match_to_the_engine(text: Seq<char>)
    ensures
        is_valid_pattern(escape_spec(text)) <==> regex_accepts(regex_text(literal_tokens(text))),
        glob_matches(escape_spec(text), text) <==> is_whole(
            regex_search(regex_text(literal_tokens(text)), text),
            text,
        ),
{
    law_escape_parses(text);
}

/// Whether no two recursive wildcards stand next to each other.
pub open spec fn is_collapsed(tokens: Seq<TokenView>) -> bool {
    forall|k: int|
        0 <= k && k + 1 < tokens.len() ==> !(#[trigger] tokens[k] is AnyRecursiveSequence
            && tokens[k + 1] is AnyRecursiveSequence)
}

proof fn lemma_push_collapsed(tokens: Seq<TokenView>, token: TokenView)
    requires
        is_collapsed(tokens),
        !(token is AnyRecursiveSequence) || tokens.len() == 0 || !(tokens.last()
            is AnyRecursiveSequence),
    ensures
        is_collapsed(tokens.push(token)),
{
    let all = tokens.push(token);
    assert forall|k: int| 0 <= k && k + 1 < all.len() implies !(#[trigger] all[k]
        is AnyRecursiveSequence && all[k + 1] is AnyRecursiveSequence) by {
        if k + 1 < tokens.len() {
            assert(tokens[k] == all[k]);
            assert(tokens[k + 1] == all[k + 1]);
        }
    }
}

proof fn lemma_parse_collapsed(chars: Seq<char>, i: int, acc: Seq<TokenView>)
    requires
        is_collapsed(acc),
    ensures
        parse_from(chars, i, acc) matches Ok(tokens) ==> is_collapsed(tokens),
    decreases chars.len() - i,
{
    if 0 <= i < chars.len() {
        let c = chars[i];
        if c == '?' {
            lemma_push_collapsed(acc, TokenView::AnyChar);
            lemma_parse_collapsed(chars, i + 1, acc.push(TokenView::AnyChar));
        } else if c == '*' {
            if i + 2 < chars.len() && chars[i + 1] == '*' && chars[i + 2] == '*' {
            } else if i + 1 < chars.len() && chars[i + 1] == '*' {
                if acc.len() == 0 || !(acc.last() is AnyRecursiveSequence) {
                    lemma_push_collapsed(acc, TokenView::AnyRecursiveSequence);
                }
                if i == 0 || chars[i - 1] == SEPARATOR {
                    if i + 2 == chars.len() {
                        lemma_parse_collapsed(chars, i + 2, with_recursive(acc));
                    } else if chars[i + 2] == SEPARATOR {
                        lemma_parse_collapsed(chars, i + 3, with_recursive(acc));
                    }
                }
            } else {
                lemma_push_collapsed(acc, TokenView::AnySequence);
                lemma_parse_collapsed(chars, i + 1, acc.push(TokenView::AnySequence));
            }
        } else if c == '[' {
            let negated = i + 1 < chars.len() && chars[i + 1] == '!';
            let body = if negated {
                i + 2
            } else {
                i + 1
            };
            match first_close(chars, body + 1) {
                None => {},
                Some(k) => {
                    lemma_first_close(chars, body + 1);
                    let class = class_of(chars.subrange(body, k));
                    let token = if negated {
                        TokenView::AnyExcept(class)
                    } else {
                        TokenView::AnyWithin(class)
                    };
                    lemma_push_collapsed(acc, token);
                    lemma_parse_collapsed(chars, k + 1, acc.push(token));
                },
            }
        } else {
            lemma_push_collapsed(acc, TokenView::Char(c));
            lemma_parse_collapsed(chars, i + 1, acc.push(TokenView::Char(c)));
        }
    }
}

/// Recursive wildcards collapse: the tokens of a pattern never hold two
/// of them in a row, however many the pattern has.
pub proof fn law_recursive_wildcards_collapse(pattern: Seq<char>)
    ensures
        parse_spec(pattern) matches Ok(tokens) ==> is_collapsed(tokens),
{
    lemma_parse_collapsed(pattern, 0, Seq::empty());
}

} // verus!
