//! What holds of every parsed document.

use vstd::prelude::*;
use crate::error::ParseError;
use crate::heading::{classified, header_of, is_heading, level_of, HeaderModel};
use crate::keywords::{active_done, active_todo};
use crate::parser::{document_heads, heads_of, parsed, OutlineModel};
use crate::text::lines_of;
use crate::tree::{
    children_upto, depth, lemma_children_from, lemma_depth_step, lemma_nearest_found,
    lemma_nearest_skip, lemma_next_found, lemma_parent, lemma_previous, levels_of, nearest, next_upto, parent_of,
    previous_of, tree_of, NodeModel,
};

verus! {

/// Every node's children are exactly the nodes whose parent it is, in
/// document order.
pub open spec fn children_match_parents(nodes: Seq<NodeModel>) -> bool {
    forall|i: int|
        0 <= i < nodes.len() ==> {
            let children = (#[trigger] nodes[i]).children;
            &&& forall|a: int, b: int|
                0 <= a < b < children.len() ==> children[a] < children[b]
            &&& forall|a: int|
                0 <= a < children.len() ==> 0 <= #[trigger] children[a] < nodes.len()
                    && nodes[children[a]].parent == Some(i)
            &&& forall|j: int|
                0 <= j < nodes.len() && (#[trigger] nodes[j]).parent == Some(i)
                    ==> children.contains(j)
        }
}

/// Whether no node strictly between `from` and `to` has the parent `parent`.
pub open spec fn none_between(
    nodes: Seq<NodeModel>,
    parent: Option<int>,
    from: int,
    to: int,
) -> bool {
    forall|k: int|
        from < k < to && 0 <= k < nodes.len() ==> (#[trigger] nodes[k]).parent != parent
}

/// The nodes with the same parent, and likewise the roots, form a doubly
/// linked chain in document order: a node's previous sibling is the last
/// node before it with the same parent, its next sibling the first node
/// after it with the same parent, and each of the two names the other.
pub open spec fn siblings_chained(nodes: Seq<NodeModel>) -> bool {
    forall|j: int|
        0 <= j < nodes.len() ==> {
            let node = #[trigger] nodes[j];
            &&& match node.previous_sibling {
                Some(i) => {
                    &&& 0 <= i < j
                    &&& nodes[i].parent == node.parent
                    &&& nodes[i].next_sibling == Some(j)
                    &&& none_between(nodes, node.parent, i, j)
                },
                None => none_between(nodes, node.parent, -1, j),
            }
            &&& match node.next_sibling {
                Some(k) => {
                    &&& j < k < nodes.len()
                    &&& nodes[k].parent == node.parent
                    &&& nodes[k].previous_sibling == Some(j)
                    &&& none_between(nodes, node.parent, j, k)
                },
                None => none_between(nodes, node.parent, j, nodes.len() as int),
            }
        }
}

/// The children found before `n` are those headings before `n` whose parent
/// is `parent`, in document order.
pub proof fn lemma_children_upto(levels: Seq<nat>, parent: Option<int>, n: int)
    ensures
        forall|a: int, b: int|
            0 <= a < b < children_upto(levels, parent, n).len() ==> children_upto(
                levels,
                parent,
                n,
            )[a] < children_upto(levels, parent, n)[b],
        forall|a: int|
            0 <= a < children_upto(levels, parent, n).len() ==> 0 <= #[trigger] children_upto(
                levels,
                parent,
                n,
            )[a] < n && parent_of(levels, children_upto(levels, parent, n)[a]) == parent,
        forall|j: int|
            0 <= j < n && parent_of(levels, j) == parent ==> children_upto(
                levels,
                parent,
                n,
            ).contains(j),
    decreases n,
{
    if n > 0 {
        lemma_children_upto(levels, parent, n - 1);
        let before = children_upto(levels, parent, n - 1);
        let now = children_upto(levels, parent, n);
        assert forall|j: int| 0 <= j < n && parent_of(levels, j) == parent implies now.contains(
            j,
        ) by {
            if j < n - 1 {
                assert(before.contains(j));
                let a = choose|a: int| 0 <= a < before.len() && before[a] == j;
                assert(now[a] == j);
            } else {
                assert(now[now.len() - 1] == j);
            }
        }
    }
}

/// Headings that are siblings have the same parent, and nothing between
/// them has it.
pub proof fn lemma_siblings_share_parent(levels: Seq<nat>, i: int, j: int)
    requires
        previous_of(levels, j) == Some(i),
    ensures
        0 <= i < j,
        parent_of(levels, i) == parent_of(levels, j),
        forall|k: int| i < k < j ==> parent_of(levels, k) != parent_of(levels, j),
{
    let d = depth(levels, j);
    lemma_previous(levels, j);
    lemma_depth_step(levels, j);
    lemma_nearest_skip(levels, j, d, (d - 1) as nat);
    assert forall|k: int| i < k < j implies parent_of(levels, k) != parent_of(levels, j) by {
        lemma_parent(levels, k);
        lemma_parent(levels, j);
        assert(depth(levels, k) > d);
    }
}

/// A heading without previous sibling is the first with its parent.
pub proof fn lemma_first_sibling(levels: Seq<nat>, j: int)
    requires
        previous_of(levels, j) is None,
    ensures
        forall|k: int| 0 <= k < j ==> parent_of(levels, k) != parent_of(levels, j),
{
    let d = depth(levels, j);
    lemma_depth_step(levels, j);
    lemma_nearest_found(levels, j, d);
    assert forall|k: int| 0 <= k < j implies parent_of(levels, k) != parent_of(levels, j) by {
        lemma_parent(levels, j);
        lemma_parent(levels, k);
        lemma_depth_step(levels, k);
        match nearest(levels, j, d) {
            Some(i) => {
                // `i` is less deep than `j`, and everything between is
                // deeper than `j`: `i` is the parent of `j`.
                lemma_nearest_found(levels, j, (d - 1) as nat);
                assert(depth(levels, i) < d);
                if k > i {
                    assert(depth(levels, k) > d);
                }
            },
            None => {
                lemma_depth_step(levels, 0);
                assert(depth(levels, 0) > d);
            },
        }
    }
}

/// The next sibling of a heading's previous sibling is the heading.
pub proof fn lemma_next_of_previous(levels: Seq<nat>, i: int, j: int, n: int)
    requires
        previous_of(levels, j) == Some(i),
        j < n,
    ensures
        next_upto(levels, i, n) == Some(j),
{
    lemma_previous(levels, j);
    lemma_next_found(levels, i, n);
    match next_upto(levels, i, n) {
        Some(m) => {
            lemma_previous(levels, m);
            if m < j {
                assert(depth(levels, m) > depth(levels, j));
            } else if m > j {
                assert(depth(levels, j) > depth(levels, m));
            }
        },
        None => {
            assert(previous_of(levels, j) != Some(i));
        },
    }
}

/// A heading without next sibling before `n` is the last before `n` with
/// its parent.
pub proof fn lemma_last_sibling(levels: Seq<nat>, j: int, n: int, k: int)
    requires
        0 <= j < k < n,
        next_upto(levels, j, n) is None,
    ensures
        parent_of(levels, k) != parent_of(levels, j),
    decreases k,
{
    lemma_next_found(levels, j, n);
    if parent_of(levels, k) == parent_of(levels, j) {
        match previous_of(levels, k) {
            Some(i) => {
                lemma_siblings_share_parent(levels, i, k);
                assert(previous_of(levels, k) != Some(j));
                if i > j {
                    lemma_last_sibling(levels, j, n, i);
                }
            },
            None => {
                lemma_first_sibling(levels, k);
            },
        }
    }
}

/// In the tree of any headings, children and parents match.
pub proof fn lemma_tree_children(heads: Seq<HeaderModel>)
    ensures
        children_match_parents(tree_of(heads)),
{
    let nodes = tree_of(heads);
    let levels = levels_of(heads);
    let n = heads.len() as int;
    assert forall|i: int| 0 <= i < nodes.len() implies {
        let children = (#[trigger] nodes[i]).children;
        &&& forall|a: int, b: int| 0 <= a < b < children.len() ==> children[a] < children[b]
        &&& forall|a: int|
            0 <= a < children.len() ==> 0 <= #[trigger] children[a] < nodes.len()
                && nodes[children[a]].parent == Some(i)
        &&& forall|j: int|
            0 <= j < nodes.len() && (#[trigger] nodes[j]).parent == Some(i) ==> children.contains(
                j,
            )
    } by {
        lemma_children_upto(levels, Some(i), n);
    }
}

/// In the tree of any headings, siblings are chained.
pub proof fn lemma_tree_siblings(heads: Seq<HeaderModel>)
    ensures
        siblings_chained(tree_of(heads)),
{
    let nodes = tree_of(heads);
    let levels = levels_of(heads);
    let n = heads.len() as int;
    assert forall|j: int| 0 <= j < nodes.len() implies {
        let node = #[trigger] nodes[j];
        &&& match node.previous_sibling {
            Some(i) => {
                &&& 0 <= i < j
                &&& nodes[i].parent == node.parent
                &&& nodes[i].next_sibling == Some(j)
                &&& none_between(nodes, node.parent, i, j)
            },
            None => none_between(nodes, node.parent, -1, j),
        }
        &&& match node.next_sibling {
            Some(k) => {
                &&& j < k < nodes.len()
                &&& nodes[k].parent == node.parent
                &&& nodes[k].previous_sibling == Some(j)
                &&& none_between(nodes, node.parent, j, k)
            },
            None => none_between(nodes, node.parent, j, nodes.len() as int),
        }
    } by {
        match previous_of(levels, j) {
            Some(i) => {
                lemma_siblings_share_parent(levels, i, j);
                lemma_next_of_previous(levels, i, j, n);
            },
            None => {
                lemma_first_sibling(levels, j);
            },
        }
        lemma_next_found(levels, j, n);
        match next_upto(levels, j, n) {
            Some(k) => {
                lemma_siblings_share_parent(levels, j, k);
            },
            None => {
                assert forall|k: int| j < k < n implies parent_of(levels, k) != parent_of(
                    levels,
                    j,
                ) by {
                    lemma_last_sibling(levels, j, n, k);
                }
            },
        }
    }
}

/// The positions from `from` up to, not including, `to`.
pub open spec fn span(from: int, to: int) -> Seq<int> {
    Seq::new((to - from) as nat, |k: int| from + k)
}

/// The pre-order walk of the subtree of node `i`: the node itself, then the
/// walks of its children, in their order.
pub open spec fn walk(nodes: Seq<NodeModel>, i: int) -> Seq<int>
    decreases 2 * (nodes.len() - i) + 1, 0nat,
{
    if 0 <= i < nodes.len() {
        seq![i] + walk_each(nodes, nodes[i].children, i)
    } else {
        Seq::empty()
    }
}

/// The pre-order walks of the nodes of `list`, one after the other. Only
/// nodes behind `above` are walked, which is every node of a list of
/// children of `above`.
pub open spec fn walk_each(nodes: Seq<NodeModel>, list: Seq<int>, above: int) -> Seq<int>
    decreases 2 * (nodes.len() - above), list.len(),
{
    if list.len() == 0 || above < -1 {
        Seq::empty()
    } else {
        walk_each(nodes, list.drop_last(), above) + if above < list.last() < nodes.len() {
            walk(nodes, list.last())
        } else {
            Seq::empty()
        }
    }
}

/// The roots among the first `n` nodes, in document order.
pub open spec fn roots_upto(nodes: Seq<NodeModel>, n: int) -> Seq<int>
    decreases n,
{
    if n <= 0 {
        Seq::empty()
    } else if nodes[n - 1].parent is None {
        roots_upto(nodes, n - 1).push(n - 1)
    } else {
        roots_upto(nodes, n - 1)
    }
}

/// The pre-order walk of a whole outline: the walks of its roots, one after
/// the other.
pub open spec fn preorder(nodes: Seq<NodeModel>) -> Seq<int> {
    walk_each(nodes, roots_upto(nodes, nodes.len() as int), -1)
}

/// The levels of the nodes at the given positions.
pub open spec fn levels_at(nodes: Seq<NodeModel>, positions: Seq<int>) -> Seq<nat> {
    Seq::new(positions.len(), |k: int| nodes[positions[k]].data.level)
}

/// The position of an optional node; -1 for none.
pub open spec fn position(node: Option<int>) -> int {
    match node {
        Some(i) => i,
        None => -1,
    }
}

/// The depth of an optional heading; 0 for none.
pub open spec fn depth_below(levels: Seq<nat>, node: Option<int>) -> nat {
    match node {
        Some(i) => depth(levels, i),
        None => 0,
    }
}

/// The first heading from `j` on whose depth is at most `d`; the number of
/// headings if there is none.
pub open spec fn reach(levels: Seq<nat>, d: nat, j: int) -> int
    decreases levels.len() - j,
{
    if j >= levels.len() {
        levels.len() as int
    } else if depth(levels, j) <= d {
        j
    } else {
        reach(levels, d, j + 1)
    }
}

/// Where the subtree of a heading ends: the first heading behind it that is
/// not deeper. With no heading given, the number of headings.
pub open spec fn extent(levels: Seq<nat>, node: Option<int>) -> int {
    reach(levels, depth_below(levels, node), position(node) + 1)
}

/// What `reach` finds lies at or behind `j`, and everything between `j` and
/// it is deeper than `d`.
pub proof fn lemma_reach_found(levels: Seq<nat>, d: nat, j: int)
    requires
        0 <= j <= levels.len(),
    ensures
        j <= reach(levels, d, j) <= levels.len(),
        forall|k: int| j <= k < reach(levels, d, j) ==> #[trigger] depth(levels, k) > d,
        reach(levels, d, j) < levels.len() ==> depth(levels, reach(levels, d, j)) <= d,
    decreases levels.len() - j,
{
    if j < levels.len() && depth(levels, j) > d {
        lemma_reach_found(levels, d, j + 1);
    }
}

/// A heading of depth at most `d`, or the end, with only deeper headings
/// between `j` and it, is what `reach` finds.
pub proof fn lemma_reach_is(levels: Seq<nat>, d: nat, j: int, m: int)
    requires
        0 <= j <= m <= levels.len(),
        forall|k: int| j <= k < m ==> #[trigger] depth(levels, k) > d,
        m < levels.len() ==> depth(levels, m) <= d,
    ensures
        reach(levels, d, j) == m,
    decreases m - j,
{
    if j < m {
        lemma_reach_is(levels, d, j + 1, m);
    }
}

/// A heading before `i` of depth at most `d`, with only deeper headings
/// between it and `i`, is what `nearest` finds; with only deeper headings
/// before `i`, `nearest` finds nothing.
pub proof fn lemma_nearest_is(levels: Seq<nat>, i: int, d: nat, found: Option<int>)
    requires
        match found {
            Some(j) => 0 <= j < i && depth(levels, j) <= d,
            None => true,
        },
        forall|k: int| position(found) < k < i && 0 <= k ==> #[trigger] depth(levels, k) > d,
    ensures
        nearest(levels, i, d) == found,
    decreases i,
{
    if i > 0 && position(found) < i - 1 {
        lemma_nearest_is(levels, i - 1, d, found);
    }
}

/// Where no heading from `from` up to `to` has the parent `parent`, the
/// children found before `to` are those found before `from`.
pub proof fn lemma_children_constant(levels: Seq<nat>, parent: Option<int>, from: int, to: int)
    requires
        from <= to,
        forall|k: int| from <= k < to ==> #[trigger] parent_of(levels, k) != parent,
    ensures
        children_upto(levels, parent, to) == children_upto(levels, parent, from),
    decreases to - from,
{
    if from < to {
        lemma_children_constant(levels, parent, from, to - 1);
        assert(parent_of(levels, to - 1) != parent);
    }
}

/// No heading at or behind the end of a subtree is a child of its root.
pub proof fn lemma_children_within(levels: Seq<nat>, parent: Option<int>, k: int)
    requires
        parent is Some ==> 0 <= parent->0 < levels.len(),
        extent(levels, parent) <= k < levels.len(),
    ensures
        parent_of(levels, k) != parent,
{
    let e = extent(levels, parent);
    let d = depth_below(levels, parent);
    lemma_reach_found(levels, d, position(parent) + 1);
    lemma_parent(levels, k);
    lemma_depth_step(levels, k);
    match parent {
        Some(i) => {
            if parent_of(levels, k) == parent {
                lemma_nearest_found(levels, k, d);
                if e < k {
                    assert(depth(levels, e) > d);
                }
            }
        },
        None => {},
    }
}

/// The roots among the nodes of a tree are the headings without parent.
pub proof fn lemma_roots(heads: Seq<HeaderModel>, n: int)
    requires
        n <= heads.len(),
    ensures
        roots_upto(tree_of(heads), n) == children_upto(levels_of(heads), None, n),
    decreases n,
{
    if n > 0 {
        lemma_roots(heads, n - 1);
    }
}

/// The walk of a subtree visits the headings from its root to its end, in
/// document order.
pub proof fn lemma_walk(heads: Seq<HeaderModel>, i: int)
    requires
        0 <= i < heads.len(),
    ensures
        walk(tree_of(heads), i) == span(i, extent(levels_of(heads), Some(i))),
    decreases heads.len() - i, heads.len() + 1,
{
    let nodes = tree_of(heads);
    let levels = levels_of(heads);
    let n = heads.len() as int;
    let e = extent(levels, Some(i));
    lemma_reach_found(levels, depth(levels, i), i + 1);
    assert forall|k: int| e <= k < n implies #[trigger] parent_of(levels, k) != Some(i) by {
        lemma_children_within(levels, Some(i), k);
    }
    lemma_children_constant(levels, Some(i), e, n);
    lemma_walk_children(heads, Some(i), e);
    assert(seq![i] + span(i + 1, e) =~= span(i, e));
}

/// Whether `m` is a place where the children of `parent` can be cut: it
/// lies behind `parent` and within its subtree or at its end, and is itself
/// a child of `parent` or that end.
pub open spec fn cut(levels: Seq<nat>, parent: Option<int>, m: int) -> bool {
    &&& parent is Some ==> 0 <= parent->0 < levels.len()
    &&& position(parent) < m <= extent(levels, parent)
    &&& m == extent(levels, parent) || depth(levels, m) == depth_below(levels, parent) + 1
}

/// The last child before `m`: the last heading before `m` that is at most
/// one deeper than `parent`.
pub open spec fn last_child(levels: Seq<nat>, parent: Option<int>, m: int) -> int {
    nearest(levels, m, depth_below(levels, parent) + 1)->0
}

/// Before a cut that is not directly behind the parent there is a last
/// child. It is itself a cut, its subtree ends at `m`, and no heading
/// between it and `m` is a child of `parent`.
pub proof fn lemma_last_child(levels: Seq<nat>, parent: Option<int>, m: int)
    requires
        cut(levels, parent, m),
        m > position(parent) + 1,
    ensures
        position(parent) < last_child(levels, parent, m) < m,
        cut(levels, parent, last_child(levels, parent, m)),
        parent_of(levels, last_child(levels, parent, m)) == parent,
        extent(levels, Some(last_child(levels, parent, m))) == m,
        forall|k: int|
            last_child(levels, parent, m) < k < m ==> #[trigger] parent_of(levels, k) != parent,
{
    let at = position(parent);
    let d = depth_below(levels, parent);
    let c = last_child(levels, parent, m);
    lemma_reach_found(levels, d, at + 1);
    lemma_depth_step(levels, at + 1);
    lemma_nearest_found(levels, m, d + 1);
    assert(nearest(levels, m, d + 1) is Some && c > at) by {
        assert(depth(levels, at + 1) <= d + 1);
    }
    assert(depth(levels, c) == d + 1) by {
        assert(depth(levels, c) > d);
    }
    assert(parent_of(levels, c) == parent) by {
        lemma_nearest_is(levels, c, d, parent);
    }
    assert forall|k: int| c < k < m implies #[trigger] parent_of(levels, k) != parent by {
        lemma_parent(levels, k);
        assert(depth(levels, k) > d + 1);
    }
    assert(extent(levels, Some(c)) == m) by {
        lemma_reach_is(levels, (d + 1) as nat, c + 1, m);
    }
}

/// The walks of the children found before a cut `m` visit the headings from
/// behind the parent up to `m`, in document order.
pub proof fn lemma_walk_children(heads: Seq<HeaderModel>, parent: Option<int>, m: int)
    requires
        cut(levels_of(heads), parent, m),
    ensures
        walk_each(
            tree_of(heads),
            children_upto(levels_of(heads), parent, m),
            position(parent),
        ) == span(position(parent) + 1, m),
    decreases heads.len() - position(parent), m,
{
    let nodes = tree_of(heads);
    let levels = levels_of(heads);
    let at = position(parent);
    let list = children_upto(levels, parent, m);
    if m == at + 1 {
        assert(list == Seq::<int>::empty()) by {
            match parent {
                Some(i) => {
                    lemma_children_from(levels, i, i + 1);
                },
                None => {},
            }
        }
        assert(span(at + 1, m) =~= Seq::<int>::empty());
    } else {
        let c = last_child(levels, parent, m);
        lemma_last_child(levels, parent, m);
        lemma_reach_found(levels, depth_below(levels, parent), at + 1);
        let before = children_upto(levels, parent, c);
        assert(list == before.push(c)) by {
            lemma_children_constant(levels, parent, c + 1, m);
        }
        assert(walk_each(nodes, before, at) == span(at + 1, c)) by {
            lemma_walk_children(heads, parent, c);
        }
        assert(walk(nodes, c) == span(c, m)) by {
            lemma_walk(heads, c);
        }
        assert(walk_each(nodes, list, at) == walk_each(nodes, before, at) + walk(nodes, c)) by {
            assert(list.drop_last() =~= before);
            assert(list.last() == c);
        }
        assert(span(at + 1, c) + span(c, m) =~= span(at + 1, m));
    }
}

/// The pre-order walk of the tree of any headings visits them in document
/// order.
pub proof fn lemma_tree_preorder(heads: Seq<HeaderModel>)
    ensures
        preorder(tree_of(heads)) == span(0, heads.len() as int),
        levels_at(tree_of(heads), preorder(tree_of(heads))) == levels_of(heads),
{
    let levels = levels_of(heads);
    let n = heads.len() as int;
    lemma_roots(heads, n);
    assert forall|k: int| 0 <= k < n implies #[trigger] depth(levels, k) > 0 by {
        lemma_depth_step(levels, k);
    }
    lemma_reach_is(levels, 0, 0, n);
    lemma_walk_children(heads, None, n);
    assert(levels_at(tree_of(heads), span(0, n)) =~= levels_of(heads));
}

/// What holds of the tree of every document: children and parents match,
/// siblings are chained, and the pre-order walk visits the nodes in document
/// order.
pub open spec fn well_linked(nodes: Seq<NodeModel>) -> bool {
    &&& children_match_parents(nodes)
    &&& siblings_chained(nodes)
    &&& preorder(nodes) == span(0, nodes.len() as int)
}

/// The tree of any headings is well linked.
pub proof fn lemma_tree_linked(heads: Seq<HeaderModel>)
    ensures
        well_linked(tree_of(heads)),
{
    lemma_tree_children(heads);
    lemma_tree_siblings(heads);
    lemma_tree_preorder(heads);
}

/// In every parsed document, each node's children are exactly the nodes
/// whose parent it is, in document order.
pub proof fn law_children_match_parents(data: Seq<char>, outline: OutlineModel)
    requires
        parsed(data) == Ok::<OutlineModel, ParseError>(outline),
    ensures
        children_match_parents(outline.headers),
{
    lemma_tree_children(document_heads(data));
}

/// In every parsed document, the nodes under each parent, and the roots,
/// form a doubly linked chain in document order.
pub proof fn law_siblings_chained(data: Seq<char>, outline: OutlineModel)
    requires
        parsed(data) == Ok::<OutlineModel, ParseError>(outline),
    ensures
        siblings_chained(outline.headers),
{
    lemma_tree_siblings(document_heads(data));
}

/// Classifying the same heading line with the same keyword lists twice
/// gives the same level, workflow keyword and title, or the same error:
/// what classification ensures admits one result only.
pub proof fn law_classification_repeats(
    line: Seq<char>,
    todo: Option<Seq<Seq<char>>>,
    done: Option<Seq<Seq<char>>>,
    first: Result<HeaderModel, ParseError>,
    second: Result<HeaderModel, ParseError>,
)
    requires
        classified(line, todo, done, first),
        classified(line, todo, done, second),
    ensures
        first == second,
{
}

/// The levels of the heading lines among `lines`, in document order.
pub open spec fn heading_levels(lines: Seq<Seq<char>>) -> Seq<nat> {
    lines.filter(|line: Seq<char>| is_heading(line)).map_values(|line: Seq<char>| level_of(line))
}

/// The headings of a document have the levels of its heading lines.
pub proof fn lemma_levels_of_heads(
    lines: Seq<Seq<char>>,
    todo: Option<Seq<Seq<char>>>,
    done: Option<Seq<Seq<char>>>,
)
    ensures
        levels_of(heads_of(lines, todo, done)) == heading_levels(lines),
    decreases lines.len(),
{
    reveal(Seq::filter);
    let heading = |line: Seq<char>| is_heading(line);
    if lines.len() > 0 {
        lemma_levels_of_heads(lines.drop_last(), todo, done);
        let before = heads_of(lines.drop_last(), todo, done);
        let kept = lines.drop_last().filter(heading);
        if is_heading(lines.last()) {
            assert(lines.filter(heading) == kept.push(lines.last()));
            assert(levels_of(before.push(header_of(lines.last(), todo, done))) =~= levels_of(
                before,
            ).push(level_of(lines.last())));
        } else {
            assert(lines.filter(heading) == kept);
            if before.len() > 0 {
                assert(levels_of(heads_of(lines, todo, done)) =~= levels_of(before));
            }
        }
    }
    assert(levels_of(heads_of(lines, todo, done)) =~= heading_levels(lines));
}

/// In every parsed document, the pre-order walk of the tree visits the
/// headings in document order, so the levels read off along the walk are the
/// levels of the heading lines as they stand in the document.
pub proof fn law_preorder_keeps_levels(data: Seq<char>, outline: OutlineModel)
    requires
        parsed(data) == Ok::<OutlineModel, ParseError>(outline),
    ensures
        preorder(outline.headers) == span(0, outline.headers.len() as int),
        levels_at(outline.headers, preorder(outline.headers)) == heading_levels(lines_of(data)),
{
    let lines = lines_of(data);
    lemma_tree_preorder(document_heads(data));
    lemma_levels_of_heads(lines, active_todo(lines), active_done(lines));
}

} // verus!
