//! The outline tree as mathematics: which tree a sequence of headings forms.
//!
//! Headings arrive in document order, each with a level. Levels may jump: a
//! level-3 heading may directly follow a level-1 heading. The tree does not
//! invent the missing level. Each heading gets a depth, which grows by at
//! most one from one heading to the next, and the tree is built on depths.

use vstd::prelude::*;
use crate::heading::HeaderModel;

verus! {

/// What a `Node` holds, as mathematical values. Nodes are referred to by
/// their position in the arena.
pub struct NodeModel {
    /// The node one level up, if there is one.
    pub parent: Option<int>,
    /// The node before this one under the same parent, if there is one.
    pub previous_sibling: Option<int>,
    /// The node after this one under the same parent, if there is one.
    pub next_sibling: Option<int>,
    /// The nodes directly below this one, in document order.
    pub children: Seq<int>,
    /// The node's own position in the arena.
    pub index: int,
    /// The heading itself.
    pub data: HeaderModel,
}

/// A node that has just been created: it has a position and a heading, and
/// no relationships.
pub open spec fn unlinked(index: int, data: HeaderModel) -> NodeModel {
    NodeModel {
        parent: None,
        previous_sibling: None,
        next_sibling: None,
        children: Seq::empty(),
        index,
        data,
    }
}

/// The headings of a sequence of nodes.
pub open spec fn data_of(nodes: Seq<NodeModel>) -> Seq<HeaderModel> {
    Seq::new(nodes.len(), |i: int| nodes[i].data)
}

/// The levels of a sequence of headings.
pub open spec fn levels_of(heads: Seq<HeaderModel>) -> Seq<nat> {
    Seq::new(heads.len(), |i: int| heads[i].level)
}

/// The depth of heading `i` in the tree; roots have depth 1. The first
/// heading is a root whatever its level. A later heading lies one deeper
/// than the heading before it if its level is greater than that heading's
/// depth; otherwise its depth is its level.
pub open spec fn depth(levels: Seq<nat>, i: int) -> nat
    decreases i,
{
    if i <= 0 {
        1
    } else {
        let below = depth(levels, i - 1) + 1;
        if levels[i] >= below {
            below
        } else if levels[i] >= 1 {
            levels[i]
        } else {
            1
        }
    }
}

/// The last heading before `i` whose depth is at most `d`.
pub open spec fn nearest(levels: Seq<nat>, i: int, d: nat) -> Option<int>
    decreases i,
{
    if i <= 0 {
        None
    } else if depth(levels, i - 1) <= d {
        Some(i - 1)
    } else {
        nearest(levels, i - 1, d)
    }
}

/// The parent of heading `i`: the last heading before it that is less deep.
pub open spec fn parent_of(levels: Seq<nat>, i: int) -> Option<int> {
    nearest(levels, i, (depth(levels, i) - 1) as nat)
}

/// The previous sibling of heading `i`: the last heading before it that is
/// not deeper, if that heading is as deep as `i`.
pub open spec fn previous_of(levels: Seq<nat>, i: int) -> Option<int> {
    match nearest(levels, i, depth(levels, i)) {
        Some(j) => if depth(levels, j) == depth(levels, i) {
            Some(j)
        } else {
            None
        },
        None => None,
    }
}

/// The headings before `n` whose parent is `parent`, in document order;
/// with no parent given, the roots before `n`.
pub open spec fn children_upto(levels: Seq<nat>, parent: Option<int>, n: int) -> Seq<int>
    decreases n,
{
    if n <= 0 {
        Seq::empty()
    } else {
        let before = children_upto(levels, parent, n - 1);
        if parent_of(levels, n - 1) == parent {
            before.push(n - 1)
        } else {
            before
        }
    }
}

/// The first heading before `n` whose previous sibling is `i`.
pub open spec fn next_upto(levels: Seq<nat>, i: int, n: int) -> Option<int>
    decreases n,
{
    if n <= 0 {
        None
    } else {
        match next_upto(levels, i, n - 1) {
            Some(j) => Some(j),
            None => if previous_of(levels, n - 1) == Some(i) {
                Some(n - 1)
            } else {
                None
            },
        }
    }
}

/// The node of heading `i` in the tree of `heads`.
pub open spec fn node_of(heads: Seq<HeaderModel>, i: int) -> NodeModel {
    let levels = levels_of(heads);
    NodeModel {
        parent: parent_of(levels, i),
        previous_sibling: previous_of(levels, i),
        next_sibling: next_upto(levels, i, heads.len() as int),
        children: children_upto(levels, Some(i), heads.len() as int),
        index: i,
        data: heads[i],
    }
}

/// The tree that a sequence of headings forms: one node for each heading,
/// in document order.
pub open spec fn tree_of(heads: Seq<HeaderModel>) -> Seq<NodeModel> {
    Seq::new(heads.len(), |i: int| node_of(heads, i))
}

/// The depth at which the next heading is compared: the depth of the last
/// heading, or 1 if there is none yet.
pub open spec fn cursor_depth(levels: Seq<nat>) -> nat {
    if levels.len() == 0 {
        1
    } else {
        depth(levels, levels.len() - 1)
    }
}

/// Depths start at 1 and grow by at most one from a heading to the next.
pub proof fn lemma_depth_step(levels: Seq<nat>, i: int)
    ensures
        depth(levels, i) >= 1,
        i > 0 ==> depth(levels, i) <= depth(levels, i - 1) + 1,
{
}

/// The depth of a heading does not depend on the headings after it.
pub proof fn lemma_depth_push(levels: Seq<nat>, x: nat, i: int)
    requires
        i < levels.len(),
    ensures
        depth(levels.push(x), i) == depth(levels, i),
    decreases i,
{
    if i > 0 {
        lemma_depth_push(levels, x, i - 1);
    }
}

/// `nearest` does not depend on the headings from `i` on.
pub proof fn lemma_nearest_push(levels: Seq<nat>, x: nat, i: int, d: nat)
    requires
        i <= levels.len(),
    ensures
        nearest(levels.push(x), i, d) == nearest(levels, i, d),
    decreases i,
{
    if i > 0 {
        lemma_depth_push(levels, x, i - 1);
        lemma_nearest_push(levels, x, i - 1, d);
    }
}

/// Parent and previous sibling of a heading do not depend on the headings
/// after it.
pub proof fn lemma_links_push(levels: Seq<nat>, x: nat, i: int)
    requires
        i < levels.len(),
    ensures
        parent_of(levels.push(x), i) == parent_of(levels, i),
        previous_of(levels.push(x), i) == previous_of(levels, i),
{
    lemma_depth_push(levels, x, i);
    lemma_nearest_push(levels, x, i, (depth(levels, i) - 1) as nat);
    lemma_nearest_push(levels, x, i, depth(levels, i));
    match nearest(levels, i, depth(levels, i)) {
        Some(j) => {
            lemma_nearest_found(levels, i, depth(levels, i));
            lemma_depth_push(levels, x, j);
        },
        None => {},
    }
}

/// The children and the next sibling found among the first `n` headings do
/// not depend on the headings from `n` on.
pub proof fn lemma_upto_push(levels: Seq<nat>, x: nat, i: int, n: int)
    requires
        n <= levels.len(),
    ensures
        children_upto(levels.push(x), Some(i), n) == children_upto(levels, Some(i), n),
        next_upto(levels.push(x), i, n) == next_upto(levels, i, n),
    decreases n,
{
    if n > 0 {
        lemma_upto_push(levels, x, i, n - 1);
        lemma_links_push(levels, x, n - 1);
    }
}

/// What `nearest` finds lies before `i`, is at most `d` deep, and everything
/// between it and `i` is deeper than `d`. If it finds nothing, everything
/// before `i` is deeper than `d`.
pub proof fn lemma_nearest_found(levels: Seq<nat>, i: int, d: nat)
    ensures
        match nearest(levels, i, d) {
            Some(j) => {
                &&& 0 <= j < i
                &&& depth(levels, j) <= d
                &&& forall|k: int| j < k < i ==> #[trigger] depth(levels, k) > d
            },
            None => forall|k: int| 0 <= k < i ==> #[trigger] depth(levels, k) > d,
        },
    decreases i,
{
    if i > 0 && depth(levels, i - 1) > d {
        lemma_nearest_found(levels, i - 1, d);
    }
}

/// Below a heading of depth `d` or more, `nearest` finds a heading of depth
/// exactly `d`.
pub proof fn lemma_nearest_exact(levels: Seq<nat>, i: int, d: nat)
    requires
        i >= 1,
        1 <= d <= depth(levels, i - 1),
    ensures
        nearest(levels, i, d) is Some,
        depth(levels, nearest(levels, i, d)->0) == d,
    decreases i,
{
    if depth(levels, i - 1) > d {
        lemma_depth_step(levels, i - 1);
        lemma_nearest_exact(levels, i - 1, d);
    }
}

/// Looking for a depth below that of what `nearest` found, one may start at
/// what it found.
pub proof fn lemma_nearest_skip(levels: Seq<nat>, i: int, d: nat, below: nat)
    requires
        nearest(levels, i, d) is Some,
        below <= d,
        below < depth(levels, nearest(levels, i, d)->0),
    ensures
        nearest(levels, i, below) == nearest(levels, nearest(levels, i, d)->0, below),
    decreases i,
{
    if i > 0 && depth(levels, i - 1) > d {
        lemma_nearest_skip(levels, i - 1, d, below);
    }
}

/// A heading's parent lies before it, one level up; only headings of depth
/// 1 have none.
pub proof fn lemma_parent(levels: Seq<nat>, i: int)
    requires
        0 <= i,
    ensures
        match parent_of(levels, i) {
            Some(p) => 0 <= p < i && depth(levels, p) + 1 == depth(levels, i),
            None => depth(levels, i) == 1,
        },
{
    lemma_depth_step(levels, i);
    let d = (depth(levels, i) - 1) as nat;
    lemma_nearest_found(levels, i, d);
    if d >= 1 {
        lemma_nearest_exact(levels, i, d);
    } else {
        match nearest(levels, i, d) {
            Some(p) => {
                lemma_depth_step(levels, p);
            },
            None => {},
        }
    }
}

/// A heading's previous sibling lies before it, at the same depth, with only
/// deeper headings between the two.
pub proof fn lemma_previous(levels: Seq<nat>, i: int)
    ensures
        match previous_of(levels, i) {
            Some(j) => {
                &&& 0 <= j < i
                &&& depth(levels, j) == depth(levels, i)
                &&& forall|k: int| j < k < i ==> #[trigger] depth(levels, k) > depth(levels, i)
            },
            None => true,
        },
{
    lemma_nearest_found(levels, i, depth(levels, i));
}

/// The children found among the first `n` headings come after their parent.
pub proof fn lemma_children_from(levels: Seq<nat>, i: int, n: int)
    requires
        0 <= i,
        n <= i + 1,
    ensures
        children_upto(levels, Some(i), n) == Seq::<int>::empty(),
    decreases n,
{
    if n > 0 {
        lemma_children_from(levels, i, n - 1);
        lemma_parent(levels, n - 1);
    }
}

/// A next sibling found among the first `n` headings lies between `i` and
/// `n` and has `i` as its previous sibling.
pub proof fn lemma_next_found(levels: Seq<nat>, i: int, n: int)
    ensures
        match next_upto(levels, i, n) {
            Some(j) => i < j < n && previous_of(levels, j) == Some(i),
            None => forall|k: int| 0 <= k < n ==> #[trigger] previous_of(levels, k) != Some(i),
        },
    decreases n,
{
    if n > 0 {
        lemma_next_found(levels, i, n - 1);
        lemma_previous(levels, n - 1);
    }
}

/// A sequence of nodes after one more node has been linked in at its end,
/// below `parent` and behind `previous`.
pub open spec fn grown(
    nodes: Seq<NodeModel>,
    parent: Option<int>,
    previous: Option<int>,
    data: HeaderModel,
) -> Seq<NodeModel> {
    let n = nodes.len() as int;
    Seq::new(
        nodes.len() + 1,
        |i: int|
            if i == n {
                NodeModel { parent, previous_sibling: previous, ..unlinked(n, data) }
            } else {
                NodeModel {
                    children: if parent == Some(i) {
                        nodes[i].children.push(n)
                    } else {
                        nodes[i].children
                    },
                    next_sibling: if previous == Some(i) {
                        Some(n)
                    } else {
                        nodes[i].next_sibling
                    },
                    ..nodes[i]
                }
            },
    )
}

/// The headings of a tree are the headings that it was formed from.
pub proof fn lemma_data_of_tree(heads: Seq<HeaderModel>)
    ensures
        data_of(tree_of(heads)) == heads,
{
    assert(data_of(tree_of(heads)) =~= heads);
}

/// One more heading changes the tree in three places: the new node, its
/// parent's children and its previous sibling's next sibling.
pub proof fn lemma_tree_push(heads: Seq<HeaderModel>, head: HeaderModel)
    ensures
        tree_of(heads.push(head)) == grown(
            tree_of(heads),
            parent_of(levels_of(heads.push(head)), heads.len() as int),
            previous_of(levels_of(heads.push(head)), heads.len() as int),
            head,
        ),
{
    let n = heads.len() as int;
    let levels = levels_of(heads);
    let more = levels_of(heads.push(head));
    assert(more == levels.push(head.level));
    let parent = parent_of(more, n);
    let previous = previous_of(more, n);
    let a = tree_of(heads.push(head));
    let b = grown(tree_of(heads), parent, previous, head);
    assert forall|i: int| 0 <= i < n + 1 implies a[i] == b[i] by {
        if i == n {
            lemma_children_from(more, n, n + 1);
            lemma_next_found(more, n, n + 1);
        } else {
            lemma_links_push(levels, head.level, i);
            lemma_upto_push(levels, head.level, i, n);
            if previous == Some(i) {
                lemma_previous(more, n);
                lemma_next_found(levels, i, n);
                match next_upto(levels, i, n) {
                    Some(j) => {
                        lemma_previous(levels, j);
                        lemma_depth_push(levels, head.level, j);
                        lemma_depth_push(levels, head.level, i);
                        assert(depth(more, j) > depth(more, n));
                    },
                    None => {},
                }
            }
        }
    }
    assert(a =~= b);
}

/// A change to a heading's text or title leaves the shape of the tree as
/// it is.
pub proof fn lemma_tree_update(heads: Seq<HeaderModel>, i: int, head: HeaderModel)
    requires
        0 <= i < heads.len(),
        head.level == heads[i].level,
    ensures
        tree_of(heads.update(i, head)) == tree_of(heads).update(
            i,
            NodeModel { data: head, ..tree_of(heads)[i] },
        ),
{
    assert(levels_of(heads.update(i, head)) =~= levels_of(heads));
    assert(tree_of(heads.update(i, head)) =~= tree_of(heads).update(
        i,
        NodeModel { data: head, ..tree_of(heads)[i] },
    ));
}

} // verus!
