//! The arena: the store that owns every node of an outline.
//!
//! Nodes are only ever appended. A node is known by its `NodeId`, its
//! position in the arena, and every relationship between nodes is held as
//! such a position.

use vstd::prelude::*;
use crate::heading::{with_text, Header};
use crate::tree::{
    cursor_depth, data_of, depth, grown, lemma_depth_push, lemma_depth_step,
    lemma_nearest_exact, lemma_nearest_found, lemma_nearest_push, lemma_nearest_skip,
    lemma_tree_push, levels_of, nearest, parent_of, previous_of, tree_of,
    unlinked, NodeModel,
};

verus! {

/// The handle of a node: its position in the arena that made it.
#[derive(Debug, Copy, Clone)]
pub struct NodeId {
    index: usize,
}

impl View for NodeId {
    type V = int;

    closed spec fn view(&self) -> int {
        self.index as int
    }
}

impl NodeId {
    /// The position that the handle stands for.
    pub fn index(&self) -> (i: usize)
        ensures
            i == self@,
    {
        self.index
    }
}

/// The position that an optional handle stands for.
pub open spec fn opt_id(id: Option<NodeId>) -> Option<int> {
    match id {
        Some(id) => Some(id@),
        None => None,
    }
}

/// The positions that a sequence of handles stands for.
pub open spec fn ids_of(ids: Seq<NodeId>) -> Seq<int> {
    Seq::new(ids.len(), |i: int| ids[i]@)
}

/// The position of the last of `n` nodes, if there is one.
pub open spec fn last_of(n: nat) -> Option<int> {
    if n == 0 {
        None
    } else {
        Some(n - 1)
    }
}

/// One heading and its place in the tree.
#[derive(Debug)]
pub struct Node {
    parent: Option<NodeId>,
    previous_sibling: Option<NodeId>,
    next_sibling: Option<NodeId>,
    children: Vec<NodeId>,
    index: usize,
    /// The heading itself.
    pub data: Header,
}

impl View for Node {
    type V = NodeModel;

    closed spec fn view(&self) -> NodeModel {
        NodeModel {
            parent: opt_id(self.parent),
            previous_sibling: opt_id(self.previous_sibling),
            next_sibling: opt_id(self.next_sibling),
            children: ids_of(self.children@),
            index: self.index as int,
            data: self.data@,
        }
    }
}

impl Node {
    /// The node one level up, if there is one.
    pub fn parent(&self) -> (id: Option<NodeId>)
        ensures
            opt_id(id) == self@.parent,
    {
        self.parent
    }

    /// The node before this one under the same parent, if there is one.
    pub fn previous_sibling(&self) -> (id: Option<NodeId>)
        ensures
            opt_id(id) == self@.previous_sibling,
    {
        self.previous_sibling
    }

    /// The node after this one under the same parent, if there is one.
    pub fn next_sibling(&self) -> (id: Option<NodeId>)
        ensures
            opt_id(id) == self@.next_sibling,
    {
        self.next_sibling
    }

    /// The nodes directly below this one, in document order.
    pub fn children(&self) -> (ids: &Vec<NodeId>)
        ensures
            ids_of(ids@) == self@.children,
    {
        &self.children
    }

    /// The node's own position in the arena.
    pub fn index(&self) -> (i: usize)
        ensures
            i == self@.index,
    {
        self.index
    }

    /// The heading itself.
    pub fn header(&self) -> (h: &Header)
        ensures
            h@ == self@.data,
    {
        &self.data
    }
}

/// The store of all nodes of one outline.
#[derive(Debug)]
pub struct Arena {
    nodes: Vec<Node>,
}

impl View for Arena {
    type V = Seq<NodeModel>;

    closed spec fn view(&self) -> Seq<NodeModel> {
        Seq::new(self.nodes@.len(), |i: int| self.nodes@[i]@)
    }
}

impl Arena {
    /// An arena without nodes.
    pub fn new() -> (arena: Arena)
        ensures
            arena@ == Seq::<NodeModel>::empty(),
    {
        let arena = Arena { nodes: Vec::new() };
        assert(arena@ =~= Seq::<NodeModel>::empty());
        arena
    }

    /// The number of nodes.
    pub fn len(&self) -> (n: usize)
        ensures
            n == self@.len(),
    {
        self.nodes.len()
    }

    /// The node at a position, if the arena has that many nodes.
    pub fn get(&self, index: usize) -> (node: Option<&Node>)
        ensures
            node is Some == (index < self@.len()),
            node is Some ==> node->0@ == self@[index as int],
    {
        if index < self.nodes.len() {
            Some(&self.nodes[index])
        } else {
            None
        }
    }

    /// Appends a node that holds `data` and has no relationships yet, and
    /// returns its handle.
    pub fn new_node(&mut self, data: Header) -> (id: NodeId)
        ensures
            id@ == old(self)@.len(),
            final(self)@ == old(self)@.push(unlinked(old(self)@.len() as int, data@)),
    {
        let next_index = self.nodes.len();
        self.nodes.push(
            Node {
                parent: None,
                children: Vec::new(),
                previous_sibling: None,
                next_sibling: None,
                index: next_index,
                data,
            },
        );
        assert(ids_of(self.nodes@[next_index as int].children@) =~= Seq::<int>::empty());
        assert(self@ =~= old(self)@.push(unlinked(old(self)@.len() as int, data@)));
        NodeId { index: next_index }
    }

    /// Appends a line to the body text of a node.
    pub(crate) fn push_text(&mut self, id: NodeId, line: String)
        requires
            id@ < old(self)@.len(),
        ensures
            final(self)@ == old(self)@.update(
                id@,
                NodeModel { data: with_text(old(self)@[id@].data, line@), ..old(self)@[id@] },
            ),
    {
        self.nodes[id.index].data.push_text(line);
        assert(self@ =~= old(self)@.update(
            id@,
            NodeModel { data: with_text(old(self)@[id@].data, line@), ..old(self)@[id@] },
        ));
    }

    /// Links the last node, which has no relationships yet, below `parent`
    /// and behind `previous`.
    fn link(&mut self, parent: Option<NodeId>, previous: Option<NodeId>)
        requires
            old(self)@.len() > 0,
            old(self)@.last() == unlinked(old(self)@.len() - 1, old(self)@.last().data),
            parent is Some ==> parent->0@ < old(self)@.len() - 1,
            previous is Some ==> previous->0@ < old(self)@.len() - 1,
        ensures
            final(self)@ == grown(
                old(self)@.drop_last(),
                opt_id(parent),
                opt_id(previous),
                old(self)@.last().data,
            ),
    {
        let last = self.nodes.len() - 1;
        let node = NodeId { index: last };
        self.nodes[last].parent = parent;
        self.nodes[last].previous_sibling = previous;
        match parent {
            Some(p) => {
                self.nodes[p.index].children.push(node);
                assert(ids_of(self.nodes@[p@].children@) =~= ids_of(
                    old(self).nodes@[p@].children@,
                ).push(node@));
            },
            None => {},
        }
        match previous {
            Some(s) => {
                self.nodes[s.index].next_sibling = Some(node);
            },
            None => {},
        }
        assert(self@ =~= grown(
            old(self)@.drop_last(),
            opt_id(parent),
            opt_id(previous),
            old(self)@.last().data,
        ));
    }

    /// Adds a heading to the tree. `current_node` is the last node, and
    /// `previous_level` its depth, or 1 if there is no node yet. Returns the
    /// new node and its depth.
    ///
    /// A heading whose level is greater than `previous_level` becomes a
    /// child of `current_node`, however great the difference. One of the same
    /// level becomes its next sibling. For a smaller level the cursor first
    /// walks up, parent by parent, to the node of that level. The first
    /// heading of all becomes a root whatever its level.
    pub(crate) fn insert(
        &mut self,
        data: Header,
        current_node: Option<NodeId>,
        previous_level: usize,
    ) -> (r: (NodeId, usize))
        requires
            old(self)@ == tree_of(data_of(old(self)@)),
            opt_id(current_node) == last_of(old(self)@.len()),
            previous_level == cursor_depth(levels_of(data_of(old(self)@))),
            data@.level >= 1,
        ensures
            final(self)@ == tree_of(data_of(old(self)@).push(data@)),
            r.0@ == old(self)@.len(),
            r.1 == cursor_depth(levels_of(data_of(old(self)@).push(data@))),
    {
        let ghost heads = data_of(self@);
        let ghost levels = levels_of(heads);
        let ghost more = levels.push(data@.level);
        let ghost n = self@.len() as int;
        let new_header_level = data.level();
        let node_id = self.new_node(data);
        proof {
            assert(levels_of(heads.push(data@)) =~= more);
            lemma_tree_push(heads, data@);
        }
        let mut current_node = current_node;
        let mut previous_level = previous_level;
        let mut parent: Option<NodeId> = None;
        let mut previous: Option<NodeId> = None;
        loop
            invariant_except_break
                parent is None,
                previous is None,
                previous_level >= 1,
                n == 0 ==> current_node is None && previous_level == 1,
                n > 0 ==> {
                    &&& current_node is Some
                    &&& nearest(levels, n, previous_level as nat) == opt_id(current_node)
                    &&& depth(levels, current_node->0@) == previous_level
                    &&& new_header_level <= previous_level || current_node->0@ == n - 1
                },
            invariant
                n == heads.len(),
                levels == levels_of(heads),
                more == levels.push(new_header_level as nat),
                new_header_level >= 1,
                self@ == tree_of(heads).push(unlinked(n, data@)),
            ensures
                opt_id(parent) == parent_of(more, n),
                opt_id(previous) == previous_of(more, n),
                previous_level == depth(more, n),
            decreases previous_level,
        {
            proof {
                if n > 0 {
                    lemma_depth_push(levels, new_header_level as nat, n - 1);
                    lemma_nearest_found(levels, n, previous_level as nat);
                    lemma_nearest_push(levels, new_header_level as nat, n, previous_level as nat);
                    lemma_nearest_push(
                        levels,
                        new_header_level as nat,
                        n,
                        (previous_level - 1) as nat,
                    );
                    lemma_depth_push(levels, new_header_level as nat, current_node->0@);
                    let c = current_node->0@;
                    assert(self.nodes@.len() == self@.len());
                    assert(self@[c] == self.nodes@[c]@);
                    assert(self@[c] == tree_of(heads)[c]);
                    assert(opt_id(self.nodes@[c].parent) == parent_of(levels, c));
                }
            }
            match current_node {
                None => {
                    // The first heading of the document: a root.
                    break ;
                },
                Some(current) => {
                    if new_header_level > previous_level {
                        parent = current_node;
                        previous_level += 1;
                        proof {
                            lemma_nearest_push(
                                levels,
                                new_header_level as nat,
                                n,
                                previous_level as nat,
                            );
                        }
                        break ;
                    }
                    if new_header_level == previous_level {
                        parent = self.nodes[current.index].parent;
                        previous = current_node;
                        proof {
                            if previous_level > 1 {
                                lemma_nearest_skip(
                                    levels,
                                    n,
                                    previous_level as nat,
                                    (previous_level - 1) as nat,
                                );
                            } else {
                                lemma_nearest_found(levels, n, 0);
                                lemma_nearest_found(levels, current@, 0);
                                assert forall|k: int| 0 <= k < n implies #[trigger] depth(
                                    levels,
                                    k,
                                ) > 0 by {
                                    lemma_depth_step(levels, k);
                                }
                            }
                        }
                        break ;
                    }
                    proof {
                        lemma_nearest_skip(
                            levels,
                            n,
                            previous_level as nat,
                            (previous_level - 1) as nat,
                        );
                        lemma_depth_step(levels, current@);
                        lemma_nearest_exact(levels, current@, (previous_level - 1) as nat);
                    }
                    current_node = self.nodes[current.index].parent;
                    previous_level -= 1;
                },
            }
        }
        proof {
            lemma_nearest_found(more, n, (depth(more, n) - 1) as nat);
            lemma_nearest_found(more, n, depth(more, n));
            assert(self@.drop_last() =~= tree_of(heads));
        }
        self.link(parent, previous);
        (node_id, previous_level)
    }
}

} // verus!
