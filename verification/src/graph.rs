//! The materialized-view graph: a growing vector of operator nodes.
//!
//! A node's identity is its index; indices are never reused, so a
//! handle stays meaningful for the life of the process.  Base relations
//! carry their owner, their liveness and their permission mask; union
//! nodes carry their parent edges; the downstream view nodes record the
//! shape the migrations built.

use vstd::prelude::*;

use crate::rows::{AnswerRow, AnswerRowV, UserRow, UserRowV};

verus! {

/// Which of the two per-principal relations a name or union refers to.
#[derive(Clone, Copy, Debug, PartialEq, Eq, Structural)]
pub enum RelationKind {
    UserInfo,
    Answers,
}

/// One operator in the view graph.
#[allow(inconsistent_fields)]
pub enum Node {
    /// A principal's identity relation.
    UserBase { owner: String, live: bool, mask: u8, rows: Vec<UserRow> },
    /// A principal's answers relation.
    AnswerBase { owner: String, live: bool, mask: u8, rows: Vec<AnswerRow> },
    /// The stable fan-in operator over every live base of one kind.
    UnionNode { kind: RelationKind, parents: Vec<usize> },
    /// A class-wide maintained view over a union.
    AggregateView { kind: RelationKind, src: usize },
    /// A class-wide maintained view over the answers union that only
    /// exposes rows whose relation mask has `gate_bit` set.
    GatedView { gate_bit: u8, src: usize },
    /// A principal-scoped view over that principal's answers relation.
    ScopedView { owner_base: usize },
}

/// The base relation's owner; empty for operator nodes.
pub open spec fn node_owner(n: Node) -> Seq<char> {
    match n {
        Node::UserBase { owner, .. } => owner@,
        Node::AnswerBase { owner, .. } => owner@,
        _ => Seq::empty(),
    }
}

/// Whether a base relation still accepts writes and feeds its union.
pub open spec fn node_live(n: Node) -> bool {
    match n {
        Node::UserBase { live, .. } => live,
        Node::AnswerBase { live, .. } => live,
        _ => false,
    }
}

/// The mask a base relation was built with; zero for operator nodes.
pub open spec fn node_mask(n: Node) -> u8 {
    match n {
        Node::UserBase { mask, .. } => mask,
        Node::AnswerBase { mask, .. } => mask,
        _ => 0,
    }
}

/// The identity rows a user-info base holds.
pub open spec fn node_user_rows(n: Node) -> Seq<UserRowV> {
    match n {
        Node::UserBase { rows, .. } => rows.deep_view(),
        _ => Seq::empty(),
    }
}

/// The answer rows an answers base holds.
pub open spec fn node_answer_rows(n: Node) -> Seq<AnswerRowV> {
    match n {
        Node::AnswerBase { rows, .. } => rows.deep_view(),
        _ => Seq::empty(),
    }
}

/// A union node's parent edges, in attachment order.
pub open spec fn node_parents(n: Node) -> Seq<usize> {
    match n {
        Node::UnionNode { parents, .. } => parents@,
        _ => Seq::empty(),
    }
}

/// The whole graph.
pub struct ViewGraph {
    pub nodes: Vec<Node>,
}

impl ViewGraph {
    /// An empty graph.
    pub fn new() -> (g: ViewGraph)
        ensures
            g.nodes@.len() == 0,
    {
        ViewGraph { nodes: Vec::new() }
    }

    /// Whether the base relation at `i` is live.
    pub fn node_is_live(&self, i: usize) -> (b: bool)
        requires
            i < self.nodes@.len(),
        ensures
            b == node_live(self.nodes@[i as int]),
    {
        match &self.nodes[i] {
            Node::UserBase { live, .. } => *live,
            Node::AnswerBase { live, .. } => *live,
            _ => false,
        }
    }

    /// The mask of the base relation at `i`.
    pub fn node_mask_at(&self, i: usize) -> (m: u8)
        requires
            i < self.nodes@.len(),
        ensures
            m == node_mask(self.nodes@[i as int]),
    {
        match &self.nodes[i] {
            Node::UserBase { mask, .. } => *mask,
            Node::AnswerBase { mask, .. } => *mask,
            _ => 0,
        }
    }

    /// The identity rows of the user-info base at `i`, if it is one.
    pub fn get_user_rows(&self, i: usize) -> (r: Option<&Vec<UserRow>>)
        requires
            i < self.nodes@.len(),
        ensures
            match r {
                Some(rows) => self.nodes@[i as int] is UserBase && rows.deep_view()
                    == node_user_rows(self.nodes@[i as int]),
                None => !(self.nodes@[i as int] is UserBase),
            },
    {
        match &self.nodes[i] {
            Node::UserBase { rows, .. } => Some(rows),
            _ => None,
        }
    }

    /// The answer rows of the answers base at `i`, if it is one.
    pub fn get_answer_rows(&self, i: usize) -> (r: Option<&Vec<AnswerRow>>)
        requires
            i < self.nodes@.len(),
        ensures
            match r {
                Some(rows) => self.nodes@[i as int] is AnswerBase && rows.deep_view()
                    == node_answer_rows(self.nodes@[i as int]),
                None => !(self.nodes@[i as int] is AnswerBase),
            },
    {
        match &self.nodes[i] {
            Node::AnswerBase { rows, .. } => Some(rows),
            _ => None,
        }
    }

    /// Appends a parent edge to a union node, leaving every other node
    /// untouched.
    pub fn push_union_parent(&mut self, union_id: usize, parent: usize)
        requires
            union_id < old(self).nodes@.len(),
            old(self).nodes@[union_id as int] is UnionNode,
        ensures
            final(self).nodes@.len() == old(self).nodes@.len(),
            forall|i: int|
                0 <= i < old(self).nodes@.len() && i != union_id ==> final(self).nodes@[i] == old(
                    self,
                ).nodes@[i],
            final(self).nodes@[union_id as int] is UnionNode,
            node_parents(final(self).nodes@[union_id as int]) == node_parents(
                old(self).nodes@[union_id as int],
            ).push(parent),
    {
        let node = self.nodes.remove(union_id);
        match node {
            Node::UnionNode { kind, mut parents } => {
                parents.push(parent);
                self.nodes.insert(union_id, Node::UnionNode { kind, parents });
                proof {
                    assert(self.nodes@ =~= old(self).nodes@.update(
                        union_id as int,
                        self.nodes@[union_id as int],
                    ));
                }
            },
            _ => {
                proof {
                    assert(false);
                }
                self.nodes.insert(union_id, node);
            },
        }
    }

    /// Unsubscribes the base relation at `i`: it stops accepting writes.
    /// Everything else about the node is kept.
    pub fn set_base_dead(&mut self, i: usize)
        requires
            i < old(self).nodes@.len(),
            old(self).nodes@[i as int] is UserBase || old(self).nodes@[i as int] is AnswerBase,
        ensures
            final(self).nodes@.len() == old(self).nodes@.len(),
            forall|j: int|
                0 <= j < old(self).nodes@.len() && j != i ==> final(self).nodes@[j] == old(
                    self,
                ).nodes@[j],
            (final(self).nodes@[i as int] is UserBase) == (old(self).nodes@[i as int] is UserBase),
            (final(self).nodes@[i as int] is AnswerBase) == (old(
                self,
            ).nodes@[i as int] is AnswerBase),
            node_owner(final(self).nodes@[i as int]) == node_owner(old(self).nodes@[i as int]),
            node_mask(final(self).nodes@[i as int]) == node_mask(old(self).nodes@[i as int]),
            node_user_rows(final(self).nodes@[i as int]) == node_user_rows(
                old(self).nodes@[i as int],
            ),
            node_answer_rows(final(self).nodes@[i as int]) == node_answer_rows(
                old(self).nodes@[i as int],
            ),
            !node_live(final(self).nodes@[i as int]),
    {
        let node = self.nodes.remove(i);
        match node {
            Node::UserBase { owner, live, mask, rows } => {
                self.nodes.insert(i, Node::UserBase { owner, live: false, mask, rows });
                proof {
                    assert(self.nodes@ =~= old(self).nodes@.update(
                        i as int,
                        self.nodes@[i as int],
                    ));
                }
            },
            Node::AnswerBase { owner, live, mask, rows } => {
                self.nodes.insert(i, Node::AnswerBase { owner, live: false, mask, rows });
                proof {
                    assert(self.nodes@ =~= old(self).nodes@.update(
                        i as int,
                        self.nodes@[i as int],
                    ));
                }
            },
            _ => {
                proof {
                    assert(false);
                }
                self.nodes.insert(i, node);
            },
        }
    }

    /// Detaches the parent edge at position `j` of a union node.
    pub fn remove_union_parent(&mut self, union_id: usize, j: usize)
        requires
            union_id < old(self).nodes@.len(),
            old(self).nodes@[union_id as int] is UnionNode,
            j < node_parents(old(self).nodes@[union_id as int]).len(),
        ensures
            final(self).nodes@.len() == old(self).nodes@.len(),
            forall|i: int|
                0 <= i < old(self).nodes@.len() && i != union_id ==> final(self).nodes@[i] == old(
                    self,
                ).nodes@[i],
            final(self).nodes@[union_id as int] is UnionNode,
            node_parents(final(self).nodes@[union_id as int]) == node_parents(
                old(self).nodes@[union_id as int],
            ).remove(j as int),
    {
        let node = self.nodes.remove(union_id);
        match node {
            Node::UnionNode { kind, mut parents } => {
                parents.remove(j);
                self.nodes.insert(union_id, Node::UnionNode { kind, parents });
                proof {
                    assert(self.nodes@ =~= old(self).nodes@.update(
                        union_id as int,
                        self.nodes@[union_id as int],
                    ));
                }
            },
            _ => {
                proof {
                    assert(false);
                }
                self.nodes.insert(union_id, node);
            },
        }
    }

    /// Replaces the parent edge at position `j` of a union node, so a
    /// rebuilt relation supersedes its predecessor in place.
    pub fn set_union_parent(&mut self, union_id: usize, j: usize, parent: usize)
        requires
            union_id < old(self).nodes@.len(),
            old(self).nodes@[union_id as int] is UnionNode,
            j < node_parents(old(self).nodes@[union_id as int]).len(),
        ensures
            final(self).nodes@.len() == old(self).nodes@.len(),
            forall|i: int|
                0 <= i < old(self).nodes@.len() && i != union_id ==> final(self).nodes@[i] == old(
                    self,
                ).nodes@[i],
            final(self).nodes@[union_id as int] is UnionNode,
            node_parents(final(self).nodes@[union_id as int]) == node_parents(
                old(self).nodes@[union_id as int],
            ).update(j as int, parent),
    {
        let node = self.nodes.remove(union_id);
        match node {
            Node::UnionNode { kind, mut parents } => {
                parents[j] = parent;
                self.nodes.insert(union_id, Node::UnionNode { kind, parents });
                proof {
                    assert(self.nodes@ =~= old(self).nodes@.update(
                        union_id as int,
                        self.nodes@[union_id as int],
                    ));
                }
            },
            _ => {
                proof {
                    assert(false);
                }
                self.nodes.insert(union_id, node);
            },
        }
    }

    /// Appends a node; the fresh index is its identity.
    pub fn add_node(&mut self, n: Node) -> (id: usize)
        ensures
            final(self).nodes@ == old(self).nodes@.push(n),
            id as int == old(self).nodes@.len(),
    {
        let id = self.nodes.len();
        self.nodes.push(n);
        id
    }
}

} // verus!
