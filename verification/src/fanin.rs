//! The union fan-in bookkeeping: once the first shard bootstraps the
//! class-wide operators, this records their stable node identities and
//! a shadow of each union's parent set.
//!
//! The shadow mirrors the union nodes' own edges and is what decides
//! bootstrap against extension; it never diverges from the graph (the
//! manager's invariant ties the two together).

use vstd::prelude::*;

use crate::errors::ShardError;

verus! {

/// The stable identities the bootstrap migration creates, and the
/// unions' parent shadows.  The identity fields are meaningful only
/// once `bootstrapped` is set.
pub struct UnionFanIn {
    /// Whether the first shard's bootstrap migration has run.
    pub bootstrapped: bool,
    /// The union over every live user-info relation.
    pub user_union: usize,
    /// The union over every live answers relation.
    pub answer_union: usize,
    /// Shadow of the user union's parent edges, in attachment order.
    pub user_parents: Vec<usize>,
    /// Shadow of the answers union's parent edges, in attachment order.
    pub answer_parents: Vec<usize>,
    /// The class roster view over the user union.
    pub roster_view: usize,
    /// The ungated aggregate answer view over the answers union.
    pub answers_view: usize,
    /// The gated cross-principal answer feed (mask bit 0).
    pub faq_view: usize,
    /// The gated research aggregate (mask bit 1).
    pub research_view: usize,
}

impl UnionFanIn {
    /// Before any shard exists there is nothing to fan in.
    pub fn new() -> (r: UnionFanIn)
        ensures
            !r.bootstrapped,
            r.user_parents@.len() == 0,
            r.answer_parents@.len() == 0,
    {
        UnionFanIn {
            bootstrapped: false,
            user_union: 0,
            answer_union: 0,
            user_parents: Vec::new(),
            answer_parents: Vec::new(),
            roster_view: 0,
            answers_view: 0,
            faq_view: 0,
            research_view: 0,
        }
    }
}

/// The union-parent-attachment step: appends one parent edge to the
/// shadow, refusing a relation that is already attached.  Existing
/// parents are not disturbed.
pub fn attach_parent(parents: &mut Vec<usize>, id: usize) -> (r: Result<(), ShardError>)
    ensures
        match r {
            Ok(u) => !old(parents)@.contains(id) && final(parents)@ == old(parents)@.push(id),
            Err(e) => {
                &&& e == ShardError::DuplicateParent
                &&& old(parents)@.contains(id)
                &&& final(parents)@ == old(parents)@
            },
        },
{
    if parents_contain(parents, id) {
        Err(ShardError::DuplicateParent)
    } else {
        parents.push(id);
        Ok(())
    }
}

/// The position of a relation among the parents, if it is one.
pub fn position_of_parent(parents: &Vec<usize>, id: usize) -> (r: Option<usize>)
    ensures
        match r {
            Some(j) => j < parents@.len() && parents@[j as int] == id,
            None => !parents@.contains(id),
        },
{
    let n = parents.len();
    let mut i: usize = 0;
    while i < n
        invariant
            0 <= i <= n,
            n == parents@.len(),
            forall|j: int| 0 <= j < i ==> parents@[j] != id,
        decreases n - i,
    {
        if parents[i] == id {
            return Some(i);
        }
        i = i + 1;
    }
    None
}

/// Whether a relation already stands among the parents.
pub fn parents_contain(parents: &Vec<usize>, id: usize) -> (b: bool)
    ensures
        b == parents@.contains(id),
{
    let n = parents.len();
    let mut i: usize = 0;
    while i < n
        invariant
            0 <= i <= n,
            n == parents@.len(),
            forall|j: int| 0 <= j < i ==> parents@[j] != id,
        decreases n - i,
    {
        if parents[i] == id {
            return true;
        }
        i = i + 1;
    }
    false
}

} // verus!
