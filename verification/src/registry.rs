//! The node registry: the process-wide index from a logical shard-object
//! name — an email key plus a relation kind — to the identity of that
//! relation's node in the view graph.
//!
//! An entry is written exactly once per name; only a reimport replaces
//! a stale entry with the rebuilt relation's fresh identity.

use vstd::prelude::*;

use crate::graph::RelationKind;

verus! {

/// One `(logical name, node identity)` pair.
pub struct RegEntry {
    pub email: String,
    pub kind: RelationKind,
    pub node: usize,
}

/// The registry: an insert-ordered list of entries with unique names.
pub struct NodeRegistry {
    pub entries: Vec<RegEntry>,
}

/// The node registered under `(e, k)`, scanning front to back.
pub open spec fn reg_node(s: Seq<RegEntry>, e: Seq<char>, k: RelationKind) -> Option<nat>
    decreases s.len(),
{
    if s.len() == 0 {
        None
    } else if s[0].email@ == e && s[0].kind == k {
        Some(s[0].node as nat)
    } else {
        reg_node(s.drop_first(), e, k)
    }
}

/// Whether some node is registered under `(e, k)`.
pub open spec fn reg_has(s: Seq<RegEntry>, e: Seq<char>, k: RelationKind) -> bool {
    reg_node(s, e, k) is Some
}

/// No two entries share a name.
pub open spec fn reg_unique(s: Seq<RegEntry>) -> bool {
    forall|i: int, j: int|
        0 <= i < j < s.len() ==> !((#[trigger] s[i]).email@ == (#[trigger] s[j]).email@ && s[i].kind
            == s[j].kind)
}

/// Looking a name up in a concatenation: the front wins.
pub proof fn lemma_reg_node_add(s: Seq<RegEntry>, t: Seq<RegEntry>, e: Seq<char>, k: RelationKind)
    ensures
        reg_node(s + t, e, k) == if reg_has(s, e, k) {
            reg_node(s, e, k)
        } else {
            reg_node(t, e, k)
        },
    decreases s.len(),
{
    if s.len() == 0 {
        assert(s + t =~= t);
    } else {
        assert((s + t)[0] == s[0]);
        assert((s + t).drop_first() =~= s.drop_first() + t);
        lemma_reg_node_add(s.drop_first(), t, e, k);
    }
}

/// Appending one entry only adds its own name.
pub proof fn lemma_reg_node_push(s: Seq<RegEntry>, entry: RegEntry, e: Seq<char>, k: RelationKind)
    ensures
        reg_node(s.push(entry), e, k) == if reg_has(s, e, k) {
            reg_node(s, e, k)
        } else if entry.email@ == e && entry.kind == k {
            Some(entry.node as nat)
        } else {
            None
        },
{
    assert(s.push(entry) =~= s + seq![entry]);
    lemma_reg_node_add(s, seq![entry], e, k);
    let t = seq![entry];
    assert(t[0] == entry);
    assert(t.drop_first() =~= Seq::<RegEntry>::empty());
    if entry.email@ == e && entry.kind == k {
        assert(reg_node(t, e, k) == Some(entry.node as nat));
    } else {
        assert(reg_node(t, e, k) == reg_node(Seq::<RegEntry>::empty(), e, k));
        assert(reg_node(Seq::<RegEntry>::empty(), e, k) is None);
    }
}

/// When names are unique, the entry at any index is the one the lookup
/// finds for its name.
pub proof fn lemma_reg_node_at(s: Seq<RegEntry>, i: int)
    requires
        reg_unique(s),
        0 <= i < s.len(),
    ensures
        reg_node(s, s[i].email@, s[i].kind) == Some(s[i].node as nat),
    decreases s.len(),
{
    if i == 0 {
    } else {
        assert(!(s[0].email@ == s[i].email@ && s[0].kind == s[i].kind));
        assert(forall|a: int, b: int|
            0 <= a < b < s.drop_first().len() ==> !((#[trigger] s.drop_first()[a]).email@ == (
            #[trigger] s.drop_first()[b]).email@ && s.drop_first()[a].kind
                == s.drop_first()[b].kind));
        lemma_reg_node_at(s.drop_first(), i - 1);
    }
}

/// Updating the entry at `i` rewrites its name's binding and no other.
pub proof fn lemma_reg_node_update(
    s: Seq<RegEntry>,
    i: int,
    entry: RegEntry,
    e: Seq<char>,
    k: RelationKind,
)
    requires
        0 <= i < s.len(),
        entry.email@ == s[i].email@,
        entry.kind == s[i].kind,
        reg_unique(s),
    ensures
        reg_unique(s.update(i, entry)),
        reg_node(s.update(i, entry), e, k) == if s[i].email@ == e && s[i].kind == k {
            Some(entry.node as nat)
        } else {
            reg_node(s, e, k)
        },
    decreases s.len(),
{
    let u = s.update(i, entry);
    assert(forall|a: int| 0 <= a < s.len() && a != i ==> u[a] == s[a]);
    assert(u[i] == entry);
    if i == 0 {
        assert(u[0] == entry);
        assert(u.drop_first() =~= s.drop_first());
    } else {
        assert(u[0] == s[0]);
        assert(u.drop_first() =~= s.drop_first().update(i - 1, entry));
        assert(forall|a: int, b: int|
            0 <= a < b < s.drop_first().len() ==> !((#[trigger] s.drop_first()[a]).email@ == (
            #[trigger] s.drop_first()[b]).email@ && s.drop_first()[a].kind
                == s.drop_first()[b].kind));
        lemma_reg_node_update(s.drop_first(), i - 1, entry, e, k);
        if s[0].email@ == e && s[0].kind == k {
            assert(!(s[0].email@ == s[i].email@ && s[0].kind == s[i].kind));
        }
    }
}

/// A successful lookup names some entry of the registry.
pub proof fn lemma_reg_node_index(s: Seq<RegEntry>, e: Seq<char>, k: RelationKind)
    requires
        reg_has(s, e, k),
    ensures
        exists|i: int|
            0 <= i < s.len() && (#[trigger] s[i]).email@ == e && s[i].kind == k && s[i].node as nat
                == reg_node(s, e, k)->0,
    decreases s.len(),
{
    if s[0].email@ == e && s[0].kind == k {
        assert(0 <= 0 < s.len() && s[0].email@ == e && s[0].kind == k && s[0].node as nat
            == reg_node(s, e, k)->0);
    } else {
        lemma_reg_node_index(s.drop_first(), e, k);
        let i = choose|i: int|
            0 <= i < s.drop_first().len() && (#[trigger] s.drop_first()[i]).email@ == e
                && s.drop_first()[i].kind == k && s.drop_first()[i].node as nat == reg_node(
                s.drop_first(),
                e,
                k,
            )->0;
        assert(s[i + 1] == s.drop_first()[i]);
        assert(0 <= i + 1 < s.len() && s[i + 1].email@ == e && s[i + 1].kind == k && s[i
            + 1].node as nat == reg_node(s, e, k)->0);
    }
}

impl NodeRegistry {
    /// An empty registry.
    pub fn new() -> (r: NodeRegistry)
        ensures
            r.entries@.len() == 0,
    {
        NodeRegistry { entries: Vec::new() }
    }

    /// The registered node for a name, if any.
    pub fn lookup(&self, email: &String, kind: RelationKind) -> (r: Option<usize>)
        ensures
            match r {
                Some(n) => reg_node(self.entries@, email@, kind) == Some(n as nat),
                None => reg_node(self.entries@, email@, kind) is None,
            },
    {
        let n = self.entries.len();
        let mut i: usize = 0;
        assert(self.entries@.skip(0) =~= self.entries@);
        while i < n
            invariant
                0 <= i <= n,
                n == self.entries@.len(),
                reg_node(self.entries@, email@, kind) == reg_node(
                    self.entries@.skip(i as int),
                    email@,
                    kind,
                ),
            decreases n - i,
        {
            let entry = &self.entries[i];
            proof {
                assert(self.entries@.skip(i as int)[0] == self.entries@[i as int]);
                assert(self.entries@.skip(i as int).drop_first() =~= self.entries@.skip(i + 1));
            }
            if entry.email == *email && entry.kind == kind {
                return Some(entry.node);
            }
            i = i + 1;
        }
        proof {
            assert(self.entries@.skip(n as int) =~= Seq::<RegEntry>::empty());
        }
        None
    }

    /// Records a fresh name; the caller has checked it is absent.
    pub fn insert_new(&mut self, email: String, kind: RelationKind, node: usize)
        ensures
            final(self).entries@ == old(self).entries@.push(
                RegEntry { email, kind, node },
            ),
    {
        self.entries.push(RegEntry { email, kind, node });
    }

    /// Replaces the node registered at position `i` after a rebuild.
    pub fn replace_at(&mut self, i: usize, node: usize)
        requires
            i < old(self).entries@.len(),
        ensures
            final(self).entries@ == old(self).entries@.update(
                i as int,
                RegEntry {
                    email: old(self).entries@[i as int].email,
                    kind: old(self).entries@[i as int].kind,
                    node,
                },
            ),
    {
        let email = self.entries[i].email.clone();
        let kind = self.entries[i].kind;
        self.entries[i] = RegEntry { email, kind, node };
    }

    /// The position of a name's entry, if any.
    pub fn position(&self, email: &String, kind: RelationKind) -> (r: Option<usize>)
        ensures
            match r {
                Some(i) => {
                    &&& i < self.entries@.len()
                    &&& self.entries@[i as int].email@ == email@
                    &&& self.entries@[i as int].kind == kind
                },
                None => reg_node(self.entries@, email@, kind) is None,
            },
    {
        let n = self.entries.len();
        let mut i: usize = 0;
        assert(self.entries@.skip(0) =~= self.entries@);
        while i < n
            invariant
                0 <= i <= n,
                n == self.entries@.len(),
                reg_node(self.entries@, email@, kind) == reg_node(
                    self.entries@.skip(i as int),
                    email@,
                    kind,
                ),
            decreases n - i,
        {
            let entry = &self.entries[i];
            proof {
                assert(self.entries@.skip(i as int)[0] == self.entries@[i as int]);
                assert(self.entries@.skip(i as int).drop_first() =~= self.entries@.skip(i + 1));
            }
            if entry.email == *email && entry.kind == kind {
                return Some(i);
            }
            i = i + 1;
        }
        proof {
            assert(self.entries@.skip(n as int) =~= Seq::<RegEntry>::empty());
        }
        None
    }
}

} // verus!
