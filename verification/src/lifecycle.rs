//! The shard lifecycle manager: the entry point that provisions,
//! retires, exports and reinstates shards, orchestrating migrations of
//! the view graph and keeping the node registry, the union fan-in and
//! the fingerprint store consistent.
//!
//! Every operation's effect on the abstract state is given by the
//! transition functions of [`crate::model`].

use vstd::prelude::*;

use crate::errors::ShardError;
use crate::fanin::UnionFanIn;
use crate::graph::{node_answer_rows, node_live, node_mask, node_owner, node_parents, node_user_rows, Node, RelationKind, ViewGraph};
use crate::model::{ManagerView, ShardV};
use crate::registry::{lemma_reg_node_index, reg_has, reg_node, reg_unique, NodeRegistry, RegEntry};
use crate::rows::{answer_keys_unique, answer_rows_owned_by, UserRow};

verus! {

/// The two node identities a provisioned shard receives.
#[derive(Clone, Copy, Debug, PartialEq, Eq, Structural)]
pub struct ShardHandle {
    pub user_node: usize,
    pub answers_node: usize,
}

/// One stored `(credential, fingerprint)` pair.
pub struct FpEntry {
    pub credential: String,
    pub fingerprint: String,
}

/// The fingerprint stored for a credential, scanning front to back.
pub open spec fn fp_of(s: Seq<FpEntry>, c: Seq<char>) -> Option<Seq<char>>
    decreases s.len(),
{
    if s.len() == 0 {
        None
    } else if s[0].credential@ == c {
        Some(s[0].fingerprint@)
    } else {
        fp_of(s.drop_first(), c)
    }
}

/// No two stored fingerprints share a credential.
pub open spec fn fp_unique(s: Seq<FpEntry>) -> bool {
    forall|i: int, j: int|
        0 <= i < j < s.len() ==> (#[trigger] s[i]).credential@ != (#[trigger] s[j]).credential@
}

/// Looking a credential up in a concatenation: the front wins.
pub proof fn lemma_fp_of_add(s: Seq<FpEntry>, t: Seq<FpEntry>, c: Seq<char>)
    ensures
        fp_of(s + t, c) == if fp_of(s, c) is Some {
            fp_of(s, c)
        } else {
            fp_of(t, c)
        },
    decreases s.len(),
{
    if s.len() == 0 {
        assert(s + t =~= t);
    } else {
        assert((s + t)[0] == s[0]);
        assert((s + t).drop_first() =~= s.drop_first() + t);
        lemma_fp_of_add(s.drop_first(), t, c);
    }
}

/// Appending one pair only adds its own credential.
pub proof fn lemma_fp_of_push(s: Seq<FpEntry>, entry: FpEntry, c: Seq<char>)
    ensures
        fp_of(s.push(entry), c) == if fp_of(s, c) is Some {
            fp_of(s, c)
        } else if entry.credential@ == c {
            Some(entry.fingerprint@)
        } else {
            None
        },
{
    assert(s.push(entry) =~= s + seq![entry]);
    lemma_fp_of_add(s, seq![entry], c);
    let t = seq![entry];
    assert(t[0] == entry);
    assert(t.drop_first() =~= Seq::<FpEntry>::empty());
    if entry.credential@ == c {
        assert(fp_of(t, c) == Some(entry.fingerprint@));
    } else {
        assert(fp_of(t, c) == fp_of(Seq::<FpEntry>::empty(), c));
        assert(fp_of(Seq::<FpEntry>::empty(), c) is None);
    }
}

/// Updating the pair at `i` rewrites its credential's binding only.
pub proof fn lemma_fp_of_update(s: Seq<FpEntry>, i: int, entry: FpEntry, c: Seq<char>)
    requires
        0 <= i < s.len(),
        entry.credential@ == s[i].credential@,
        fp_unique(s),
    ensures
        fp_unique(s.update(i, entry)),
        fp_of(s.update(i, entry), c) == if s[i].credential@ == c {
            Some(entry.fingerprint@)
        } else {
            fp_of(s, c)
        },
    decreases s.len(),
{
    let u = s.update(i, entry);
    assert(forall|a: int| 0 <= a < s.len() && a != i ==> u[a] == s[a]);
    assert(u[i] == entry);
    if i == 0 {
        assert(u[0] == entry);
        assert(u.drop_first() =~= s.drop_first());
    } else {
        assert(u[0] == s[0]);
        assert(u.drop_first() =~= s.drop_first().update(i - 1, entry));
        assert(forall|a: int, b: int|
            0 <= a < b < s.drop_first().len() ==> (#[trigger] s.drop_first()[a]).credential@ != (
            #[trigger] s.drop_first()[b]).credential@);
        lemma_fp_of_update(s.drop_first(), i - 1, entry, c);
        if s[0].credential@ == c {
            assert(s[0].credential@ != s[i].credential@);
        }
    }
}

/// Every stored pair's credential is found by the lookup.
pub proof fn lemma_fp_index(s: Seq<FpEntry>, i: int)
    requires
        0 <= i < s.len(),
    ensures
        fp_of(s, s[i].credential@) is Some,
    decreases s.len(),
{
    if i > 0 && s[0].credential@ != s[i].credential@ {
        assert(s.drop_first()[i - 1] == s[i]);
        lemma_fp_index(s.drop_first(), i - 1);
    }
}

/// The position of a credential's stored pair, if any.
fn fp_position(prints: &Vec<FpEntry>, cred: &String) -> (r: Option<usize>)
    ensures
        match r {
            Some(i) => i < prints@.len() && prints@[i as int].credential@ == cred@,
            None => fp_of(prints@, cred@) is None,
        },
{
    let n = prints.len();
    let mut i: usize = 0;
    assert(prints@.skip(0) =~= prints@);
    while i < n
        invariant
            0 <= i <= n,
            n == prints@.len(),
            fp_of(prints@, cred@) == fp_of(prints@.skip(i as int), cred@),
        decreases n - i,
    {
        proof {
            assert(prints@.skip(i as int)[0] == prints@[i as int]);
            assert(prints@.skip(i as int).drop_first() =~= prints@.skip(i + 1));
        }
        if prints[i].credential == *cred {
            return Some(i);
        }
        i = i + 1;
    }
    proof {
        assert(prints@.skip(n as int) =~= Seq::<FpEntry>::empty());
    }
    None
}

/// With unique credentials, the pair at any index is the one the
/// lookup finds for its credential.
pub proof fn lemma_fp_of_at(s: Seq<FpEntry>, i: int)
    requires
        fp_unique(s),
        0 <= i < s.len(),
    ensures
        fp_of(s, s[i].credential@) == Some(s[i].fingerprint@),
    decreases s.len(),
{
    if i == 0 {
    } else {
        assert(s[0].credential@ != s[i].credential@);
        assert(forall|a: int, b: int|
            0 <= a < b < s.drop_first().len() ==> (#[trigger] s.drop_first()[a]).credential@ != (
            #[trigger] s.drop_first()[b]).credential@);
        assert(s.drop_first()[i - 1] == s[i]);
        lemma_fp_of_at(s.drop_first(), i - 1);
    }
}

/// Whether every row is attributed to the given email key.
fn rows_owned_by(rows: &Vec<crate::rows::AnswerRow>, email: &String) -> (b: bool)
    ensures
        b == answer_rows_owned_by(rows.deep_view(), email@),
{
    let n = rows.len();
    let mut i: usize = 0;
    while i < n
        invariant
            0 <= i <= n,
            n == rows@.len(),
            forall|j: int| 0 <= j < i ==> (#[trigger] rows.deep_view()[j]).email == email@,
        decreases n - i,
    {
        if !(rows[i].email == *email) {
            proof {
                assert(rows.deep_view()[i as int].email != email@);
            }
            return false;
        }
        i = i + 1;
    }
    true
}

/// Whether no two rows share a `(lecture, question)` key.
fn rows_keys_unique(rows: &Vec<crate::rows::AnswerRow>) -> (b: bool)
    ensures
        b == answer_keys_unique(rows.deep_view()),
{
    let n = rows.len();
    let mut i: usize = 0;
    while i < n
        invariant
            0 <= i <= n,
            n == rows@.len(),
            forall|a: int, b2: int|
                0 <= a < b2 < rows.deep_view().len() && a < i ==> !((
                #[trigger] rows.deep_view()[a]).lecture == (
                #[trigger] rows.deep_view()[b2]).lecture && rows.deep_view()[a].question
                    == rows.deep_view()[b2].question),
        decreases n - i,
    {
        let mut k: usize = i + 1;
        while k < n
            invariant
                0 <= i < n,
                i < k <= n,
                n == rows@.len(),
                forall|b2: int|
                    i < b2 < k ==> !((#[trigger] rows.deep_view()[b2]).lecture
                        == rows.deep_view()[i as int].lecture && rows.deep_view()[b2].question
                        == rows.deep_view()[i as int].question),
            decreases n - k,
        {
            if rows[k].lecture == rows[i].lecture && rows[k].question == rows[i].question {
                proof {
                    assert(rows.deep_view()[i as int].lecture == rows.deep_view()[k as int].lecture
                        && rows.deep_view()[i as int].question
                        == rows.deep_view()[k as int].question);
                }
                return false;
            }
            k = k + 1;
        }
        i = i + 1;
    }
    true
}

/// After a migration appends a shard's two names to the registry and
/// leaves every base relation's node untouched, every other shard reads
/// exactly as before and the new names resolve to the new entries.
proof fn lemma_provision_frame(m0: ShardManager, m1: ShardManager, email: Seq<char>)
    requires
        m0.inv(),
        !reg_has(m0.entries(), email, RelationKind::UserInfo),
        !reg_has(m0.entries(), email, RelationKind::Answers),
        m1.entries().len() == m0.entries().len() + 2,
        forall|i: int| 0 <= i < m0.entries().len() ==> m1.entries()[i] == m0.entries()[i],
        m1.entries()[m0.entries().len() as int].email@ == email,
        m1.entries()[m0.entries().len() as int].kind == RelationKind::UserInfo,
        m1.entries()[m0.entries().len() as int + 1].email@ == email,
        m1.entries()[m0.entries().len() as int + 1].kind == RelationKind::Answers,
        m1.nodes().len() >= m0.nodes().len(),
        forall|i: int|
            0 <= i < m0.nodes().len() && ((#[trigger] m0.nodes()[i]) is UserBase
                || m0.nodes()[i] is AnswerBase) ==> m1.nodes()[i] == m0.nodes()[i],
    ensures
        forall|e: Seq<char>, k: RelationKind|
            e != email ==> #[trigger] reg_node(m1.entries(), e, k) == reg_node(m0.entries(), e, k),
        reg_node(m1.entries(), email, RelationKind::UserInfo) == Some(
            m1.entries()[m0.entries().len() as int].node as nat,
        ),
        reg_node(m1.entries(), email, RelationKind::Answers) == Some(
            m1.entries()[m0.entries().len() as int + 1].node as nat,
        ),
        forall|e: Seq<char>|
            e != email && #[trigger] reg_has(m0.entries(), e, RelationKind::UserInfo)
                ==> m1.shard_view(e) == m0.shard_view(e),
        reg_unique(m1.entries()),
        forall|i: int| 0 <= i < m0.entries().len() ==> m0.entry_ok(i) == m1.entry_ok(i),
        forall|i: int| 0 <= i < m0.entries().len() ==> (#[trigger] m0.entries()[i]).email@ != email,
{
    let s0 = m0.entries();
    let n0 = s0.len() as int;
    let x = m1.entries()[n0];
    let y = m1.entries()[n0 + 1];
    assert(m1.entries() =~= s0.push(x).push(y));
    assert forall|e: Seq<char>, k: RelationKind| true implies #[trigger] reg_node(
        m1.entries(),
        e,
        k,
    ) == (if reg_has(s0, e, k) {
        reg_node(s0, e, k)
    } else if x.email@ == e && x.kind == k {
        Some(x.node as nat)
    } else if y.email@ == e && y.kind == k {
        Some(y.node as nat)
    } else {
        None
    }) by {
        crate::registry::lemma_reg_node_push(s0, x, e, k);
        crate::registry::lemma_reg_node_push(s0.push(x), y, e, k);
    }
    assert forall|i: int| 0 <= i < s0.len() implies (#[trigger] s0[i]).email@ != email by {
        crate::registry::lemma_reg_node_at(s0, i);
        if s0[i].email@ == email {
            assert(reg_has(s0, s0[i].email@, s0[i].kind));
        }
    }
    assert forall|i: int, j: int| 0 <= i < j < m1.entries().len() implies !((
    #[trigger] m1.entries()[i]).email@ == (#[trigger] m1.entries()[j]).email@ && m1.entries()[i].kind
        == m1.entries()[j].kind) by {
        if j < n0 {
        } else if j == n0 {
            if i < n0 {
                assert(s0[i].email@ != email);
            }
        } else {
            if i < n0 {
                assert(s0[i].email@ != email);
            }
        }
    }
    assert forall|e: Seq<char>|
        e != email && #[trigger] reg_has(m0.entries(), e, RelationKind::UserInfo) implies m1.shard_view(
        e,
    ) == m0.shard_view(e) by {
        lemma_reg_node_index(s0, e, RelationKind::UserInfo);
        let i = choose|i: int|
            0 <= i < s0.len() && (#[trigger] s0[i]).email@ == e && s0[i].kind
                == RelationKind::UserInfo && s0[i].node as nat == reg_node(
                s0,
                e,
                RelationKind::UserInfo,
            )->0;
        assert(m0.entry_ok(i));
        assert(reg_has(s0, e, RelationKind::Answers));
        lemma_reg_node_index(s0, e, RelationKind::Answers);
        let j = choose|j: int|
            0 <= j < s0.len() && (#[trigger] s0[j]).email@ == e && s0[j].kind
                == RelationKind::Answers && s0[j].node as nat == reg_node(
                s0,
                e,
                RelationKind::Answers,
            )->0;
        assert(m0.entry_ok(j));
        assert(m1.nodes()[s0[i].node as int] == m0.nodes()[s0[i].node as int]);
        assert(m1.nodes()[s0[j].node as int] == m0.nodes()[s0[j].node as int]);
    }
    assert forall|i: int| 0 <= i < m0.entries().len() implies m0.entry_ok(i) == m1.entry_ok(i) by {
        assert(m0.entry_ok(i));
        let en = s0[i];
        assert(m1.nodes()[en.node as int] == m0.nodes()[en.node as int]);
    }
}

/// Replaces the row sharing the new row's `(lecture, question)` key, or
/// appends the row if the key is new.
fn upsert_row(rows: &mut Vec<crate::rows::AnswerRow>, row: crate::rows::AnswerRow)
    requires
        answer_keys_unique(old(rows).deep_view()),
    ensures
        final(rows).deep_view() == crate::model::spec_upsert(
            old(rows).deep_view(),
            row.deep_view(),
        ),
{
    let ghost rv = rows.deep_view();
    let ghost rdv = row.deep_view();
    let n = rows.len();
    let mut i: usize = 0;
    while i < n
        invariant
            0 <= i <= n,
            n == rows@.len(),
            rv == rows.deep_view(),
            rv == old(rows).deep_view(),
            rdv == row.deep_view(),
            answer_keys_unique(rv),
            forall|j: int|
                0 <= j < i ==> !((#[trigger] rv[j]).lecture == rdv.lecture && rv[j].question
                    == rdv.question),
        decreases n - i,
    {
        if rows[i].lecture == row.lecture && rows[i].question == row.question {
            let ghost ii = i as int;
            rows[i] = row;
            proof {
                assert(rv[ii].lecture == rdv.lecture && rv[ii].question == rdv.question);
                assert(rows.deep_view() =~= rv.update(ii, rdv));
                assert(exists|k: int|
                    0 <= k < rv.len() && (#[trigger] rv[k]).lecture == rdv.lecture
                        && rv[k].question == rdv.question);
                let k = choose|k: int|
                    0 <= k < rv.len() && (#[trigger] rv[k]).lecture == rdv.lecture
                        && rv[k].question == rdv.question;
                if k != ii {
                    if k < ii {
                        assert(!(rv[k].lecture == rv[ii].lecture && rv[k].question
                            == rv[ii].question));
                    } else {
                        assert(!(rv[ii].lecture == rv[k].lecture && rv[ii].question
                            == rv[k].question));
                    }
                }
                assert(k == ii);
                assert(crate::model::spec_upsert(rv, rdv) == rv.update(k, rdv));
            }
            return ;
        }
        i = i + 1;
    }
    rows.push(row);
    proof {
        assert(!(exists|k: int|
            0 <= k < rv.len() && (#[trigger] rv[k]).lecture == rdv.lecture && rv[k].question
                == rdv.question));
        assert(rows.deep_view() =~= rv.push(rdv));
        assert(crate::model::spec_upsert(rv, rdv) == rv.push(rdv));
    }
}

/// The shard lifecycle manager.  All structural changes to the graph go
/// through its methods; a deployment serializes calls with one lock.
pub struct ShardManager {
    /// The live view graph.
    pub graph: ViewGraph,
    /// Logical names to node identities.
    pub registry: NodeRegistry,
    /// The stable class-wide operators, once bootstrapped.
    pub fanin: UnionFanIn,
    /// Stored export fingerprints by credential.
    pub prints: Vec<FpEntry>,
    /// The server secret for keyed hashes.
    pub secret: String,
    /// The default permission mask for ordinary principals.
    pub default_mask: u8,
}

impl ShardManager {
    /// The registry's entries.
    pub open spec fn entries(self) -> Seq<RegEntry> {
        self.registry.entries@
    }

    /// The graph's nodes.
    pub open spec fn nodes(self) -> Seq<Node> {
        self.graph.nodes@
    }

    /// The model of the shard registered under `e`.
    pub open spec fn shard_view(self, e: Seq<char>) -> ShardV {
        let un = reg_node(self.entries(), e, RelationKind::UserInfo)->0;
        let an = reg_node(self.entries(), e, RelationKind::Answers)->0;
        ShardV {
            live: node_live(self.nodes()[un as int]),
            mask: node_mask(self.nodes()[an as int]),
            user_node: un,
            ans_node: an,
            user_rows: node_user_rows(self.nodes()[un as int]),
            ans_rows: node_answer_rows(self.nodes()[an as int]),
        }
    }

    /// The live shards' emails in union-attachment order: the owners of
    /// the user union's parents.
    pub open spec fn live_order_of(self) -> Seq<Seq<char>> {
        if !self.fanin.bootstrapped {
            Seq::empty()
        } else {
            self.fanin.user_parents@.map_values(|p: usize| node_owner(self.nodes()[p as int]))
        }
    }

    /// One registry entry's node is valid and of the right shape.
    pub open spec fn entry_ok(self, i: int) -> bool {
        let en = self.entries()[i];
        &&& en.node < self.nodes().len()
        &&& node_owner(self.nodes()[en.node as int]) == en.email@
        &&& (en.kind == RelationKind::UserInfo ==> self.nodes()[en.node as int] is UserBase
            && node_user_rows(self.nodes()[en.node as int]).len() == 1 && node_user_rows(
            self.nodes()[en.node as int],
        )[0].email == en.email@)
        &&& (en.kind == RelationKind::Answers ==> self.nodes()[en.node as int] is AnswerBase
            && answer_rows_owned_by(node_answer_rows(self.nodes()[en.node as int]), en.email@)
            && answer_keys_unique(node_answer_rows(self.nodes()[en.node as int])) && (node_live(
            self.nodes()[en.node as int],
        ) ==> crate::perm::core_live(node_mask(self.nodes()[en.node as int]))))
    }

    /// The registry's part of the invariant.
    pub open spec fn inv_registry(self) -> bool {
        &&& reg_unique(self.entries())
        &&& forall|i: int| 0 <= i < self.entries().len() ==> self.entry_ok(i)
        &&& forall|i: int, j: int|
            0 <= i < j < self.entries().len() ==> (#[trigger] self.entries()[i]).node != (
            #[trigger] self.entries()[j]).node
        &&& forall|e: Seq<char>|
            #[trigger] reg_has(self.entries(), e, RelationKind::UserInfo) <==> reg_has(
                self.entries(),
                e,
                RelationKind::Answers,
            )
        &&& forall|i: int, j: int|
            0 <= i < self.entries().len() && 0 <= j < self.entries().len() && (
            #[trigger] self.entries()[i]).email@ == (#[trigger] self.entries()[j]).email@
                && self.entries()[i].kind == RelationKind::UserInfo && self.entries()[j].kind
                == RelationKind::Answers ==> node_live(self.nodes()[self.entries()[i].node as int])
                == node_live(self.nodes()[self.entries()[j].node as int])
    }

    /// The fan-in bookkeeping's part of the invariant, once bootstrapped.
    pub open spec fn core_ok(self) -> bool {
        let f = self.fanin;
        &&& f.user_union < self.nodes().len()
        &&& f.answer_union < self.nodes().len()
        &&& f.user_union != f.answer_union
        &&& self.nodes()[f.user_union as int] is UnionNode
        &&& self.nodes()[f.answer_union as int] is UnionNode
        &&& node_parents(self.nodes()[f.user_union as int]) == f.user_parents@
        &&& node_parents(self.nodes()[f.answer_union as int]) == f.answer_parents@
        &&& f.user_parents@.len() == f.answer_parents@.len()
        &&& forall|j: int|
            0 <= j < f.user_parents@.len() ==> self.parent_pair_ok(
                (#[trigger] f.user_parents@[j]) as int,
                f.answer_parents@[j] as int,
            )
        &&& forall|j1: int, j2: int|
            0 <= j1 < j2 < f.user_parents@.len() ==> node_owner(
                self.nodes()[(#[trigger] f.user_parents@[j1]) as int],
            ) != node_owner(self.nodes()[(#[trigger] f.user_parents@[j2]) as int])
        &&& forall|i: int|
            0 <= i < self.entries().len() && (#[trigger] self.entries()[i]).kind
                == RelationKind::UserInfo && node_live(self.nodes()[self.entries()[i].node as int])
                ==> f.user_parents@.contains(self.entries()[i].node)
    }

    /// One aligned pair of union parents: both live, both owned by the
    /// same principal, and both exactly the registered relations.
    pub open spec fn parent_pair_ok(self, up: int, ap: int) -> bool {
        &&& 0 <= up < self.nodes().len()
        &&& 0 <= ap < self.nodes().len()
        &&& self.nodes()[up] is UserBase
        &&& self.nodes()[ap] is AnswerBase
        &&& node_live(self.nodes()[up])
        &&& node_live(self.nodes()[ap])
        &&& node_owner(self.nodes()[up]) == node_owner(self.nodes()[ap])
        &&& reg_node(self.entries(), node_owner(self.nodes()[up]), RelationKind::UserInfo) == Some(
            up as nat,
        )
        &&& reg_node(self.entries(), node_owner(self.nodes()[up]), RelationKind::Answers) == Some(
            ap as nat,
        )
    }

    /// The fan-in invariant: nothing before bootstrap, `core_ok` after.
    pub open spec fn inv_fanin(self) -> bool {
        if !self.fanin.bootstrapped {
            self.entries().len() == 0 && self.fanin.user_parents@.len() == 0
                && self.fanin.answer_parents@.len() == 0
        } else {
            self.core_ok()
        }
    }

    /// The whole concrete invariant.
    pub open spec fn inv(self) -> bool {
        &&& self.inv_registry()
        &&& self.inv_fanin()
        &&& fp_unique(self.prints@)
    }

    /// The abstract state this concrete state denotes.
    pub open spec fn view(self) -> ManagerView {
        ManagerView {
            shards: Map::new(
                |e: Seq<char>| reg_has(self.entries(), e, RelationKind::UserInfo),
                |e: Seq<char>| self.shard_view(e),
            ),
            live_order: self.live_order_of(),
            next_node: self.nodes().len() as nat,
            union_user: if self.fanin.bootstrapped {
                Some(self.fanin.user_union as nat)
            } else {
                None
            },
            union_ans: if self.fanin.bootstrapped {
                Some(self.fanin.answer_union as nat)
            } else {
                None
            },
            prints: Map::new(
                |c: Seq<char>| fp_of(self.prints@, c) is Some,
                |c: Seq<char>| fp_of(self.prints@, c)->0,
            ),
            secret: self.secret@,
            default_mask: self.default_mask,
        }
    }

    /// The concrete invariant puts the abstract state in good standing.
    pub proof fn lemma_inv_wf(self)
        requires
            self.inv(),
        ensures
            crate::model::wf(self@),
    {
        let v = self@;
        let s = self.entries();
        assert forall|e: Seq<char>| #[trigger] v.shards.dom().contains(e) implies crate::model::shard_wf(v, e) by {
            assert(reg_has(s, e, RelationKind::UserInfo));
            assert(reg_has(s, e, RelationKind::Answers));
            lemma_reg_node_index(s, e, RelationKind::UserInfo);
            lemma_reg_node_index(s, e, RelationKind::Answers);
            let i = choose|i: int|
                0 <= i < s.len() && (#[trigger] s[i]).email@ == e && s[i].kind
                    == RelationKind::UserInfo && s[i].node as nat == reg_node(
                    s,
                    e,
                    RelationKind::UserInfo,
                )->0;
            let j = choose|j: int|
                0 <= j < s.len() && (#[trigger] s[j]).email@ == e && s[j].kind
                    == RelationKind::Answers && s[j].node as nat == reg_node(
                    s,
                    e,
                    RelationKind::Answers,
                )->0;
            assert(self.entry_ok(i));
            assert(self.entry_ok(j));
            assert(i != j);
            if i < j {
                assert(s[i].node != s[j].node);
            } else {
                assert(s[j].node != s[i].node);
            }
            assert(node_live(self.nodes()[s[i].node as int]) == node_live(
                self.nodes()[s[j].node as int],
            ));
            assert(v.shards[e] == self.shard_view(e));
        }
        assert forall|e1: Seq<char>, e2: Seq<char>|
            #[trigger] v.shards.dom().contains(e1) && #[trigger] v.shards.dom().contains(e2) && e1
                != e2 implies v.shards[e1].user_node != v.shards[e2].user_node
            && v.shards[e1].user_node != v.shards[e2].ans_node && v.shards[e1].ans_node
            != v.shards[e2].ans_node by {
            lemma_reg_node_index(s, e1, RelationKind::UserInfo);
            lemma_reg_node_index(s, e1, RelationKind::Answers);
            lemma_reg_node_index(s, e2, RelationKind::UserInfo);
            lemma_reg_node_index(s, e2, RelationKind::Answers);
            let i1 = choose|i: int|
                0 <= i < s.len() && (#[trigger] s[i]).email@ == e1 && s[i].kind
                    == RelationKind::UserInfo && s[i].node as nat == reg_node(
                    s,
                    e1,
                    RelationKind::UserInfo,
                )->0;
            let j1 = choose|i: int|
                0 <= i < s.len() && (#[trigger] s[i]).email@ == e1 && s[i].kind
                    == RelationKind::Answers && s[i].node as nat == reg_node(
                    s,
                    e1,
                    RelationKind::Answers,
                )->0;
            let i2 = choose|i: int|
                0 <= i < s.len() && (#[trigger] s[i]).email@ == e2 && s[i].kind
                    == RelationKind::UserInfo && s[i].node as nat == reg_node(
                    s,
                    e2,
                    RelationKind::UserInfo,
                )->0;
            let j2 = choose|i: int|
                0 <= i < s.len() && (#[trigger] s[i]).email@ == e2 && s[i].kind
                    == RelationKind::Answers && s[i].node as nat == reg_node(
                    s,
                    e2,
                    RelationKind::Answers,
                )->0;
            assert(i1 != i2 && i1 != j2 && j1 != i2 && j1 != j2);
            assert(forall|a: int, b: int|
                0 <= a < s.len() && 0 <= b < s.len() && a != b ==> (#[trigger] s[a]).node != (
                #[trigger] s[b]).node) by {
                assert forall|a: int, b: int|
                    0 <= a < s.len() && 0 <= b < s.len() && a != b implies (#[trigger] s[a]).node
                    != (#[trigger] s[b]).node by {
                    if a < b {
                        assert(s[a].node != s[b].node);
                    } else {
                        assert(s[b].node != s[a].node);
                    }
                }
            }
        }
        if !self.fanin.bootstrapped {
            {
                assert forall|e: Seq<char>| !(#[trigger] reg_has(s, e, RelationKind::UserInfo)) by {
                    assert(reg_node(s, e, RelationKind::UserInfo) is None);
                }
                assert(v.live_order.len() == 0);
                assert forall|e: Seq<char>|
                    #[trigger] v.live_order.contains(e) <==> (v.shards.dom().contains(e)
                        && v.shards[e].live) by {
                    assert(!v.live_order.contains(e));
                    assert(!v.shards.dom().contains(e));
                }
                assert(v.live_order.no_duplicates());
            }
        } else {
            {
                let c = self.fanin;
                assert forall|e: Seq<char>|
                    #[trigger] v.live_order.contains(e) <==> (v.shards.dom().contains(e)
                        && v.shards[e].live) by {
                    if v.live_order.contains(e) {
                        let j = choose|j: int|
                            0 <= j < v.live_order.len() && v.live_order[j] == e;
                        assert(self.parent_pair_ok(
                            c.user_parents@[j] as int,
                            c.answer_parents@[j] as int,
                        ));
                        let up = c.user_parents@[j];
                        assert(node_owner(self.nodes()[up as int]) == e);
                        assert(reg_node(s, e, RelationKind::UserInfo) == Some(up as nat));
                        assert(v.shards.dom().contains(e));
                        assert(v.shards[e] == self.shard_view(e));
                        assert(node_live(self.nodes()[up as int]));
                    }
                    if v.shards.dom().contains(e) && v.shards[e].live {
                        lemma_reg_node_index(s, e, RelationKind::UserInfo);
                        let i = choose|i: int|
                            0 <= i < s.len() && (#[trigger] s[i]).email@ == e && s[i].kind
                                == RelationKind::UserInfo && s[i].node as nat == reg_node(
                                s,
                                e,
                                RelationKind::UserInfo,
                            )->0;
                        assert(v.shards[e] == self.shard_view(e));
                        assert(node_live(self.nodes()[s[i].node as int]));
                        assert(c.user_parents@.contains(s[i].node));
                        let j = choose|j: int|
                            0 <= j < c.user_parents@.len() && c.user_parents@[j] == s[i].node;
                        assert(self.entry_ok(i));
                        assert(v.live_order[j] == node_owner(self.nodes()[s[i].node as int]));
                        assert(v.live_order[j] == e);
                        assert(v.live_order.contains(e));
                    }
                }
                assert forall|j1: int, j2: int|
                    0 <= j1 < v.live_order.len() && 0 <= j2 < v.live_order.len() && j1 != j2
                    implies v.live_order[j1] != v.live_order[j2] by {
                    if j1 < j2 {
                        assert(node_owner(self.nodes()[c.user_parents@[j1] as int]) != node_owner(
                            self.nodes()[c.user_parents@[j2] as int],
                        ));
                    } else {
                        assert(node_owner(self.nodes()[c.user_parents@[j2] as int]) != node_owner(
                            self.nodes()[c.user_parents@[j1] as int],
                        ));
                    }
                }
                assert(v.live_order.no_duplicates());
            }
        }
        assert forall|e: Seq<char>| #[trigger] v.shards.dom().contains(e) implies v.union_user is Some by {
            assert(reg_has(s, e, RelationKind::UserInfo));
            lemma_reg_node_index(s, e, RelationKind::UserInfo);
            assert(s.len() > 0);
        }
    }

    /// After either migration path has run, the invariant holds again
    /// and the state is exactly what the model's transition gives.
    proof fn lemma_provision_establishes(
        self,
        m0: ShardManager,
        e: Seq<char>,
        credv: Seq<char>,
        staff: bool,
        mask: u8,
        un: usize,
        an: usize,
    )
        requires
            m0.inv(),
            !reg_has(m0.entries(), e, RelationKind::UserInfo),
            !reg_has(m0.entries(), e, RelationKind::Answers),
            mask == crate::perm::spec_mask_for(staff, m0.default_mask),
            crate::perm::core_live(mask),
            un as int == m0.nodes().len(),
            an as int == m0.nodes().len() + 1,
            self.entries().len() == m0.entries().len() + 2,
            forall|i: int| 0 <= i < m0.entries().len() ==> self.entries()[i] == m0.entries()[i],
            self.entries()[m0.entries().len() as int].email@ == e,
            self.entries()[m0.entries().len() as int].kind == RelationKind::UserInfo,
            self.entries()[m0.entries().len() as int].node == un,
            self.entries()[m0.entries().len() as int + 1].email@ == e,
            self.entries()[m0.entries().len() as int + 1].kind == RelationKind::Answers,
            self.entries()[m0.entries().len() as int + 1].node == an,
            self.nodes().len() == m0.nodes().len() + (if m0.fanin.bootstrapped {
                crate::model::extension_node_count()
            } else {
                crate::model::bootstrap_node_count()
            }),
            forall|i: int|
                0 <= i < m0.nodes().len() && ((#[trigger] m0.nodes()[i]) is UserBase
                    || m0.nodes()[i] is AnswerBase) ==> self.nodes()[i] == m0.nodes()[i],
            self.nodes()[un as int] is UserBase,
            node_owner(self.nodes()[un as int]) == e,
            node_live(self.nodes()[un as int]),
            node_mask(self.nodes()[un as int]) == mask,
            node_user_rows(self.nodes()[un as int]) == seq![
                crate::rows::UserRowV { email: e, credential: credv, is_admin: staff, mask },
            ],
            self.nodes()[an as int] is AnswerBase,
            node_owner(self.nodes()[an as int]) == e,
            node_live(self.nodes()[an as int]),
            node_mask(self.nodes()[an as int]) == mask,
            node_answer_rows(self.nodes()[an as int]) == Seq::<crate::rows::AnswerRowV>::empty(),
            self.fanin.bootstrapped,
            m0.fanin.bootstrapped ==> {
                &&& self.fanin.user_union == m0.fanin.user_union
                &&& self.fanin.answer_union == m0.fanin.answer_union
                &&& self.fanin.user_parents@ == m0.fanin.user_parents@.push(un)
                &&& self.fanin.answer_parents@ == m0.fanin.answer_parents@.push(an)
            },
            !m0.fanin.bootstrapped ==> {
                &&& self.fanin.user_union as int == m0.nodes().len() + 2
                &&& self.fanin.answer_union as int == m0.nodes().len() + 3
                &&& self.fanin.user_parents@ == seq![un]
                &&& self.fanin.answer_parents@ == seq![an]
            },
            (self.fanin.user_union as int) < self.nodes().len(),
            (self.fanin.answer_union as int) < self.nodes().len(),
            self.nodes()[self.fanin.user_union as int] is UnionNode,
            self.nodes()[self.fanin.answer_union as int] is UnionNode,
            node_parents(self.nodes()[self.fanin.user_union as int]) == self.fanin.user_parents@,
            node_parents(self.nodes()[self.fanin.answer_union as int])
                == self.fanin.answer_parents@,
            self.prints == m0.prints,
            self.secret == m0.secret,
            self.default_mask == m0.default_mask,
        ensures
            self.inv(),
            self@ == crate::model::spec_provision(m0@, e, credv, staff),
    {
        let s0 = m0.entries();
        let n0e = s0.len() as int;
        let n0 = m0.nodes().len() as int;
        lemma_provision_frame(m0, self, e);
        assert forall|i: int| 0 <= i < self.entries().len() implies self.entry_ok(i) by {
            if i < n0e {
                assert(m0.entry_ok(i));
            }
        }
        assert forall|i: int, j: int| 0 <= i < j < self.entries().len() implies (
        #[trigger] self.entries()[i]).node != (#[trigger] self.entries()[j]).node by {
            if j < n0e {
            } else if i < n0e {
                assert(m0.entry_ok(i));
                assert(m0.entries()[i].node < n0);
            }
        }
        assert forall|e1: Seq<char>|
            #[trigger] reg_has(self.entries(), e1, RelationKind::UserInfo) <==> reg_has(
                self.entries(),
                e1,
                RelationKind::Answers,
            ) by {
            if e1 != e {
                assert(reg_node(self.entries(), e1, RelationKind::UserInfo) == reg_node(
                    s0,
                    e1,
                    RelationKind::UserInfo,
                ));
                assert(reg_node(self.entries(), e1, RelationKind::Answers) == reg_node(
                    s0,
                    e1,
                    RelationKind::Answers,
                ));
                assert(reg_has(s0, e1, RelationKind::UserInfo) == reg_has(
                    s0,
                    e1,
                    RelationKind::Answers,
                ));
            } else {
                assert(reg_node(self.entries(), e, RelationKind::UserInfo) is Some);
                assert(reg_node(self.entries(), e, RelationKind::Answers) is Some);
            }
        }
        assert forall|i: int, j: int|
            0 <= i < self.entries().len() && 0 <= j < self.entries().len() && (
            #[trigger] self.entries()[i]).email@ == (#[trigger] self.entries()[j]).email@
                && self.entries()[i].kind == RelationKind::UserInfo && self.entries()[j].kind
                == RelationKind::Answers implies node_live(
            self.nodes()[self.entries()[i].node as int],
        ) == node_live(self.nodes()[self.entries()[j].node as int]) by {
            if i < n0e && j < n0e {
                assert(m0.entry_ok(i));
                assert(m0.entry_ok(j));
                assert(self.nodes()[m0.entries()[i].node as int] == m0.nodes()[m0.entries()[i].node as int]);
                assert(self.nodes()[m0.entries()[j].node as int] == m0.nodes()[m0.entries()[j].node as int]);
            } else if i < n0e {
                assert(m0.entries()[i].email@ != e);
            } else if j < n0e {
                assert(m0.entries()[j].email@ != e);
            }
        }
        let f = self.fanin;
        let plen = f.user_parents@.len() as int;
        assert forall|j: int| 0 <= j < plen implies self.parent_pair_ok(
            (#[trigger] f.user_parents@[j]) as int,
            f.answer_parents@[j] as int,
        ) by {
            if m0.fanin.bootstrapped && j < plen - 1 {
                let up = m0.fanin.user_parents@[j] as int;
                let ap = m0.fanin.answer_parents@[j] as int;
                assert(m0.parent_pair_ok(up, ap));
                assert(self.nodes()[up] == m0.nodes()[up]);
                assert(self.nodes()[ap] == m0.nodes()[ap]);
                let owner = node_owner(m0.nodes()[up]);
                assert(reg_has(m0.entries(), owner, RelationKind::UserInfo));
                assert(owner != e);
                assert(f.user_parents@[j] == m0.fanin.user_parents@[j]);
                assert(f.answer_parents@[j] == m0.fanin.answer_parents@[j]);
            } else {
                assert(f.user_parents@[j] == un);
                assert(f.answer_parents@[j] == an);
            }
        }
        assert forall|j1: int, j2: int| 0 <= j1 < j2 < plen implies node_owner(
            self.nodes()[(#[trigger] f.user_parents@[j1]) as int],
        ) != node_owner(self.nodes()[(#[trigger] f.user_parents@[j2]) as int]) by {
            if m0.fanin.bootstrapped && j2 < plen - 1 {
                let up1 = m0.fanin.user_parents@[j1] as int;
                let up2 = m0.fanin.user_parents@[j2] as int;
                assert(m0.parent_pair_ok(up1, m0.fanin.answer_parents@[j1] as int));
                assert(m0.parent_pair_ok(up2, m0.fanin.answer_parents@[j2] as int));
                assert(self.nodes()[up1] == m0.nodes()[up1]);
                assert(self.nodes()[up2] == m0.nodes()[up2]);
                assert(node_owner(m0.nodes()[up1]) != node_owner(m0.nodes()[up2]));
            } else if m0.fanin.bootstrapped {
                let up1 = m0.fanin.user_parents@[j1] as int;
                assert(m0.parent_pair_ok(up1, m0.fanin.answer_parents@[j1] as int));
                assert(self.nodes()[up1] == m0.nodes()[up1]);
                let owner = node_owner(m0.nodes()[up1]);
                assert(reg_has(m0.entries(), owner, RelationKind::UserInfo));
                assert(owner != e);
                assert(f.user_parents@[j2] == un);
            }
        }
        assert forall|i: int|
            0 <= i < self.entries().len() && (#[trigger] self.entries()[i]).kind
                == RelationKind::UserInfo && node_live(self.nodes()[self.entries()[i].node as int])
            implies f.user_parents@.contains(self.entries()[i].node) by {
            if i < n0e {
                assert(m0.entry_ok(i));
                assert(self.nodes()[m0.entries()[i].node as int] == m0.nodes()[m0.entries()[i].node as int]);
                assert(m0.fanin.user_parents@.contains(m0.entries()[i].node));
                let j = choose|j: int|
                    0 <= j < m0.fanin.user_parents@.len() && m0.fanin.user_parents@[j]
                        == m0.entries()[i].node;
                assert(f.user_parents@[j] == m0.entries()[i].node);
            } else if i == n0e {
                assert(f.user_parents@[plen - 1] == un);
            }
        }
        assert(self.core_ok());
        assert(self.inv());
        let v0 = m0@;
        let v2 = self@;
        let sv_t = crate::model::spec_new_shard(e, credv, staff, mask, n0 as nat, (n0 + 1) as nat);
        assert(self.shard_view(e) =~~= sv_t);
        assert forall|e1: Seq<char>| #[trigger] v2.shards.dom().contains(e1) <==> v0.shards.dom().contains(e1)
            || e1 == e by {
            if e1 != e {
                assert(reg_node(self.entries(), e1, RelationKind::UserInfo) == reg_node(
                    s0,
                    e1,
                    RelationKind::UserInfo,
                ));
            }
        }
        assert(v2.shards =~~= v0.shards.insert(e, sv_t)) by {
            assert forall|e1: Seq<char>| #[trigger] v2.shards.dom().contains(e1) implies v2.shards[e1]
                == v0.shards.insert(e, sv_t)[e1] by {
                if e1 == e {
                    assert(v2.shards[e1] == self.shard_view(e));
                } else {
                    assert(reg_has(s0, e1, RelationKind::UserInfo));
                    assert(self.shard_view(e1) == m0.shard_view(e1));
                }
            }
        }
        assert(v2.live_order =~= v0.live_order.push(e)) by {
            if m0.fanin.bootstrapped {
                assert(v0.live_order.len() == plen - 1);
                assert forall|j: int| 0 <= j < plen - 1 implies v2.live_order[j] == v0.live_order[j] by {
                    let up = m0.fanin.user_parents@[j] as int;
                    assert(m0.parent_pair_ok(up, m0.fanin.answer_parents@[j] as int));
                    assert(self.nodes()[up] == m0.nodes()[up]);
                }
                assert(v2.live_order[plen - 1] == e);
            } else {
                assert(v2.live_order.len() == 1);
                assert(v2.live_order[0] == node_owner(self.nodes()[un as int]));
                assert(v0.live_order.len() == 0);
            }
        }
        assert(v2.prints =~~= v0.prints) by {
            assert(self.prints@ == m0.prints@);
        }
        assert(v2 =~~= crate::model::spec_provision(v0, e, credv, staff));
    }

    /// Creates a principal's shard: its two base relations, its scoped
    /// view, and — for the first shard ever — the class-wide unions and
    /// maintained views; then seeds the identity row.  Both the
    /// bootstrap and the extension path land in the steady state that
    /// [`crate::model::spec_provision`] describes.
    pub fn provision_shard(&mut self, email: String, credential: String, is_staff: bool) -> (r:
        Result<ShardHandle, ShardError>)
        requires
            old(self).inv(),
        ensures
            final(self).inv(),
            final(self)@ == crate::model::spec_provision(
                old(self)@,
                email@,
                credential@,
                is_staff,
            ),
            match r {
                Err(err) => {
                    &&& err == ShardError::DuplicateShard
                    &&& crate::model::shard_exists(old(self)@, email@)
                    &&& *final(self) == *old(self)
                },
                Ok(h) => {
                    &&& !crate::model::shard_exists(old(self)@, email@)
                    &&& h.user_node as nat == old(self)@.next_node
                    &&& h.answers_node as nat == old(self)@.next_node + 1
                },
            },
    {
        let ghost e = email@;
        let ghost credv = credential@;
        let ghost m0 = *self;
        match self.registry.lookup(&email, RelationKind::UserInfo) {
            Some(_) => {
                proof {
                    assert(reg_has(self.entries(), e, RelationKind::UserInfo));
                    assert(crate::model::shard_exists(self@, e));
                }
                return Err(ShardError::DuplicateShard);
            },
            None => {},
        }
        proof {
            assert(!reg_has(m0.entries(), e, RelationKind::UserInfo));
            assert(!reg_has(m0.entries(), e, RelationKind::Answers));
            assert(!crate::model::shard_exists(m0@, e));
        }
        let mask = crate::perm::mask_for(is_staff, self.default_mask);
        let mut urows: Vec<UserRow> = Vec::new();
        urows.push(UserRow { email: email.clone(), credential, is_admin: is_staff, mask });
        let un = self.graph.add_node(
            Node::UserBase { owner: email.clone(), live: true, mask, rows: urows },
        );
        let an = self.graph.add_node(
            Node::AnswerBase { owner: email.clone(), live: true, mask, rows: Vec::new() },
        );
        if !self.fanin.bootstrapped {
            let mut upg: Vec<usize> = Vec::new();
            upg.push(un);
            let mut apg: Vec<usize> = Vec::new();
            apg.push(an);
            let ghost upgv = upg@;
            let ghost apgv = apg@;
            let uu = self.graph.add_node(
                Node::UnionNode { kind: RelationKind::UserInfo, parents: upg },
            );
            let au = self.graph.add_node(
                Node::UnionNode { kind: RelationKind::Answers, parents: apg },
            );
            let roster = self.graph.add_node(
                Node::AggregateView { kind: RelationKind::UserInfo, src: uu },
            );
            let ansv = self.graph.add_node(
                Node::AggregateView { kind: RelationKind::Answers, src: au },
            );
            let faq = self.graph.add_node(
                Node::GatedView { gate_bit: crate::perm::MASK_ANSWERS_VISIBLE, src: au },
            );
            let research = self.graph.add_node(
                Node::GatedView { gate_bit: crate::perm::MASK_RESEARCH, src: au },
            );
            let _scoped = self.graph.add_node(Node::ScopedView { owner_base: an });
            self.registry.insert_new(email.clone(), RelationKind::UserInfo, un);
            self.registry.insert_new(email, RelationKind::Answers, an);
            let mut ups: Vec<usize> = Vec::new();
            ups.push(un);
            let mut aps: Vec<usize> = Vec::new();
            aps.push(an);
            self.fanin = UnionFanIn {
                bootstrapped: true,
                user_union: uu,
                answer_union: au,
                user_parents: ups,
                answer_parents: aps,
                roster_view: roster,
                answers_view: ansv,
                faq_view: faq,
                research_view: research,
            };
            proof {
                assert(node_parents(self.nodes()[self.fanin.user_union as int]) == upgv);
                assert(node_parents(self.nodes()[self.fanin.answer_union as int]) == apgv);
                assert(upgv =~= self.fanin.user_parents@);
                assert(apgv =~= self.fanin.answer_parents@);
                assert(node_user_rows(self.nodes()[un as int]) =~= seq![
                    crate::rows::UserRowV {
                        email: e,
                        credential: credv,
                        is_admin: is_staff,
                        mask,
                    },
                ]);
                assert(node_answer_rows(self.nodes()[an as int])
                    =~= Seq::<crate::rows::AnswerRowV>::empty());
                self.lemma_provision_establishes(m0, e, credv, is_staff, mask, un, an);
            }
            Ok(ShardHandle { user_node: un, answers_node: an })
        } else {
            let _scoped = self.graph.add_node(Node::ScopedView { owner_base: an });
            self.registry.insert_new(email.clone(), RelationKind::UserInfo, un);
            self.registry.insert_new(email, RelationKind::Answers, an);
            proof {
                assert forall|j: int|
                    0 <= j < self.fanin.user_parents@.len() implies (
                #[trigger] self.fanin.user_parents@[j]) != un by {
                    assert(m0.parent_pair_ok(
                        m0.fanin.user_parents@[j] as int,
                        m0.fanin.answer_parents@[j] as int,
                    ));
                }
                assert(!self.fanin.user_parents@.contains(un));
                assert forall|j: int|
                    0 <= j < self.fanin.answer_parents@.len() implies (
                #[trigger] self.fanin.answer_parents@[j]) != an by {
                    assert(m0.parent_pair_ok(
                        m0.fanin.user_parents@[j] as int,
                        m0.fanin.answer_parents@[j] as int,
                    ));
                }
                assert(!self.fanin.answer_parents@.contains(an));
            }
            match crate::fanin::attach_parent(&mut self.fanin.user_parents, un) {
                Err(_) => {
                    proof {
                        assert(false);
                    }
                    return Err(ShardError::MigrationFailure);
                },
                Ok(_) => {},
            }
            match crate::fanin::attach_parent(&mut self.fanin.answer_parents, an) {
                Err(_) => {
                    proof {
                        assert(false);
                    }
                    return Err(ShardError::MigrationFailure);
                },
                Ok(_) => {},
            }
            self.graph.push_union_parent(self.fanin.user_union, un);
            self.graph.push_union_parent(self.fanin.answer_union, an);
            proof {
                assert(node_parents(self.nodes()[self.fanin.user_union as int])
                    =~= self.fanin.user_parents@);
                assert(node_parents(self.nodes()[self.fanin.answer_union as int])
                    =~= self.fanin.answer_parents@);
                assert(node_user_rows(self.nodes()[un as int]) =~= seq![
                    crate::rows::UserRowV {
                        email: e,
                        credential: credv,
                        is_admin: is_staff,
                        mask,
                    },
                ]);
                assert(node_answer_rows(self.nodes()[an as int])
                    =~= Seq::<crate::rows::AnswerRowV>::empty());
                self.lemma_provision_establishes(m0, e, credv, is_staff, mask, un, an);
            }
            Ok(ShardHandle { user_node: un, answers_node: an })
        }
    }

    /// After one answers relation's rows change, with its owner,
    /// liveness and mask untouched, the state is the old one with that
    /// one shard's rows swapped.
    proof fn lemma_rows_update_establishes(
        self,
        m0: ShardManager,
        e: Seq<char>,
        an: int,
        rows2: Seq<crate::rows::AnswerRowV>,
    )
        requires
            m0.inv(),
            reg_has(m0.entries(), e, RelationKind::UserInfo),
            reg_node(m0.entries(), e, RelationKind::Answers) == Some(an as nat),
            0 <= an < m0.nodes().len(),
            self.registry == m0.registry,
            self.fanin == m0.fanin,
            self.prints == m0.prints,
            self.secret == m0.secret,
            self.default_mask == m0.default_mask,
            self.nodes().len() == m0.nodes().len(),
            forall|i: int| 0 <= i < m0.nodes().len() && i != an ==> self.nodes()[i] == m0.nodes()[i],
            self.nodes()[an] is AnswerBase,
            node_owner(self.nodes()[an]) == node_owner(m0.nodes()[an]),
            node_live(self.nodes()[an]) == node_live(m0.nodes()[an]),
            node_mask(self.nodes()[an]) == node_mask(m0.nodes()[an]),
            node_answer_rows(self.nodes()[an]) == rows2,
            answer_rows_owned_by(rows2, e),
            answer_keys_unique(rows2),
        ensures
            self.inv(),
            self@ == (ManagerView {
                shards: m0@.shards.insert(e, ShardV { ans_rows: rows2, ..m0.shard_view(e) }),
                ..m0@
            }),
    {
        let s = m0.entries();
        lemma_reg_node_index(s, e, RelationKind::Answers);
        let ie = choose|i: int|
            0 <= i < s.len() && (#[trigger] s[i]).email@ == e && s[i].kind == RelationKind::Answers
                && s[i].node as nat == reg_node(s, e, RelationKind::Answers)->0;
        assert(m0.entry_ok(ie));
        assert(s[ie].node == an);
        assert forall|i: int| 0 <= i < s.len() && i != ie implies (#[trigger] s[i]).node != an by {
            if i < ie {
                assert(s[i].node != s[ie].node);
            } else {
                assert(s[ie].node != s[i].node);
            }
        }
        assert forall|i: int| 0 <= i < s.len() implies self.entry_ok(i) by {
            assert(m0.entry_ok(i));
            if i != ie {
                assert(self.nodes()[s[i].node as int] == m0.nodes()[s[i].node as int]);
            }
        }
        assert forall|i: int, j: int|
            0 <= i < s.len() && 0 <= j < s.len() && (#[trigger] s[i]).email@ == (
            #[trigger] s[j]).email@ && s[i].kind == RelationKind::UserInfo && s[j].kind
                == RelationKind::Answers implies node_live(self.nodes()[s[i].node as int])
            == node_live(self.nodes()[s[j].node as int]) by {
            assert(m0.entry_ok(i));
            assert(m0.entry_ok(j));
            if s[i].node as int != an {
                assert(self.nodes()[s[i].node as int] == m0.nodes()[s[i].node as int]);
            }
            if s[j].node as int != an {
                assert(self.nodes()[s[j].node as int] == m0.nodes()[s[j].node as int]);
            }
        }
        let f = self.fanin;
        if f.bootstrapped {
            assert(m0.core_ok());
            assert(m0.nodes()[f.user_union as int] is UnionNode);
            assert(f.user_union as int != an);
            assert(f.answer_union as int != an);
            assert forall|j: int| 0 <= j < f.user_parents@.len() implies self.parent_pair_ok(
                (#[trigger] f.user_parents@[j]) as int,
                f.answer_parents@[j] as int,
            ) by {
                let up = f.user_parents@[j] as int;
                let ap = f.answer_parents@[j] as int;
                assert(m0.parent_pair_ok(up, ap));
                if up != an {
                    assert(self.nodes()[up] == m0.nodes()[up]);
                }
                if ap != an {
                    assert(self.nodes()[ap] == m0.nodes()[ap]);
                }
            }
            assert forall|j1: int, j2: int| 0 <= j1 < j2 < f.user_parents@.len() implies node_owner(
                self.nodes()[(#[trigger] f.user_parents@[j1]) as int],
            ) != node_owner(self.nodes()[(#[trigger] f.user_parents@[j2]) as int]) by {
                let u1 = f.user_parents@[j1] as int;
                let u2 = f.user_parents@[j2] as int;
                assert(m0.parent_pair_ok(u1, f.answer_parents@[j1] as int));
                assert(m0.parent_pair_ok(u2, f.answer_parents@[j2] as int));
                if u1 != an {
                    assert(self.nodes()[u1] == m0.nodes()[u1]);
                }
                if u2 != an {
                    assert(self.nodes()[u2] == m0.nodes()[u2]);
                }
            }
            assert forall|i: int|
                0 <= i < s.len() && (#[trigger] s[i]).kind == RelationKind::UserInfo && node_live(
                    self.nodes()[s[i].node as int],
                ) implies f.user_parents@.contains(s[i].node) by {
                assert(m0.entry_ok(i));
                if s[i].node as int != an {
                    assert(self.nodes()[s[i].node as int] == m0.nodes()[s[i].node as int]);
                }
            }
            assert(self.core_ok());
        }
        assert(self.inv());
        let v0 = m0@;
        let v2 = self@;
        assert forall|e1: Seq<char>|
            e1 != e && #[trigger] reg_has(s, e1, RelationKind::UserInfo) implies self.shard_view(e1)
            == m0.shard_view(e1) by {
            lemma_reg_node_index(s, e1, RelationKind::UserInfo);
            assert(reg_has(s, e1, RelationKind::Answers));
            lemma_reg_node_index(s, e1, RelationKind::Answers);
            let i1 = choose|i: int|
                0 <= i < s.len() && (#[trigger] s[i]).email@ == e1 && s[i].kind
                    == RelationKind::UserInfo && s[i].node as nat == reg_node(
                    s,
                    e1,
                    RelationKind::UserInfo,
                )->0;
            let j1 = choose|i: int|
                0 <= i < s.len() && (#[trigger] s[i]).email@ == e1 && s[i].kind
                    == RelationKind::Answers && s[i].node as nat == reg_node(
                    s,
                    e1,
                    RelationKind::Answers,
                )->0;
            assert(m0.entry_ok(i1));
            assert(m0.entry_ok(j1));
            assert(i1 != ie);
            assert(j1 != ie);
            assert(self.nodes()[s[i1].node as int] == m0.nodes()[s[i1].node as int]);
            assert(self.nodes()[s[j1].node as int] == m0.nodes()[s[j1].node as int]);
        }
        assert(self.shard_view(e) =~~= ShardV { ans_rows: rows2, ..m0.shard_view(e) }) by {
            lemma_reg_node_index(s, e, RelationKind::UserInfo);
            let i1 = choose|i: int|
                0 <= i < s.len() && (#[trigger] s[i]).email@ == e && s[i].kind
                    == RelationKind::UserInfo && s[i].node as nat == reg_node(
                    s,
                    e,
                    RelationKind::UserInfo,
                )->0;
            assert(m0.entry_ok(i1));
            assert(i1 != ie);
            assert(self.nodes()[s[i1].node as int] == m0.nodes()[s[i1].node as int]);
        }
        assert(v2.shards =~~= v0.shards.insert(e, ShardV { ans_rows: rows2, ..m0.shard_view(e) }))
            by {
            assert forall|e1: Seq<char>| #[trigger] v2.shards.dom().contains(e1) implies v2.shards[e1]
                == v0.shards.insert(e, ShardV { ans_rows: rows2, ..m0.shard_view(e) })[e1] by {
                if e1 != e {
                    assert(self.shard_view(e1) == m0.shard_view(e1));
                }
            }
        }
        assert(v2.live_order =~= v0.live_order) by {
            if f.bootstrapped {
                assert forall|j: int| 0 <= j < f.user_parents@.len() implies node_owner(
                    self.nodes()[(#[trigger] f.user_parents@[j]) as int],
                ) == node_owner(m0.nodes()[f.user_parents@[j] as int]) by {
                    if f.user_parents@[j] as int != an {
                        assert(self.nodes()[f.user_parents@[j] as int] == m0.nodes()[f.user_parents@[j] as int]);
                    }
                }
            }
        }
        assert(v2.prints =~~= v0.prints);
        assert(v2 =~~= ManagerView {
            shards: v0.shards.insert(e, ShardV { ans_rows: rows2, ..m0.shard_view(e) }),
            ..v0
        });
    }

    /// Accepts one submission into a live shard's answers relation,
    /// escaping the text and upserting by `(lecture, question)`.
    pub fn submit_answer(
        &mut self,
        email: &String,
        lecture: u64,
        question: u64,
        text: &str,
        submitted_at: u64,
    ) -> (r: Result<(), ShardError>)
        requires
            old(self).inv(),
        ensures
            final(self).inv(),
            final(self)@ == crate::model::spec_submit(
                old(self)@,
                email@,
                lecture,
                question,
                text@,
                submitted_at,
            ),
            match r {
                Ok(u) => crate::model::spec_can_write(old(self)@, email@),
                Err(err) => {
                    &&& err == ShardError::UnknownShard
                    &&& !crate::model::spec_can_write(old(self)@, email@)
                    &&& *final(self) == *old(self)
                },
            },
    {
        let ghost m0 = *self;
        let ghost e = email@;
        let an = match self.registry.lookup(email, RelationKind::Answers) {
            None => {
                proof {
                    assert(!reg_has(self.entries(), e, RelationKind::Answers));
                    assert(!reg_has(self.entries(), e, RelationKind::UserInfo));
                    assert(!crate::model::shard_exists(self@, e));
                }
                return Err(ShardError::UnknownShard);
            },
            Some(an) => an,
        };
        proof {
            lemma_reg_node_index(self.entries(), e, RelationKind::Answers);
            let ie = choose|i: int|
                0 <= i < self.entries().len() && (#[trigger] self.entries()[i]).email@ == e
                    && self.entries()[i].kind == RelationKind::Answers && self.entries()[i].node as nat
                    == reg_node(self.entries(), e, RelationKind::Answers)->0;
            assert(self.entry_ok(ie));
            assert(self.entries()[ie].node == an);
        }
        if !self.graph.node_is_live(an) {
            proof {
                assert(reg_has(m0.entries(), e, RelationKind::UserInfo));
                assert(crate::model::shard_exists(m0@, e));
                assert(m0@.shards[e] == m0.shard_view(e));
                lemma_reg_node_index(m0.entries(), e, RelationKind::UserInfo);
                let iu = choose|i: int|
                    0 <= i < m0.entries().len() && (#[trigger] m0.entries()[i]).email@ == e
                        && m0.entries()[i].kind == RelationKind::UserInfo
                        && m0.entries()[i].node as nat == reg_node(
                        m0.entries(),
                        e,
                        RelationKind::UserInfo,
                    )->0;
                assert(m0.entry_ok(iu));
                assert(node_live(m0.nodes()[m0.entries()[iu].node as int]) == node_live(
                    m0.nodes()[an as int],
                ));
                assert(!m0.shard_view(e).live);
                assert(!crate::model::spec_can_write(m0@, e));
            }
            return Err(ShardError::UnknownShard);
        }
        let node = self.graph.nodes.remove(an);
        match node {
            Node::AnswerBase { owner, live, mask, mut rows } => {
                let row = crate::rows::AnswerRow {
                    email: email.clone(),
                    lecture,
                    question,
                    text: crate::text::escape(text),
                    submitted_at,
                };
                let ghost rows0 = rows.deep_view();
                proof {
                    assert(rows0 == node_answer_rows(m0.nodes()[an as int]));
                    assert(answer_keys_unique(rows0));
                }
                upsert_row(&mut rows, row);
                let ghost rows2 = rows.deep_view();
                self.graph.nodes.insert(an, Node::AnswerBase { owner, live, mask, rows });
                proof {
                    assert(self.graph.nodes@ =~= m0.graph.nodes@.update(
                        an as int,
                        self.graph.nodes@[an as int],
                    ));
                    crate::model::lemma_upsert_props(
                        rows0,
                        crate::model::spec_submitted_row(e, lecture, question, text@, submitted_at),
                        e,
                    );
                    assert(row.deep_view() == crate::model::spec_submitted_row(
                        e,
                        lecture,
                        question,
                        text@,
                        submitted_at,
                    ));
                    self.lemma_rows_update_establishes(m0, e, an as int, rows2);
                    assert(crate::model::spec_can_write(m0@, e)) by {
                        lemma_reg_node_index(m0.entries(), e, RelationKind::UserInfo);
                        let iu = choose|i: int|
                            0 <= i < m0.entries().len() && (#[trigger] m0.entries()[i]).email@ == e
                                && m0.entries()[i].kind == RelationKind::UserInfo
                                && m0.entries()[i].node as nat == reg_node(
                                m0.entries(),
                                e,
                                RelationKind::UserInfo,
                            )->0;
                        assert(m0.entry_ok(iu));
                        assert(node_live(m0.nodes()[m0.entries()[iu].node as int]) == node_live(
                            m0.nodes()[an as int],
                        ));
                    }
                    assert(self@ =~~= crate::model::spec_submit(
                        m0@,
                        e,
                        lecture,
                        question,
                        text@,
                        submitted_at,
                    ));
                }
                Ok(())
            },
            _ => {
                proof {
                    assert(false);
                }
                self.graph.nodes.insert(an, node);
                Err(ShardError::UnknownShard)
            },
        }
    }

    /// When only the fingerprint store changed, everything else the
    /// abstract state shows is as before.
    proof fn lemma_prints_only_view(self, m0: ShardManager)
        requires
            m0.inv(),
            self.graph == m0.graph,
            self.registry == m0.registry,
            self.fanin == m0.fanin,
            self.secret == m0.secret,
            self.default_mask == m0.default_mask,
        ensures
            self.inv_registry(),
            self.inv_fanin(),
            self@.shards == m0@.shards,
            self@.live_order == m0@.live_order,
            self@.next_node == m0@.next_node,
            self@.union_user == m0@.union_user,
            self@.union_ans == m0@.union_ans,
            self@.secret == m0@.secret,
            self@.default_mask == m0@.default_mask,
    {
        assert(self@.shards =~~= m0@.shards) by {
            assert forall|e: Seq<char>| #[trigger] self@.shards.dom().contains(e) implies self@.shards[e]
                == m0@.shards[e] by {
                assert(self.shard_view(e) =~~= m0.shard_view(e));
            }
        }
        assert(self@.live_order =~= m0@.live_order);
        assert forall|i: int| 0 <= i < self.entries().len() implies self.entry_ok(i)
            == m0.entry_ok(i) by {}
        assert(self.inv_registry());
        if self.fanin.bootstrapped {
            assert forall|j: int| 0 <= j < self.fanin.user_parents@.len() implies self.parent_pair_ok(
                (#[trigger] self.fanin.user_parents@[j]) as int,
                self.fanin.answer_parents@[j] as int,
            ) by {
                assert(m0.parent_pair_ok(
                    m0.fanin.user_parents@[j] as int,
                    m0.fanin.answer_parents@[j] as int,
                ));
            }
            assert(self.core_ok());
        }
        assert(self.inv_fanin());
    }

    /// Reads a shard's relations through the export codec, stores the
    /// blob's keyed fingerprint under the shard's credential, and hands
    /// the blob back.
    pub fn export_shard(&mut self, email: &String) -> (r: Result<Vec<u8>, ShardError>)
        requires
            old(self).inv(),
        ensures
            final(self).inv(),
            final(self)@ == crate::model::spec_export(old(self)@, email@),
            match r {
                Ok(blob) => {
                    &&& crate::model::shard_exists(old(self)@, email@)
                    &&& blob@ == crate::model::spec_export_blob(old(self)@, email@)
                },
                Err(err) => {
                    &&& err == ShardError::UnknownShard
                    &&& !crate::model::shard_exists(old(self)@, email@)
                    &&& *final(self) == *old(self)
                },
            },
    {
        let ghost m0 = *self;
        let ghost e = email@;
        let un = match self.registry.lookup(email, RelationKind::UserInfo) {
            None => {
                proof {
                    assert(!crate::model::shard_exists(self@, e));
                }
                return Err(ShardError::UnknownShard);
            },
            Some(u) => u,
        };
        let an = match self.registry.lookup(email, RelationKind::Answers) {
            None => {
                proof {
                    assert(false);
                }
                return Err(ShardError::UnknownShard);
            },
            Some(a) => a,
        };
        proof {
            lemma_reg_node_index(self.entries(), e, RelationKind::UserInfo);
            lemma_reg_node_index(self.entries(), e, RelationKind::Answers);
            let iu = choose|i: int|
                0 <= i < self.entries().len() && (#[trigger] self.entries()[i]).email@ == e
                    && self.entries()[i].kind == RelationKind::UserInfo
                    && self.entries()[i].node as nat == reg_node(
                    self.entries(),
                    e,
                    RelationKind::UserInfo,
                )->0;
            let ia = choose|i: int|
                0 <= i < self.entries().len() && (#[trigger] self.entries()[i]).email@ == e
                    && self.entries()[i].kind == RelationKind::Answers
                    && self.entries()[i].node as nat == reg_node(
                    self.entries(),
                    e,
                    RelationKind::Answers,
                )->0;
            assert(self.entry_ok(iu));
            assert(self.entry_ok(ia));
        }
        let urows = match self.graph.get_user_rows(un) {
            Some(rows) => rows,
            None => {
                proof {
                    assert(false);
                }
                return Err(ShardError::MigrationFailure);
            },
        };
        let arows = match self.graph.get_answer_rows(an) {
            Some(rows) => rows,
            None => {
                proof {
                    assert(false);
                }
                return Err(ShardError::MigrationFailure);
            },
        };
        let blob = crate::codec::serialize(urows, arows);
        let cred = urows[0].credential.clone();
        proof {
            assert(cred@ == m0.shard_view(e).credential());
            assert(blob@ == crate::model::spec_export_blob(m0@, e)) by {
                assert(m0@.shards[e] == m0.shard_view(e));
            }
        }
        let fp = crate::hash::fingerprint_for(&blob, &self.secret);
        let ghost credv = cred@;
        let ghost fpv = fp@;
        match fp_position(&self.prints, &cred) {
            Some(i) => {
                let ghost p0 = self.prints@;
                self.prints[i] = FpEntry { credential: cred, fingerprint: fp };
                proof {
                    assert(self.prints@ =~= p0.update(
                        i as int,
                        self.prints@[i as int],
                    ));
                    assert forall|c: Seq<char>| true implies fp_of(self.prints@, c) == (if p0[i as int].credential@
                        == c {
                        Some(fpv)
                    } else {
                        fp_of(p0, c)
                    }) by {
                        lemma_fp_of_update(
                            p0,
                            i as int,
                            self.prints@[i as int],
                            c,
                        );
                    }
                }
            },
            None => {
                let ghost p0 = self.prints@;
                self.prints.push(FpEntry { credential: cred, fingerprint: fp });
                proof {
                    assert forall|c: Seq<char>| true implies fp_of(self.prints@, c) == (if credv
                        == c {
                        Some(fpv)
                    } else {
                        fp_of(p0, c)
                    }) by {
                        lemma_fp_of_push(p0, self.prints@[p0.len() as int], c);
                        if fp_of(p0, c) is Some && c == credv {
                            assert(fp_of(p0, credv) is None);
                        }
                    }
                    assert forall|a: int, b: int| 0 <= a < b < self.prints@.len() implies (
                    #[trigger] self.prints@[a]).credential@ != (
                    #[trigger] self.prints@[b]).credential@ by {
                        if b == p0.len() as int {
                            if self.prints@[a].credential@ == credv {
                                crate::registry::lemma_reg_node_index(
                                    self.entries(),
                                    e,
                                    RelationKind::UserInfo,
                                );
                                assert(fp_of(p0, credv) is None);
                                lemma_fp_index(p0, a);
                            }
                        }
                    }
                }
            },
        }
        proof {
            self.lemma_prints_only_view(m0);
            assert(self@.prints =~~= m0@.prints.insert(credv, fpv));
            assert(self@ =~~= crate::model::spec_export(m0@, e));
        }
        Ok(blob)
    }

    /// After a retirement has unsubscribed one shard's relations and
    /// detached its union edges, the invariant holds again and the
    /// state is the retire transition's result.
    proof fn lemma_retire_establishes(
        self,
        m0: ShardManager,
        e: Seq<char>,
        un: usize,
        an: usize,
        j: int,
    )
        requires
            m0.inv(),
            m0.fanin.bootstrapped,
            reg_node(m0.entries(), e, RelationKind::UserInfo) == Some(un as nat),
            reg_node(m0.entries(), e, RelationKind::Answers) == Some(an as nat),
            node_live(m0.nodes()[un as int]),
            0 <= j < m0.fanin.user_parents@.len(),
            m0.fanin.user_parents@[j] == un,
            m0.fanin.answer_parents@[j] == an,
            self.registry == m0.registry,
            self.prints == m0.prints,
            self.secret == m0.secret,
            self.default_mask == m0.default_mask,
            self.fanin.bootstrapped,
            self.fanin.user_union == m0.fanin.user_union,
            self.fanin.answer_union == m0.fanin.answer_union,
            self.fanin.user_parents@ == m0.fanin.user_parents@.remove(j),
            self.fanin.answer_parents@ == m0.fanin.answer_parents@.remove(j),
            self.fanin.roster_view == m0.fanin.roster_view,
            self.fanin.answers_view == m0.fanin.answers_view,
            self.fanin.faq_view == m0.fanin.faq_view,
            self.fanin.research_view == m0.fanin.research_view,
            self.nodes().len() == m0.nodes().len(),
            forall|i: int|
                0 <= i < m0.nodes().len() && i != un && i != an && i
                    != m0.fanin.user_union as int && i != m0.fanin.answer_union as int
                    ==> self.nodes()[i] == m0.nodes()[i],
            self.nodes()[self.fanin.user_union as int] is UnionNode,
            node_parents(self.nodes()[self.fanin.user_union as int]) == self.fanin.user_parents@,
            self.nodes()[self.fanin.answer_union as int] is UnionNode,
            node_parents(self.nodes()[self.fanin.answer_union as int])
                == self.fanin.answer_parents@,
            self.nodes()[un as int] is UserBase,
            node_owner(self.nodes()[un as int]) == node_owner(m0.nodes()[un as int]),
            node_mask(self.nodes()[un as int]) == node_mask(m0.nodes()[un as int]),
            node_user_rows(self.nodes()[un as int]) == node_user_rows(m0.nodes()[un as int]),
            !node_live(self.nodes()[un as int]),
            self.nodes()[an as int] is AnswerBase,
            node_owner(self.nodes()[an as int]) == node_owner(m0.nodes()[an as int]),
            node_mask(self.nodes()[an as int]) == node_mask(m0.nodes()[an as int]),
            node_answer_rows(self.nodes()[an as int]) == node_answer_rows(m0.nodes()[an as int]),
            !node_live(self.nodes()[an as int]),
        ensures
            self.inv(),
            self@ == crate::model::spec_retire(m0@, e),
    {
        let s = m0.entries();
        let uu = m0.fanin.user_union as int;
        let au = m0.fanin.answer_union as int;
        lemma_reg_node_index(s, e, RelationKind::UserInfo);
        lemma_reg_node_index(s, e, RelationKind::Answers);
        let iu = choose|i: int|
            0 <= i < s.len() && (#[trigger] s[i]).email@ == e && s[i].kind
                == RelationKind::UserInfo && s[i].node as nat == reg_node(
                s,
                e,
                RelationKind::UserInfo,
            )->0;
        let ia = choose|i: int|
            0 <= i < s.len() && (#[trigger] s[i]).email@ == e && s[i].kind == RelationKind::Answers
                && s[i].node as nat == reg_node(s, e, RelationKind::Answers)->0;
        assert(m0.entry_ok(iu));
        assert(m0.entry_ok(ia));
        assert(m0.nodes()[uu] is UnionNode);
        assert(m0.nodes()[au] is UnionNode);
        assert forall|i: int| 0 <= i < s.len() && i != iu && i != ia implies (
        #[trigger] s[i]).node != un && s[i].node != an by {
            if i < iu {
                assert(s[i].node != s[iu].node);
            } else if i > iu {
                assert(s[iu].node != s[i].node);
            }
            if i < ia {
                assert(s[i].node != s[ia].node);
            } else if i > ia {
                assert(s[ia].node != s[i].node);
            }
        }
        assert forall|i: int| 0 <= i < s.len() implies self.entry_ok(i) by {
            assert(m0.entry_ok(i));
            if i != iu && i != ia {
                assert(s[i].node as int != uu && s[i].node as int != au);
                assert(self.nodes()[s[i].node as int] == m0.nodes()[s[i].node as int]);
            }
        }
        assert forall|i: int, k: int|
            0 <= i < s.len() && 0 <= k < s.len() && (#[trigger] s[i]).email@ == (
            #[trigger] s[k]).email@ && s[i].kind == RelationKind::UserInfo && s[k].kind
                == RelationKind::Answers implies node_live(self.nodes()[s[i].node as int])
            == node_live(self.nodes()[s[k].node as int]) by {
            assert(m0.entry_ok(i));
            assert(m0.entry_ok(k));
            if i == iu {
                assert(k == ia);
            } else {
                assert(i != iu && k != ia);
                assert(self.nodes()[s[i].node as int] == m0.nodes()[s[i].node as int]);
                assert(self.nodes()[s[k].node as int] == m0.nodes()[s[k].node as int]);
            }
        }
        let up0 = m0.fanin.user_parents@;
        let ap0 = m0.fanin.answer_parents@;
        let f = self.fanin;
        assert forall|j2: int| 0 <= j2 < f.user_parents@.len() implies self.parent_pair_ok(
            (#[trigger] f.user_parents@[j2]) as int,
            f.answer_parents@[j2] as int,
        ) by {
            let jo = if j2 < j {
                j2
            } else {
                j2 + 1
            };
            assert(f.user_parents@[j2] == up0[jo]);
            assert(f.answer_parents@[j2] == ap0[jo]);
            assert(m0.parent_pair_ok(up0[jo] as int, ap0[jo] as int));
            if jo < j {
                assert(node_owner(m0.nodes()[up0[jo] as int]) != node_owner(
                    m0.nodes()[up0[j] as int],
                ));
            } else {
                assert(node_owner(m0.nodes()[up0[j] as int]) != node_owner(
                    m0.nodes()[up0[jo] as int],
                ));
            }
            assert(up0[jo] != un);
            assert(ap0[jo] != an) by {
                if ap0[jo] == an {
                    assert(node_owner(m0.nodes()[up0[jo] as int]) == node_owner(
                        m0.nodes()[ap0[jo] as int],
                    ));
                    assert(node_owner(m0.nodes()[up0[j] as int]) == node_owner(
                        m0.nodes()[ap0[j] as int],
                    ));
                }
            }
            assert(self.nodes()[up0[jo] as int] == m0.nodes()[up0[jo] as int]);
            assert(self.nodes()[ap0[jo] as int] == m0.nodes()[ap0[jo] as int]);
        }
        assert forall|j1: int, j2: int| 0 <= j1 < j2 < f.user_parents@.len() implies node_owner(
            self.nodes()[(#[trigger] f.user_parents@[j1]) as int],
        ) != node_owner(self.nodes()[(#[trigger] f.user_parents@[j2]) as int]) by {
            let o1 = if j1 < j {
                j1
            } else {
                j1 + 1
            };
            let o2 = if j2 < j {
                j2
            } else {
                j2 + 1
            };
            assert(f.user_parents@[j1] == up0[o1]);
            assert(f.user_parents@[j2] == up0[o2]);
            assert(m0.parent_pair_ok(up0[o1] as int, ap0[o1] as int));
            assert(m0.parent_pair_ok(up0[o2] as int, ap0[o2] as int));
            assert(node_owner(m0.nodes()[up0[o1] as int]) != node_owner(
                m0.nodes()[up0[o2] as int],
            ));
            assert(up0[o1] != un && up0[o2] != un) by {
                if o1 < j {
                    assert(node_owner(m0.nodes()[up0[o1] as int]) != node_owner(
                        m0.nodes()[up0[j] as int],
                    ));
                } else if o1 > j {
                    assert(node_owner(m0.nodes()[up0[j] as int]) != node_owner(
                        m0.nodes()[up0[o1] as int],
                    ));
                }
                if o2 < j {
                    assert(node_owner(m0.nodes()[up0[o2] as int]) != node_owner(
                        m0.nodes()[up0[j] as int],
                    ));
                } else if o2 > j {
                    assert(node_owner(m0.nodes()[up0[j] as int]) != node_owner(
                        m0.nodes()[up0[o2] as int],
                    ));
                }
            }
            assert(self.nodes()[up0[o1] as int] == m0.nodes()[up0[o1] as int]);
            assert(self.nodes()[up0[o2] as int] == m0.nodes()[up0[o2] as int]);
        }
        assert forall|i: int|
            0 <= i < s.len() && (#[trigger] s[i]).kind == RelationKind::UserInfo && node_live(
                self.nodes()[s[i].node as int],
            ) implies f.user_parents@.contains(s[i].node) by {
            assert(m0.entry_ok(i));
            if i == iu {
                assert(!node_live(self.nodes()[un as int]));
            } else {
                assert(s[i].node != un && s[i].node != an);
                assert(self.nodes()[s[i].node as int] == m0.nodes()[s[i].node as int]);
                assert(up0.contains(s[i].node));
                let jo = choose|jo: int| 0 <= jo < up0.len() && up0[jo] == s[i].node;
                assert(jo != j);
                let jn = if jo < j {
                    jo
                } else {
                    jo - 1
                };
                assert(f.user_parents@[jn] == up0[jo]);
            }
        }
        assert(self.core_ok());
        assert(self.inv());
        let v0 = m0@;
        let v2 = self@;
        assert forall|e1: Seq<char>|
            e1 != e && #[trigger] reg_has(s, e1, RelationKind::UserInfo) implies self.shard_view(e1)
            == m0.shard_view(e1) by {
            lemma_reg_node_index(s, e1, RelationKind::UserInfo);
            assert(reg_has(s, e1, RelationKind::Answers));
            lemma_reg_node_index(s, e1, RelationKind::Answers);
            let i1 = choose|i: int|
                0 <= i < s.len() && (#[trigger] s[i]).email@ == e1 && s[i].kind
                    == RelationKind::UserInfo && s[i].node as nat == reg_node(
                    s,
                    e1,
                    RelationKind::UserInfo,
                )->0;
            let k1 = choose|i: int|
                0 <= i < s.len() && (#[trigger] s[i]).email@ == e1 && s[i].kind
                    == RelationKind::Answers && s[i].node as nat == reg_node(
                    s,
                    e1,
                    RelationKind::Answers,
                )->0;
            assert(m0.entry_ok(i1));
            assert(m0.entry_ok(k1));
            assert(i1 != iu && k1 != ia);
            assert(s[i1].node != un && s[i1].node != an);
            assert(s[k1].node != un && s[k1].node != an);
            assert(self.nodes()[s[i1].node as int] == m0.nodes()[s[i1].node as int]);
            assert(self.nodes()[s[k1].node as int] == m0.nodes()[s[k1].node as int]);
        }
        assert(self.shard_view(e) =~~= ShardV { live: false, ..m0.shard_view(e) });
        assert(v2.shards =~~= v0.shards.insert(e, ShardV { live: false, ..m0.shard_view(e) })) by {
            assert forall|e1: Seq<char>| #[trigger] v2.shards.dom().contains(e1) implies v2.shards[e1]
                == v0.shards.insert(e, ShardV { live: false, ..m0.shard_view(e) })[e1] by {
                if e1 != e {
                    assert(self.shard_view(e1) == m0.shard_view(e1));
                }
            }
        }
        assert(node_owner(m0.nodes()[un as int]) == e);
        assert(v0.live_order[j] == e);
        assert(v0.live_order.no_duplicates()) by {
            m0.lemma_inv_wf();
        }
        v0.live_order.index_of_first_ensures(e);
        assert(v0.live_order.index_of_first(e) == Some(j)) by {
            assert(v0.live_order.contains(e));
            let j0 = v0.live_order.index_of_first(e)->0;
            if j0 != j {
                assert(v0.live_order[j0] == e);
                assert(v0.live_order[j0] != v0.live_order[j]);
            }
        }
        assert(v2.live_order =~= v0.live_order.remove_value(e)) by {
            assert(v0.live_order.remove_value(e) == v0.live_order.remove(j));
            assert forall|j2: int| 0 <= j2 < v2.live_order.len() implies v2.live_order[j2]
                == v0.live_order.remove(j)[j2] by {
                let jo = if j2 < j {
                    j2
                } else {
                    j2 + 1
                };
                assert(f.user_parents@[j2] == up0[jo]);
                assert(m0.parent_pair_ok(up0[jo] as int, ap0[jo] as int));
                if jo != j {
                    if jo < j {
                        assert(node_owner(m0.nodes()[up0[jo] as int]) != node_owner(
                            m0.nodes()[up0[j] as int],
                        ));
                    } else {
                        assert(node_owner(m0.nodes()[up0[j] as int]) != node_owner(
                            m0.nodes()[up0[jo] as int],
                        ));
                    }
                    assert(up0[jo] != un);
                    assert(up0[jo] as int != an as int) by {
                        if up0[jo] as int == an as int {
                            assert(m0.nodes()[an as int] is AnswerBase);
                            assert(m0.nodes()[up0[jo] as int] is UserBase);
                        }
                    }
                    assert(self.nodes()[up0[jo] as int] == m0.nodes()[up0[jo] as int]);
                }
            }
        }
        assert(v2.prints =~~= v0.prints);
        assert(v2 =~~= crate::model::spec_retire(v0, e)) by {
            assert(crate::model::spec_can_write(v0, e)) by {
                assert(v0.shards[e] == m0.shard_view(e));
            }
        }
    }

    /// Retires a shard: both relations stop accepting writes and are
    /// detached from their unions.  Reconstitution afterwards needs
    /// [`ShardManager::reinstate_shard`].
    pub fn retire_shard(&mut self, email: &String) -> (r: Result<(), ShardError>)
        requires
            old(self).inv(),
        ensures
            final(self).inv(),
            final(self)@ == crate::model::spec_retire(old(self)@, email@),
            match r {
                Ok(u) => crate::model::spec_can_write(old(self)@, email@),
                Err(err) => {
                    &&& err == ShardError::UnknownShard
                    &&& !crate::model::spec_can_write(old(self)@, email@)
                    &&& *final(self) == *old(self)
                },
            },
    {
        let ghost m0 = *self;
        let ghost e = email@;
        let un = match self.registry.lookup(email, RelationKind::UserInfo) {
            None => {
                proof {
                    assert(!crate::model::shard_exists(self@, e));
                }
                return Err(ShardError::UnknownShard);
            },
            Some(u) => u,
        };
        let an = match self.registry.lookup(email, RelationKind::Answers) {
            None => {
                proof {
                    assert(false);
                }
                return Err(ShardError::UnknownShard);
            },
            Some(a) => a,
        };
        proof {
            lemma_reg_node_index(self.entries(), e, RelationKind::UserInfo);
            lemma_reg_node_index(self.entries(), e, RelationKind::Answers);
            let iu = choose|i: int|
                0 <= i < self.entries().len() && (#[trigger] self.entries()[i]).email@ == e
                    && self.entries()[i].kind == RelationKind::UserInfo
                    && self.entries()[i].node as nat == reg_node(
                    self.entries(),
                    e,
                    RelationKind::UserInfo,
                )->0;
            let ia = choose|i: int|
                0 <= i < self.entries().len() && (#[trigger] self.entries()[i]).email@ == e
                    && self.entries()[i].kind == RelationKind::Answers
                    && self.entries()[i].node as nat == reg_node(
                    self.entries(),
                    e,
                    RelationKind::Answers,
                )->0;
            assert(self.entry_ok(iu));
            assert(self.entry_ok(ia));
            assert(m0@.shards[e] == m0.shard_view(e));
        }
        if !self.graph.node_is_live(un) {
            proof {
                assert(!crate::model::spec_can_write(m0@, e));
            }
            return Err(ShardError::UnknownShard);
        }
        let j = match crate::fanin::position_of_parent(&self.fanin.user_parents, un) {
            Some(j) => j,
            None => {
                proof {
                    lemma_reg_node_index(self.entries(), e, RelationKind::UserInfo);
                    let iu = choose|i: int|
                        0 <= i < self.entries().len() && (#[trigger] self.entries()[i]).email@ == e
                            && self.entries()[i].kind == RelationKind::UserInfo
                            && self.entries()[i].node as nat == reg_node(
                            self.entries(),
                            e,
                            RelationKind::UserInfo,
                        )->0;
                    assert(self.entry_ok(iu));
                    assert(self.fanin.user_parents@.contains(self.entries()[iu].node));
                    assert(false);
                }
                return Err(ShardError::MigrationFailure);
            },
        };
        proof {
            assert(self.parent_pair_ok(
                self.fanin.user_parents@[j as int] as int,
                self.fanin.answer_parents@[j as int] as int,
            ));
            assert(node_owner(self.nodes()[un as int]) == e) by {
                lemma_reg_node_index(self.entries(), e, RelationKind::UserInfo);
                let iu = choose|i: int|
                    0 <= i < self.entries().len() && (#[trigger] self.entries()[i]).email@ == e
                        && self.entries()[i].kind == RelationKind::UserInfo
                        && self.entries()[i].node as nat == reg_node(
                        self.entries(),
                        e,
                        RelationKind::UserInfo,
                    )->0;
                assert(self.entry_ok(iu));
            }
            assert(self.fanin.answer_parents@[j as int] == an);
        }
        let uu = self.fanin.user_union;
        let au = self.fanin.answer_union;
        self.fanin.user_parents.remove(j);
        self.fanin.answer_parents.remove(j);
        self.graph.remove_union_parent(uu, j);
        self.graph.remove_union_parent(au, j);
        proof {
            assert(un as int != uu as int && un as int != au as int);
            assert(an as int != uu as int && an as int != au as int);
        }
        self.graph.set_base_dead(un);
        self.graph.set_base_dead(an);
        proof {
            self.lemma_retire_establishes(m0, e, un, an, j as int);
        }
        Ok(())
    }

    /// After a permission change has rebuilt one shard's answers
    /// relation under a fresh identity, the invariant holds again and
    /// the state is the old one with that shard's mask, answers node
    /// and (now empty) answer rows replaced.
    proof fn lemma_change_establishes(
        self,
        m0: ShardManager,
        e: Seq<char>,
        un: usize,
        an0: usize,
        na: usize,
        ia: int,
        j: int,
        m: u8,
    )
        requires
            m0.inv(),
            m0.fanin.bootstrapped,
            reg_node(m0.entries(), e, RelationKind::UserInfo) == Some(un as nat),
            reg_node(m0.entries(), e, RelationKind::Answers) == Some(an0 as nat),
            node_live(m0.nodes()[un as int]),
            0 <= j < m0.fanin.user_parents@.len(),
            m0.fanin.user_parents@[j] == un,
            m0.fanin.answer_parents@[j] == an0,
            0 <= ia < m0.entries().len(),
            crate::perm::core_live(m),
            na as int == m0.nodes().len(),
            self.entries().len() == m0.entries().len(),
            forall|i: int| 0 <= i < m0.entries().len() && i != ia ==> self.entries()[i]
                == m0.entries()[i],
            self.entries()[ia].email@ == e,
            self.entries()[ia].kind == RelationKind::Answers,
            self.entries()[ia].node == na,
            m0.entries()[ia].email@ == e,
            m0.entries()[ia].kind == RelationKind::Answers,
            self.nodes().len() == m0.nodes().len() + 2,
            forall|i: int|
                0 <= i < m0.nodes().len() && i != an0 && i != m0.fanin.answer_union as int
                    ==> self.nodes()[i] == m0.nodes()[i],
            self.nodes()[an0 as int] is AnswerBase,
            !node_live(self.nodes()[an0 as int]),
            node_owner(self.nodes()[an0 as int]) == node_owner(m0.nodes()[an0 as int]),
            self.nodes()[na as int] is AnswerBase,
            node_owner(self.nodes()[na as int]) == e,
            node_live(self.nodes()[na as int]),
            node_mask(self.nodes()[na as int]) == m,
            node_answer_rows(self.nodes()[na as int]) == Seq::<crate::rows::AnswerRowV>::empty(),
            self.fanin.bootstrapped,
            self.fanin.user_union == m0.fanin.user_union,
            self.fanin.answer_union == m0.fanin.answer_union,
            self.fanin.user_parents@ == m0.fanin.user_parents@,
            self.fanin.answer_parents@ == m0.fanin.answer_parents@.update(j, na),
            self.nodes()[self.fanin.answer_union as int] is UnionNode,
            node_parents(self.nodes()[self.fanin.answer_union as int])
                == self.fanin.answer_parents@,
            self.prints == m0.prints,
            self.secret == m0.secret,
            self.default_mask == m0.default_mask,
        ensures
            self.inv(),
            self@ == (ManagerView {
                shards: m0@.shards.insert(
                    e,
                    ShardV {
                        mask: m,
                        ans_node: na as nat,
                        ans_rows: Seq::empty(),
                        ..m0.shard_view(e)
                    },
                ),
                next_node: (m0.nodes().len() + 2) as nat,
                ..m0@
            }),
    {
        let s0 = m0.entries();
        let s1 = self.entries();
        let uu = m0.fanin.user_union as int;
        let au = m0.fanin.answer_union as int;
        assert(m0.entry_ok(ia));
        crate::registry::lemma_reg_node_at(s0, ia);
        assert(s0[ia].node == an0);
        assert(s1 =~= s0.update(ia, s1[ia]));
        assert forall|e1: Seq<char>, k: RelationKind| true implies #[trigger] reg_node(s1, e1, k)
            == (if e1 == e && k == RelationKind::Answers {
            Some(na as nat)
        } else {
            reg_node(s0, e1, k)
        }) by {
            crate::registry::lemma_reg_node_update(s0, ia, s1[ia], e1, k);
            if e1 == e && k == RelationKind::Answers {
            } else if e1 == e && k == RelationKind::UserInfo {
            }
        }
        assert(reg_unique(s1)) by {
            crate::registry::lemma_reg_node_update(s0, ia, s1[ia], e, RelationKind::Answers);
        }
        assert(m0.nodes()[uu] is UnionNode);
        assert(m0.nodes()[au] is UnionNode);
        lemma_reg_node_index(s0, e, RelationKind::UserInfo);
        let iu = choose|i: int|
            0 <= i < s0.len() && (#[trigger] s0[i]).email@ == e && s0[i].kind
                == RelationKind::UserInfo && s0[i].node as nat == reg_node(
                s0,
                e,
                RelationKind::UserInfo,
            )->0;
        assert(m0.entry_ok(iu));
        assert(s0[iu].node == un);
        assert forall|i: int| 0 <= i < s0.len() && i != ia implies (#[trigger] s0[i]).node != an0
            && s0[i].node != na by {
            if i < ia {
                assert(s0[i].node != s0[ia].node);
            } else {
                assert(s0[ia].node != s0[i].node);
            }
            assert(m0.entry_ok(i));
        }
        assert forall|i: int| 0 <= i < s1.len() implies self.entry_ok(i) by {
            if i != ia {
                assert(m0.entry_ok(i));
                assert(s1[i] == s0[i]);
                assert(self.nodes()[s0[i].node as int] == m0.nodes()[s0[i].node as int]);
            }
        }
        assert forall|i: int, k: int| 0 <= i < k < s1.len() implies (#[trigger] s1[i]).node != (
        #[trigger] s1[k]).node by {
            if i != ia && k != ia {
                assert(s0[i].node != s0[k].node);
            } else if i == ia {
                assert(s1[k].node == s0[k].node);
                assert(m0.entry_ok(k));
                assert(s0[k].node < m0.nodes().len());
            } else {
                assert(s1[i].node == s0[i].node);
                assert(m0.entry_ok(i));
                assert(s0[i].node < m0.nodes().len());
            }
        }
        assert forall|i: int, k: int|
            0 <= i < s1.len() && 0 <= k < s1.len() && (#[trigger] s1[i]).email@ == (
            #[trigger] s1[k]).email@ && s1[i].kind == RelationKind::UserInfo && s1[k].kind
                == RelationKind::Answers implies node_live(self.nodes()[s1[i].node as int])
            == node_live(self.nodes()[s1[k].node as int]) by {
            if k == ia {
                assert(s1[i] == s0[i]);
                assert(s0[i].email@ == e);
                assert(s0[i].kind == RelationKind::UserInfo);
                crate::registry::lemma_reg_node_at(s0, i);
                assert(s0[i].node == un);
                assert(self.nodes()[un as int] == m0.nodes()[un as int]);
            } else {
                assert(s1[i] == s0[i]);
                assert(s1[k] == s0[k]);
                assert(m0.entry_ok(i));
                assert(m0.entry_ok(k));
                assert(self.nodes()[s0[i].node as int] == m0.nodes()[s0[i].node as int]);
                assert(self.nodes()[s0[k].node as int] == m0.nodes()[s0[k].node as int]);
            }
        }
        let f = self.fanin;
        assert forall|j2: int| 0 <= j2 < f.user_parents@.len() implies self.parent_pair_ok(
            (#[trigger] f.user_parents@[j2]) as int,
            f.answer_parents@[j2] as int,
        ) by {
            let up = m0.fanin.user_parents@[j2] as int;
            let ap = m0.fanin.answer_parents@[j2] as int;
            assert(m0.parent_pair_ok(up, ap));
            let owner = node_owner(m0.nodes()[up]);
            if j2 == j {
                assert(owner == e) by {
                    assert(up == un as int);
                    assert(node_owner(m0.nodes()[un as int]) == e);
                }
                assert(self.nodes()[up] == m0.nodes()[up]);
                assert(f.answer_parents@[j2] == na);
            } else {
                assert(up != an0 as int) by {
                    if up == an0 as int {
                        assert(m0.nodes()[an0 as int] is AnswerBase);
                        assert(m0.nodes()[up] is UserBase);
                    }
                }
                assert(ap != an0 as int) by {
                    if ap == an0 as int {
                        assert(node_owner(m0.nodes()[ap]) == owner);
                        assert(node_owner(m0.nodes()[an0 as int]) == e) by {
                            assert(m0.entry_ok(ia));
                        }
                        assert(owner == e);
                        if j2 < j {
                            assert(node_owner(m0.nodes()[up]) != node_owner(
                                m0.nodes()[m0.fanin.user_parents@[j] as int],
                            ));
                        } else {
                            assert(node_owner(m0.nodes()[m0.fanin.user_parents@[j] as int])
                                != node_owner(m0.nodes()[up]));
                        }
                        assert(node_owner(m0.nodes()[un as int]) == e);
                    }
                }
                assert(owner != e) by {
                    if j2 < j {
                        assert(node_owner(m0.nodes()[up]) != node_owner(
                            m0.nodes()[m0.fanin.user_parents@[j] as int],
                        ));
                    } else {
                        assert(node_owner(m0.nodes()[m0.fanin.user_parents@[j] as int])
                            != node_owner(m0.nodes()[up]));
                    }
                    assert(node_owner(m0.nodes()[un as int]) == e);
                }
                assert(self.nodes()[up] == m0.nodes()[up]);
                assert(self.nodes()[ap] == m0.nodes()[ap]);
                assert(f.answer_parents@[j2] == ap as usize);
            }
        }
        assert forall|j1: int, j2: int| 0 <= j1 < j2 < f.user_parents@.len() implies node_owner(
            self.nodes()[(#[trigger] f.user_parents@[j1]) as int],
        ) != node_owner(self.nodes()[(#[trigger] f.user_parents@[j2]) as int]) by {
            let u1 = m0.fanin.user_parents@[j1] as int;
            let u2 = m0.fanin.user_parents@[j2] as int;
            assert(m0.parent_pair_ok(u1, m0.fanin.answer_parents@[j1] as int));
            assert(m0.parent_pair_ok(u2, m0.fanin.answer_parents@[j2] as int));
            assert(node_owner(m0.nodes()[u1]) != node_owner(m0.nodes()[u2]));
            assert(u1 != an0 as int && u2 != an0 as int) by {
                if u1 == an0 as int {
                    assert(m0.nodes()[u1] is UserBase);
                    assert(m0.nodes()[an0 as int] is AnswerBase);
                }
                if u2 == an0 as int {
                    assert(m0.nodes()[u2] is UserBase);
                    assert(m0.nodes()[an0 as int] is AnswerBase);
                }
            }
            assert(self.nodes()[u1] == m0.nodes()[u1]);
            assert(self.nodes()[u2] == m0.nodes()[u2]);
        }
        assert forall|i: int|
            0 <= i < s1.len() && (#[trigger] s1[i]).kind == RelationKind::UserInfo && node_live(
                self.nodes()[s1[i].node as int],
            ) implies f.user_parents@.contains(s1[i].node) by {
            assert(s1[i] == s0[i]);
            assert(m0.entry_ok(i));
            assert(s0[i].node != an0 && s0[i].node != na);
            assert(self.nodes()[s0[i].node as int] == m0.nodes()[s0[i].node as int]);
        }
        assert forall|e1: Seq<char>|
            #[trigger] reg_has(s1, e1, RelationKind::UserInfo) <==> reg_has(
                s1,
                e1,
                RelationKind::Answers,
            ) by {
            if e1 != e {
                assert(reg_has(s0, e1, RelationKind::UserInfo) == reg_has(
                    s0,
                    e1,
                    RelationKind::Answers,
                ));
            } else {
                assert(reg_node(s1, e, RelationKind::Answers) is Some);
                assert(reg_node(s1, e, RelationKind::UserInfo) == reg_node(
                    s0,
                    e,
                    RelationKind::UserInfo,
                ));
            }
        }
        assert(self.nodes()[uu] == m0.nodes()[uu]) by {
            assert(uu != an0 as int);
            assert(uu != au);
        }
        assert(self.core_ok());
        assert(self.inv());
        let v0 = m0@;
        let v2 = self@;
        assert forall|e1: Seq<char>|
            e1 != e && #[trigger] reg_has(s0, e1, RelationKind::UserInfo) implies self.shard_view(
            e1,
        ) == m0.shard_view(e1) by {
            lemma_reg_node_index(s0, e1, RelationKind::UserInfo);
            assert(reg_has(s0, e1, RelationKind::Answers));
            lemma_reg_node_index(s0, e1, RelationKind::Answers);
            let i1 = choose|i: int|
                0 <= i < s0.len() && (#[trigger] s0[i]).email@ == e1 && s0[i].kind
                    == RelationKind::UserInfo && s0[i].node as nat == reg_node(
                    s0,
                    e1,
                    RelationKind::UserInfo,
                )->0;
            let k1 = choose|i: int|
                0 <= i < s0.len() && (#[trigger] s0[i]).email@ == e1 && s0[i].kind
                    == RelationKind::Answers && s0[i].node as nat == reg_node(
                    s0,
                    e1,
                    RelationKind::Answers,
                )->0;
            assert(m0.entry_ok(i1));
            assert(m0.entry_ok(k1));
            assert(i1 != ia && k1 != ia);
            assert(s0[i1].node != an0 && s0[k1].node != an0);
            assert(self.nodes()[s0[i1].node as int] == m0.nodes()[s0[i1].node as int]);
            assert(self.nodes()[s0[k1].node as int] == m0.nodes()[s0[k1].node as int]);
        }
        assert(self.shard_view(e) =~~= ShardV {
            mask: m,
            ans_node: na as nat,
            ans_rows: Seq::empty(),
            ..m0.shard_view(e)
        }) by {
            assert(self.nodes()[un as int] == m0.nodes()[un as int]);
        }
        assert(v2.shards =~~= v0.shards.insert(
            e,
            ShardV { mask: m, ans_node: na as nat, ans_rows: Seq::empty(), ..m0.shard_view(e) },
        )) by {
            assert forall|e1: Seq<char>| #[trigger] v2.shards.dom().contains(e1) implies v2.shards[e1]
                == v0.shards.insert(
                e,
                ShardV { mask: m, ans_node: na as nat, ans_rows: Seq::empty(), ..m0.shard_view(e) },
            )[e1] by {
                if e1 != e {
                    assert(reg_has(s0, e1, RelationKind::UserInfo));
                    assert(self.shard_view(e1) == m0.shard_view(e1));
                }
            }
        }
        assert(v2.live_order =~= v0.live_order) by {
            assert forall|j2: int| 0 <= j2 < f.user_parents@.len() implies node_owner(
                self.nodes()[(#[trigger] f.user_parents@[j2]) as int],
            ) == node_owner(m0.nodes()[m0.fanin.user_parents@[j2] as int]) by {
                let up = m0.fanin.user_parents@[j2] as int;
                assert(m0.parent_pair_ok(up, m0.fanin.answer_parents@[j2] as int));
                assert(up != an0 as int) by {
                    if up == an0 as int {
                        assert(m0.nodes()[up] is UserBase);
                        assert(m0.nodes()[an0 as int] is AnswerBase);
                    }
                }
                assert(self.nodes()[up] == m0.nodes()[up]);
            }
        }
        assert(v2.prints =~~= v0.prints);
        assert(v2 =~~= ManagerView {
            shards: v0.shards.insert(
                e,
                ShardV { mask: m, ans_node: na as nat, ans_rows: Seq::empty(), ..m0.shard_view(e) },
            ),
            next_node: (m0.nodes().len() + 2) as nat,
            ..v0
        });
    }

    /// Changes a live shard's permission: the answers relation is
    /// rebuilt empty under a fresh identity with the new mask (the core
    /// flag forced on), superseding the old relation in the union and
    /// the registry.  The old relation and its buffered rows stay
    /// behind, unsubscribed.
    pub fn change_permission(&mut self, email: &String, new_bits: u8) -> (r: Result<
        usize,
        ShardError,
    >)
        requires
            old(self).inv(),
        ensures
            final(self).inv(),
            final(self)@ == crate::model::spec_change_permission(old(self)@, email@, new_bits),
            match r {
                Ok(node) => {
                    &&& crate::model::spec_can_write(old(self)@, email@)
                    &&& node as nat == old(self)@.next_node
                },
                Err(err) => {
                    &&& err == ShardError::UnknownShard
                    &&& !crate::model::spec_can_write(old(self)@, email@)
                    &&& *final(self) == *old(self)
                },
            },
    {
        let ghost m0 = *self;
        let ghost e = email@;
        let un = match self.registry.lookup(email, RelationKind::UserInfo) {
            None => {
                proof {
                    assert(!crate::model::shard_exists(self@, e));
                }
                return Err(ShardError::UnknownShard);
            },
            Some(u) => u,
        };
        let an0 = match self.registry.lookup(email, RelationKind::Answers) {
            None => {
                proof {
                    assert(reg_has(m0.entries(), e, RelationKind::UserInfo));
                    assert(reg_has(m0.entries(), e, RelationKind::Answers));
                    assert(false);
                }
                return Err(ShardError::UnknownShard);
            },
            Some(a) => a,
        };
        proof {
            lemma_reg_node_index(self.entries(), e, RelationKind::UserInfo);
            lemma_reg_node_index(self.entries(), e, RelationKind::Answers);
            let iu = choose|i: int|
                0 <= i < self.entries().len() && (#[trigger] self.entries()[i]).email@ == e
                    && self.entries()[i].kind == RelationKind::UserInfo
                    && self.entries()[i].node as nat == reg_node(
                    self.entries(),
                    e,
                    RelationKind::UserInfo,
                )->0;
            let ka = choose|i: int|
                0 <= i < self.entries().len() && (#[trigger] self.entries()[i]).email@ == e
                    && self.entries()[i].kind == RelationKind::Answers
                    && self.entries()[i].node as nat == reg_node(
                    self.entries(),
                    e,
                    RelationKind::Answers,
                )->0;
            assert(self.entry_ok(iu));
            assert(self.entry_ok(ka));
            assert(m0@.shards[e] == m0.shard_view(e));
        }
        if !self.graph.node_is_live(un) {
            proof {
                assert(!crate::model::spec_can_write(m0@, e));
            }
            return Err(ShardError::UnknownShard);
        }
        let j = match crate::fanin::position_of_parent(&self.fanin.user_parents, un) {
            Some(j) => j,
            None => {
                proof {
                    lemma_reg_node_index(self.entries(), e, RelationKind::UserInfo);
                    let iu = choose|i: int|
                        0 <= i < self.entries().len() && (#[trigger] self.entries()[i]).email@ == e
                            && self.entries()[i].kind == RelationKind::UserInfo
                            && self.entries()[i].node as nat == reg_node(
                            self.entries(),
                            e,
                            RelationKind::UserInfo,
                        )->0;
                    assert(self.entry_ok(iu));
                    assert(self.fanin.user_parents@.contains(self.entries()[iu].node));
                    assert(false);
                }
                return Err(ShardError::MigrationFailure);
            },
        };
        proof {
            assert(self.parent_pair_ok(
                self.fanin.user_parents@[j as int] as int,
                self.fanin.answer_parents@[j as int] as int,
            ));
            assert(node_owner(self.nodes()[un as int]) == e) by {
                lemma_reg_node_index(self.entries(), e, RelationKind::UserInfo);
                let iu = choose|i: int|
                    0 <= i < self.entries().len() && (#[trigger] self.entries()[i]).email@ == e
                        && self.entries()[i].kind == RelationKind::UserInfo
                        && self.entries()[i].node as nat == reg_node(
                        self.entries(),
                        e,
                        RelationKind::UserInfo,
                    )->0;
                assert(self.entry_ok(iu));
            }
            assert(self.fanin.answer_parents@[j as int] == an0);
        }
        let m = crate::perm::mask_for(false, new_bits);
        let na = self.graph.add_node(
            Node::AnswerBase { owner: email.clone(), live: true, mask: m, rows: Vec::new() },
        );
        let _scoped = self.graph.add_node(Node::ScopedView { owner_base: na });
        self.graph.set_base_dead(an0);
        let ia = match self.registry.position(email, RelationKind::Answers) {
            Some(i) => i,
            None => {
                proof {
                    assert(false);
                }
                return Err(ShardError::MigrationFailure);
            },
        };
        self.registry.replace_at(ia, na);
        let au = self.fanin.answer_union;
        self.fanin.answer_parents[j] = na;
        self.graph.set_union_parent(au, j, na);
        proof {
            assert(self.fanin.answer_parents@ =~= m0.fanin.answer_parents@.update(
                j as int,
                na,
            ));
            assert(node_answer_rows(self.nodes()[na as int])
                =~= Seq::<crate::rows::AnswerRowV>::empty());
            self.lemma_change_establishes(m0, e, un, an0, na, ia as int, j as int, m);
            assert(m == new_bits | crate::perm::MASK_CORE);
            assert(self@ =~~= crate::model::spec_change_permission(m0@, e, new_bits));
        }
        Ok(na)
    }

    /// After an import has rebuilt a retired shard's relations under
    /// fresh identities, replaced its registry entries, and re-attached
    /// it to the unions, the invariant holds again and the state is the
    /// retired state with the shard revived under the new identities.
    proof fn lemma_import_establishes(
        self,
        m1: ShardManager,
        e: Seq<char>,
        users: Seq<crate::rows::UserRowV>,
        answers: Seq<crate::rows::AnswerRowV>,
        nu: usize,
        na: usize,
        iu: int,
        ia: int,
        m: u8,
    )
        requires
            m1.inv(),
            m1.fanin.bootstrapped,
            reg_has(m1.entries(), e, RelationKind::UserInfo),
            !node_live(
                m1.nodes()[reg_node(m1.entries(), e, RelationKind::UserInfo)->0 as int],
            ),
            0 <= iu < m1.entries().len(),
            0 <= ia < m1.entries().len(),
            iu != ia,
            m1.entries()[iu].email@ == e,
            m1.entries()[iu].kind == RelationKind::UserInfo,
            m1.entries()[ia].email@ == e,
            m1.entries()[ia].kind == RelationKind::Answers,
            crate::perm::core_live(m),
            users.len() == 1,
            users[0].email == e,
            answer_rows_owned_by(answers, e),
            answer_keys_unique(answers),
            nu as int == m1.nodes().len(),
            na as int == m1.nodes().len() + 1,
            self.entries().len() == m1.entries().len(),
            forall|i: int|
                0 <= i < m1.entries().len() && i != iu && i != ia ==> self.entries()[i]
                    == m1.entries()[i],
            self.entries()[iu].email@ == e,
            self.entries()[iu].kind == RelationKind::UserInfo,
            self.entries()[iu].node == nu,
            self.entries()[ia].email@ == e,
            self.entries()[ia].kind == RelationKind::Answers,
            self.entries()[ia].node == na,
            self.nodes().len() == m1.nodes().len() + 3,
            forall|i: int|
                0 <= i < m1.nodes().len() && i != m1.fanin.user_union as int && i
                    != m1.fanin.answer_union as int ==> self.nodes()[i] == m1.nodes()[i],
            self.nodes()[nu as int] is UserBase,
            node_owner(self.nodes()[nu as int]) == e,
            node_live(self.nodes()[nu as int]),
            node_mask(self.nodes()[nu as int]) == m,
            node_user_rows(self.nodes()[nu as int]) == users,
            self.nodes()[na as int] is AnswerBase,
            node_owner(self.nodes()[na as int]) == e,
            node_live(self.nodes()[na as int]),
            node_mask(self.nodes()[na as int]) == m,
            node_answer_rows(self.nodes()[na as int]) == answers,
            self.fanin.bootstrapped,
            self.fanin.user_union == m1.fanin.user_union,
            self.fanin.answer_union == m1.fanin.answer_union,
            self.fanin.user_parents@ == m1.fanin.user_parents@.push(nu),
            self.fanin.answer_parents@ == m1.fanin.answer_parents@.push(na),
            self.nodes()[self.fanin.user_union as int] is UnionNode,
            node_parents(self.nodes()[self.fanin.user_union as int]) == self.fanin.user_parents@,
            self.nodes()[self.fanin.answer_union as int] is UnionNode,
            node_parents(self.nodes()[self.fanin.answer_union as int])
                == self.fanin.answer_parents@,
            self.prints == m1.prints,
            self.secret == m1.secret,
            self.default_mask == m1.default_mask,
        ensures
            self.inv(),
            self@ == (ManagerView {
                shards: m1@.shards.insert(
                    e,
                    ShardV {
                        live: true,
                        mask: m,
                        user_node: nu as nat,
                        ans_node: na as nat,
                        user_rows: users,
                        ans_rows: answers,
                    },
                ),
                live_order: m1@.live_order.push(e),
                next_node: (m1.nodes().len() + 3) as nat,
                ..m1@
            }),
    {
        let s0 = m1.entries();
        let s1 = self.entries();
        let uu = m1.fanin.user_union as int;
        let au = m1.fanin.answer_union as int;
        assert(m1.entry_ok(iu));
        assert(m1.entry_ok(ia));
        crate::registry::lemma_reg_node_at(s0, iu);
        crate::registry::lemma_reg_node_at(s0, ia);
        let u0 = s0[iu].node;
        let a0 = s0[ia].node;
        assert(!node_live(m1.nodes()[u0 as int]));
        assert(!node_live(m1.nodes()[a0 as int]));
        assert(m1.nodes()[uu] is UnionNode);
        assert(m1.nodes()[au] is UnionNode);
        let sx = s0.update(iu, s1[iu]);
        assert(s1 =~= sx.update(ia, s1[ia]));
        assert forall|e1: Seq<char>, k: RelationKind| true implies #[trigger] reg_node(s1, e1, k)
            == (if e1 == e && k == RelationKind::UserInfo {
            Some(nu as nat)
        } else if e1 == e && k == RelationKind::Answers {
            Some(na as nat)
        } else {
            reg_node(s0, e1, k)
        }) by {
            crate::registry::lemma_reg_node_update(s0, iu, s1[iu], e1, k);
            assert(sx[ia] == s0[ia]);
            crate::registry::lemma_reg_node_update(sx, ia, s1[ia], e1, k);
        }
        assert(reg_unique(s1)) by {
            crate::registry::lemma_reg_node_update(s0, iu, s1[iu], e, RelationKind::UserInfo);
            assert(sx[ia] == s0[ia]);
            crate::registry::lemma_reg_node_update(sx, ia, s1[ia], e, RelationKind::Answers);
        }
        assert forall|i: int| 0 <= i < s0.len() && i != iu && i != ia implies (
        #[trigger] s0[i]).email@ != e by {
            if s0[i].email@ == e {
                if s0[i].kind == RelationKind::UserInfo {
                    assert(!(s0[i].email@ == s0[iu].email@ && s0[i].kind == s0[iu].kind)
                        || i == iu) by {
                        if i < iu {
                            assert(!(s0[i].email@ == s0[iu].email@ && s0[i].kind == s0[iu].kind));
                        } else if i > iu {
                            assert(!(s0[iu].email@ == s0[i].email@ && s0[iu].kind == s0[i].kind));
                        }
                    }
                } else {
                    assert(!(s0[i].email@ == s0[ia].email@ && s0[i].kind == s0[ia].kind) || i
                        == ia) by {
                        if i < ia {
                            assert(!(s0[i].email@ == s0[ia].email@ && s0[i].kind == s0[ia].kind));
                        } else if i > ia {
                            assert(!(s0[ia].email@ == s0[i].email@ && s0[ia].kind == s0[i].kind));
                        }
                    }
                }
                assert(false);
            }
        }
        assert forall|i: int| 0 <= i < s1.len() implies self.entry_ok(i) by {
            if i != iu && i != ia {
                assert(m1.entry_ok(i));
                assert(s1[i] == s0[i]);
                assert(s0[i].node as int != uu && s0[i].node as int != au);
                assert(self.nodes()[s0[i].node as int] == m1.nodes()[s0[i].node as int]);
            }
        }
        assert forall|i: int, k: int| 0 <= i < k < s1.len() implies (#[trigger] s1[i]).node != (
        #[trigger] s1[k]).node by {
            if i != iu && i != ia && k != iu && k != ia {
                assert(s0[i].node != s0[k].node);
            } else if i == iu || i == ia {
                if k != iu && k != ia {
                    assert(m1.entry_ok(k));
                    assert(s0[k].node < m1.nodes().len());
                }
            } else {
                assert(m1.entry_ok(i));
                assert(s0[i].node < m1.nodes().len());
            }
        }
        assert forall|e1: Seq<char>|
            #[trigger] reg_has(s1, e1, RelationKind::UserInfo) <==> reg_has(
                s1,
                e1,
                RelationKind::Answers,
            ) by {
            if e1 != e {
                assert(reg_has(s0, e1, RelationKind::UserInfo) == reg_has(
                    s0,
                    e1,
                    RelationKind::Answers,
                ));
            } else {
                assert(reg_node(s1, e, RelationKind::UserInfo) is Some);
                assert(reg_node(s1, e, RelationKind::Answers) is Some);
            }
        }
        assert forall|i: int, k: int|
            0 <= i < s1.len() && 0 <= k < s1.len() && (#[trigger] s1[i]).email@ == (
            #[trigger] s1[k]).email@ && s1[i].kind == RelationKind::UserInfo && s1[k].kind
                == RelationKind::Answers implies node_live(self.nodes()[s1[i].node as int])
            == node_live(self.nodes()[s1[k].node as int]) by {
            if i == iu {
                assert(s1[k].email@ == e);
                assert(k == ia) by {
                    if k != iu && k != ia {
                        assert(s0[k].email@ != e);
                    }
                }
            } else if k == ia {
                assert(s1[i].email@ == e);
                assert(i == iu) by {
                    if i != iu && i != ia {
                        assert(s0[i].email@ != e);
                    }
                }
            } else {
                assert(s1[i] == s0[i]);
                assert(s1[k] == s0[k]);
                assert(m1.entry_ok(i));
                assert(m1.entry_ok(k));
                assert(self.nodes()[s0[i].node as int] == m1.nodes()[s0[i].node as int]);
                assert(self.nodes()[s0[k].node as int] == m1.nodes()[s0[k].node as int]);
            }
        }
        let f = self.fanin;
        let plen = f.user_parents@.len() as int;
        assert forall|j: int| 0 <= j < m1.fanin.user_parents@.len() implies node_owner(
            m1.nodes()[(#[trigger] m1.fanin.user_parents@[j]) as int],
        ) != e by {
            assert(m1.parent_pair_ok(
                m1.fanin.user_parents@[j] as int,
                m1.fanin.answer_parents@[j] as int,
            ));
            if node_owner(m1.nodes()[m1.fanin.user_parents@[j] as int]) == e {
                assert(reg_node(s0, e, RelationKind::UserInfo) == Some(
                    m1.fanin.user_parents@[j] as nat,
                ));
                assert(m1.fanin.user_parents@[j] == u0);
                assert(node_live(m1.nodes()[u0 as int]));
            }
        }
        assert forall|j: int| 0 <= j < plen implies self.parent_pair_ok(
            (#[trigger] f.user_parents@[j]) as int,
            f.answer_parents@[j] as int,
        ) by {
            if j < plen - 1 {
                let up = m1.fanin.user_parents@[j] as int;
                let ap = m1.fanin.answer_parents@[j] as int;
                assert(m1.parent_pair_ok(up, ap));
                let owner = node_owner(m1.nodes()[up]);
                assert(owner != e);
                assert(self.nodes()[up] == m1.nodes()[up]);
                assert(self.nodes()[ap] == m1.nodes()[ap]);
                assert(f.user_parents@[j] == m1.fanin.user_parents@[j]);
                assert(f.answer_parents@[j] == m1.fanin.answer_parents@[j]);
            } else {
                assert(f.user_parents@[j] == nu);
                assert(f.answer_parents@[j] == na);
            }
        }
        assert forall|j1: int, j2: int| 0 <= j1 < j2 < plen implies node_owner(
            self.nodes()[(#[trigger] f.user_parents@[j1]) as int],
        ) != node_owner(self.nodes()[(#[trigger] f.user_parents@[j2]) as int]) by {
            if j2 < plen - 1 {
                let up1 = m1.fanin.user_parents@[j1] as int;
                let up2 = m1.fanin.user_parents@[j2] as int;
                assert(m1.parent_pair_ok(up1, m1.fanin.answer_parents@[j1] as int));
                assert(m1.parent_pair_ok(up2, m1.fanin.answer_parents@[j2] as int));
                assert(node_owner(m1.nodes()[up1]) != node_owner(m1.nodes()[up2]));
                assert(self.nodes()[up1] == m1.nodes()[up1]);
                assert(self.nodes()[up2] == m1.nodes()[up2]);
            } else {
                let up1 = m1.fanin.user_parents@[j1] as int;
                assert(m1.parent_pair_ok(up1, m1.fanin.answer_parents@[j1] as int));
                assert(node_owner(m1.nodes()[up1]) != e);
                assert(self.nodes()[up1] == m1.nodes()[up1]);
                assert(f.user_parents@[j2] == nu);
            }
        }
        assert forall|i: int|
            0 <= i < s1.len() && (#[trigger] s1[i]).kind == RelationKind::UserInfo && node_live(
                self.nodes()[s1[i].node as int],
            ) implies f.user_parents@.contains(s1[i].node) by {
            if i == iu {
                assert(f.user_parents@[plen - 1] == nu);
            } else if i != ia {
                assert(s1[i] == s0[i]);
                assert(m1.entry_ok(i));
                assert(s0[i].node as int != uu && s0[i].node as int != au);
                assert(self.nodes()[s0[i].node as int] == m1.nodes()[s0[i].node as int]);
                assert(m1.fanin.user_parents@.contains(s0[i].node));
                let j = choose|j: int|
                    0 <= j < m1.fanin.user_parents@.len() && m1.fanin.user_parents@[j]
                        == s0[i].node;
                assert(f.user_parents@[j] == s0[i].node);
            }
        }
        assert(self.core_ok());
        assert(self.inv());
        let v1 = m1@;
        let v2 = self@;
        let sv = ShardV {
            live: true,
            mask: m,
            user_node: nu as nat,
            ans_node: na as nat,
            user_rows: users,
            ans_rows: answers,
        };
        assert(self.shard_view(e) =~~= sv);
        assert forall|e1: Seq<char>|
            e1 != e && #[trigger] reg_has(s0, e1, RelationKind::UserInfo) implies self.shard_view(
            e1,
        ) == m1.shard_view(e1) by {
            lemma_reg_node_index(s0, e1, RelationKind::UserInfo);
            assert(reg_has(s0, e1, RelationKind::Answers));
            lemma_reg_node_index(s0, e1, RelationKind::Answers);
            let i1 = choose|i: int|
                0 <= i < s0.len() && (#[trigger] s0[i]).email@ == e1 && s0[i].kind
                    == RelationKind::UserInfo && s0[i].node as nat == reg_node(
                    s0,
                    e1,
                    RelationKind::UserInfo,
                )->0;
            let k1 = choose|i: int|
                0 <= i < s0.len() && (#[trigger] s0[i]).email@ == e1 && s0[i].kind
                    == RelationKind::Answers && s0[i].node as nat == reg_node(
                    s0,
                    e1,
                    RelationKind::Answers,
                )->0;
            assert(m1.entry_ok(i1));
            assert(m1.entry_ok(k1));
            assert(s0[i1].node as int != uu && s0[i1].node as int != au);
            assert(s0[k1].node as int != uu && s0[k1].node as int != au);
            assert(self.nodes()[s0[i1].node as int] == m1.nodes()[s0[i1].node as int]);
            assert(self.nodes()[s0[k1].node as int] == m1.nodes()[s0[k1].node as int]);
        }
        assert(v2.shards =~~= v1.shards.insert(e, sv)) by {
            assert forall|e1: Seq<char>| #[trigger] v2.shards.dom().contains(e1) implies v2.shards[e1]
                == v1.shards.insert(e, sv)[e1] by {
                if e1 != e {
                    assert(reg_has(s0, e1, RelationKind::UserInfo));
                    assert(self.shard_view(e1) == m1.shard_view(e1));
                }
            }
            assert forall|e1: Seq<char>| #[trigger] v1.shards.insert(e, sv).dom().contains(e1)
                implies v2.shards.dom().contains(e1) by {
                if e1 != e {
                    assert(reg_has(s0, e1, RelationKind::UserInfo));
                }
            }
        }
        assert(v2.live_order =~= v1.live_order.push(e)) by {
            assert forall|j: int| 0 <= j < plen - 1 implies v2.live_order[j] == v1.live_order[j] by {
                let up = m1.fanin.user_parents@[j] as int;
                assert(m1.parent_pair_ok(up, m1.fanin.answer_parents@[j] as int));
                assert(self.nodes()[up] == m1.nodes()[up]);
            }
            assert(v2.live_order[plen - 1] == e);
        }
        assert(v2.prints =~~= v1.prints);
        assert(v2 =~~= ManagerView {
            shards: v1.shards.insert(e, sv),
            live_order: v1.live_order.push(e),
            next_node: (m1.nodes().len() + 3) as nat,
            ..v1
        });
    }

    /// Reinstates a shard from an export blob: verifies the stored
    /// fingerprint against the blob's keyed hash, parses and validates
    /// the blob, detaches whatever the registry still names for the
    /// principal, and imports the relations under fresh identities.
    pub fn reinstate_shard(&mut self, blob: &Vec<u8>, presented: &String) -> (r: Result<
        ShardHandle,
        ShardError,
    >)
        requires
            old(self).inv(),
        ensures
            final(self).inv(),
            final(self)@ == crate::model::spec_reinstate(old(self)@, blob@, presented@),
            match r {
                Ok(h) => {
                    &&& crate::model::spec_reinstate_check(
                        old(self)@,
                        blob@,
                        presented@,
                    ) is Accept
                    &&& h.user_node as nat == old(self)@.next_node
                    &&& h.answers_node as nat == old(self)@.next_node + 1
                },
                Err(err) => {
                    &&& !(crate::model::spec_reinstate_check(
                        old(self)@,
                        blob@,
                        presented@,
                    ) is Accept)
                    &&& err == crate::model::reinstate_error(
                        crate::model::spec_reinstate_check(old(self)@, blob@, presented@),
                    )
                    &&& *final(self) == *old(self)
                },
            },
    {
        let ghost m0 = *self;
        let ghost c = presented@;
        let ghost v0 = m0@;
        let pi = match fp_position(&self.prints, presented) {
            None => {
                proof {
                    assert(!v0.prints.dom().contains(c));
                }
                return Err(ShardError::UnknownShard);
            },
            Some(i) => i,
        };
        proof {
            lemma_fp_of_at(self.prints@, pi as int);
            assert(v0.prints.dom().contains(c));
            assert(v0.prints[c] == self.prints@[pi as int].fingerprint@);
        }
        let computed = crate::hash::fingerprint_for(blob, &self.secret);
        if !(computed == self.prints[pi].fingerprint) {
            proof {
                assert(v0.prints[c] != crate::hash::fingerprint_of(blob@, self.secret@));
            }
            return Err(ShardError::IntegrityMismatch);
        }
        proof {
            assert(v0.prints[c] == crate::hash::fingerprint_of(blob@, v0.secret));
        }
        let (users, answers) = match crate::codec::deserialize(blob) {
            None => {
                proof {
                    assert(crate::codec::spec_deserialize(blob@) is None);
                }
                return Err(ShardError::BlobCorrupt);
            },
            Some(p) => p,
        };
        proof {
            assert(crate::codec::spec_deserialize(blob@) == Some(
                (users.deep_view(), answers.deep_view()),
            ));
        }
        if users.len() != 1 {
            return Err(ShardError::BlobCorrupt);
        }
        if !rows_owned_by(&answers, &users[0].email) {
            return Err(ShardError::BlobCorrupt);
        }
        if !rows_keys_unique(&answers) {
            return Err(ShardError::BlobCorrupt);
        }
        proof {
            assert(users.deep_view()[0] == users@[0].deep_view());
        }
        if !(users[0].credential == *presented) {
            return Err(ShardError::IntegrityMismatch);
        }
        let em = users[0].email.clone();
        let ghost e = em@;
        let un0 = match self.registry.lookup(&em, RelationKind::UserInfo) {
            None => {
                proof {
                    assert(!crate::model::shard_exists(v0, e));
                }
                return Err(ShardError::UnknownShard);
            },
            Some(u) => u,
        };
        proof {
            assert(crate::model::spec_reinstate_check(v0, blob@, c)
                == (crate::model::ReinstateCheck::Accept { email: e }));
            lemma_reg_node_index(self.entries(), e, RelationKind::UserInfo);
            let iu0 = choose|i: int|
                0 <= i < self.entries().len() && (#[trigger] self.entries()[i]).email@ == e
                    && self.entries()[i].kind == RelationKind::UserInfo
                    && self.entries()[i].node as nat == reg_node(
                    self.entries(),
                    e,
                    RelationKind::UserInfo,
                )->0;
            assert(self.entry_ok(iu0));
            assert(v0.shards[e] == m0.shard_view(e));
        }
        let ghost was_live = v0.shards[e].live;
        if self.graph.node_is_live(un0) {
            match self.retire_shard(&em) {
                Ok(u) => {},
                Err(_) => {
                    proof {
                        assert(crate::model::spec_can_write(v0, e));
                        assert(false);
                    }
                    return Err(ShardError::MigrationFailure);
                },
            }
        }
        let ghost m1 = *self;
        let ghost v1 = m1@;
        proof {
            if was_live {
                assert(v1 == crate::model::spec_retire(v0, e));
            } else {
                assert(v1 == v0);
            }
            assert(v1.shards.dom().contains(e));
            assert(!v1.shards[e].live);
            assert(v1.shards[e] == m1.shard_view(e));
            assert(v1.next_node == v0.next_node);
            assert(v1.prints =~~= v0.prints);
        }
        let mask0 = users[0].mask;
        let m = crate::perm::mask_for(false, mask0);
        let ghost usersv = users.deep_view();
        let ghost answersv = answers.deep_view();
        let nu = self.graph.add_node(
            Node::UserBase { owner: em.clone(), live: true, mask: m, rows: users },
        );
        let na = self.graph.add_node(
            Node::AnswerBase { owner: em.clone(), live: true, mask: m, rows: answers },
        );
        let _scoped = self.graph.add_node(Node::ScopedView { owner_base: na });
        let iu = match self.registry.position(&em, RelationKind::UserInfo) {
            Some(i) => i,
            None => {
                proof {
                    assert(reg_has(m1.entries(), e, RelationKind::UserInfo));
                    assert(false);
                }
                return Err(ShardError::MigrationFailure);
            },
        };
        self.registry.replace_at(iu, nu);
        let ia = match self.registry.position(&em, RelationKind::Answers) {
            Some(i) => i,
            None => {
                proof {
                    assert(reg_has(m1.entries(), e, RelationKind::UserInfo));
                    assert(reg_has(m1.entries(), e, RelationKind::Answers));
                    crate::registry::lemma_reg_node_update(
                        m1.entries(),
                        iu as int,
                        self.entries()[iu as int],
                        e,
                        RelationKind::Answers,
                    );
                    assert(false);
                }
                return Err(ShardError::MigrationFailure);
            },
        };
        proof {
            assert(iu != ia);
        }
        self.registry.replace_at(ia, na);
        proof {
            assert forall|j: int|
                0 <= j < self.fanin.user_parents@.len() implies (
            #[trigger] self.fanin.user_parents@[j]) != nu by {
                assert(m1.parent_pair_ok(
                    m1.fanin.user_parents@[j] as int,
                    m1.fanin.answer_parents@[j] as int,
                ));
            }
            assert(!self.fanin.user_parents@.contains(nu));
            assert forall|j: int|
                0 <= j < self.fanin.answer_parents@.len() implies (
            #[trigger] self.fanin.answer_parents@[j]) != na by {
                assert(m1.parent_pair_ok(
                    m1.fanin.user_parents@[j] as int,
                    m1.fanin.answer_parents@[j] as int,
                ));
            }
            assert(!self.fanin.answer_parents@.contains(na));
        }
        match crate::fanin::attach_parent(&mut self.fanin.user_parents, nu) {
            Err(_) => {
                proof {
                    assert(false);
                }
                return Err(ShardError::MigrationFailure);
            },
            Ok(_) => {},
        }
        match crate::fanin::attach_parent(&mut self.fanin.answer_parents, na) {
            Err(_) => {
                proof {
                    assert(false);
                }
                return Err(ShardError::MigrationFailure);
            },
            Ok(_) => {},
        }
        self.graph.push_union_parent(self.fanin.user_union, nu);
        self.graph.push_union_parent(self.fanin.answer_union, na);
        proof {
            assert(answer_rows_owned_by(answersv, e));
            assert(answer_keys_unique(answersv));
            assert(usersv.len() == 1);
            assert(usersv[0].email == e);
            self.lemma_import_establishes(
                m1,
                e,
                usersv,
                answersv,
                nu,
                na,
                iu as int,
                ia as int,
                m,
            );
            let sv = ShardV {
                live: true,
                mask: m,
                user_node: nu as nat,
                ans_node: na as nat,
                user_rows: usersv,
                ans_rows: answersv,
            };
            assert(m == usersv[0].mask | crate::perm::MASK_CORE);
            assert(v1.shards.insert(e, sv) =~~= v0.shards.insert(e, sv));
            if was_live {
                assert(v1.live_order == v0.live_order.remove_value(e));
            } else {
                v0.live_order.index_of_first_ensures(e);
                if v0.live_order.contains(e) {
                    m0.lemma_inv_wf();
                    assert(v0.shards[e].live);
                }
                assert(v0.live_order.index_of_first(e) is None) by {
                    if v0.live_order.index_of_first(e) is Some {
                        assert(v0.live_order.contains(e));
                    }
                }
                assert(v1.live_order == v0.live_order.remove_value(e));
            }
            assert(self@ =~~= crate::model::spec_reinstate(v0, blob@, c));
        }
        Ok(ShardHandle { user_node: nu, answers_node: na })
    }

    /// The class roster: every live shard's identity rows, read through
    /// the user-info union in attachment order.
    pub fn roster(&self) -> (r: Vec<UserRow>)
        requires
            self.inv(),
        ensures
            r.deep_view() == crate::model::spec_roster(self@),
    {
        let ghost v = self@;
        let mut out: Vec<UserRow> = Vec::new();
        proof {
            assert(out.deep_view() =~= Seq::<crate::rows::UserRowV>::empty());
            assert(v.live_order.take(0) =~= Seq::<Seq<char>>::empty());
            assert(v.live_order.take(0).flat_map(|e: Seq<char>| v.shards[e].user_rows)
                =~= Seq::<crate::rows::UserRowV>::empty());
        }
        if !self.fanin.bootstrapped {
            proof {
                assert(v.live_order.flat_map(|e: Seq<char>| v.shards[e].user_rows)
                    =~= Seq::<crate::rows::UserRowV>::empty());
            }
            return out;
        }
        let n = self.fanin.user_parents.len();
        let mut j: usize = 0;
        while j < n
            invariant
                0 <= j <= n,
                self.inv(),
                self.fanin.bootstrapped,
                v == self@,
                n == self.fanin.user_parents@.len(),
                out.deep_view() == v.live_order.take(j as int).flat_map(
                    |e: Seq<char>| v.shards[e].user_rows,
                ),
            decreases n - j,
        {
            let p = self.fanin.user_parents[j];
            proof {
                assert(self.parent_pair_ok(
                    p as int,
                    self.fanin.answer_parents@[j as int] as int,
                ));
            }
            let rows = match self.graph.get_user_rows(p) {
                Some(rows) => rows,
                None => {
                    proof {
                        assert(false);
                    }
                    return out;
                },
            };
            let ghost pre = out.deep_view();
            let m = rows.len();
            let mut k: usize = 0;
            while k < m
                invariant
                    0 <= k <= m,
                    m == rows@.len(),
                    out.deep_view() == pre + rows.deep_view().take(k as int),
                decreases m - k,
            {
                let ghost prev = out@;
                let ghost dv0 = out.deep_view();
                let x = rows[k].duplicate();
                proof {
                    assert(x.deep_view() == rows.deep_view()[k as int]);
                }
                out.push(x);
                proof {
                    assert(out@ == prev.push(x));
                    assert(dv0.len() == prev.len());
                    assert(prev.len() == pre.len() + k);
                    let rhs = pre + rows.deep_view().take(k + 1);
                    assert(out.deep_view().len() == rhs.len());
                    assert forall|i2: int| 0 <= i2 < out.deep_view().len() implies (
                    #[trigger] out.deep_view()[i2]) == rhs[i2] by {
                        if i2 < prev.len() {
                            assert(out@[i2] == prev[i2]);
                            assert(out.deep_view()[i2] == prev[i2].deep_view());
                            assert(dv0[i2] == prev[i2].deep_view());
                            assert(dv0[i2] == (pre + rows.deep_view().take(k as int))[i2]);
                            if i2 < pre.len() {
                                assert(rhs[i2] == pre[i2]);
                            } else {
                                assert(rhs[i2] == rows.deep_view().take(k + 1)[i2 - pre.len()]);
                                assert(rows.deep_view().take(k + 1)[i2 - pre.len()]
                                    == rows.deep_view()[i2 - pre.len()]);
                            }
                        } else {
                            assert(out@[i2] == x);
                            assert(out.deep_view()[i2] == x.deep_view());
                            assert(rhs[i2] == rows.deep_view().take(k + 1)[k as int]);
                        }
                    }
                    assert(out.deep_view() =~= rhs);
                }
                k = k + 1;
            }
            proof {
                assert(rows.deep_view().take(m as int) =~= rows.deep_view());
                let e = v.live_order[j as int];
                assert(e == node_owner(self.nodes()[p as int]));
                assert(v.shards.dom().contains(e));
                assert(v.shards[e] == self.shard_view(e));
                assert(v.shards[e].user_rows == rows.deep_view());
                v.live_order.take(j as int).lemma_flat_map_push(
                    |e1: Seq<char>| v.shards[e1].user_rows,
                    e,
                );
                assert(v.live_order.take(j + 1) =~= v.live_order.take(j as int).push(e));
            }
            j = j + 1;
        }
        proof {
            assert(v.live_order.take(n as int) =~= v.live_order);
        }
        out
    }

    /// A gated class-wide answer feed: only answers relations whose
    /// mask has `bit` set contribute, read through the answers union.
    pub fn gated_feed(&self, bit: u8) -> (r: Vec<crate::rows::AnswerRow>)
        requires
            self.inv(),
        ensures
            r.deep_view() == crate::model::spec_gated_agg(self@, bit),
    {
        let ghost v = self@;
        let mut out: Vec<crate::rows::AnswerRow> = Vec::new();
        proof {
            assert(out.deep_view() =~= Seq::<crate::rows::AnswerRowV>::empty());
            assert(v.live_order.take(0) =~= Seq::<Seq<char>>::empty());
            assert(v.live_order.take(0).flat_map(
                |e: Seq<char>| crate::model::spec_gated_segment(v, e, bit),
            ) =~= Seq::<crate::rows::AnswerRowV>::empty());
        }
        if !self.fanin.bootstrapped {
            proof {
                assert(v.live_order.flat_map(
                    |e: Seq<char>| crate::model::spec_gated_segment(v, e, bit),
                ) =~= Seq::<crate::rows::AnswerRowV>::empty());
            }
            return out;
        }
        let n = self.fanin.answer_parents.len();
        let mut j: usize = 0;
        while j < n
            invariant
                0 <= j <= n,
                self.inv(),
                self.fanin.bootstrapped,
                v == self@,
                n == self.fanin.answer_parents@.len(),
                n == self.fanin.user_parents@.len(),
                out.deep_view() == v.live_order.take(j as int).flat_map(
                    |e: Seq<char>| crate::model::spec_gated_segment(v, e, bit),
                ),
            decreases n - j,
        {
            let q = self.fanin.answer_parents[j];
            proof {
                assert(self.parent_pair_ok(
                    self.fanin.user_parents@[j as int] as int,
                    q as int,
                ));
            }
            let ghost e = v.live_order[j as int];
            proof {
                assert(e == node_owner(
                    self.nodes()[self.fanin.user_parents@[j as int] as int],
                ));
                assert(e == node_owner(self.nodes()[q as int]));
                assert(v.shards.dom().contains(e)) by {
                    assert(reg_has(
                        self.entries(),
                        node_owner(self.nodes()[q as int]),
                        RelationKind::UserInfo,
                    ));
                }
                assert(v.shards[e] == self.shard_view(e));
                assert(v.shards[e].mask == node_mask(self.nodes()[q as int]));
                assert(v.shards[e].ans_rows == node_answer_rows(self.nodes()[q as int]));
            }
            let mask = self.graph.node_mask_at(q);
            let ghost pre = out.deep_view();
            if mask & bit != 0 {
                let rows = match self.graph.get_answer_rows(q) {
                    Some(rows) => rows,
                    None => {
                        proof {
                            assert(false);
                        }
                        return out;
                    },
                };
                let m = rows.len();
                let mut k: usize = 0;
                while k < m
                    invariant
                        0 <= k <= m,
                        m == rows@.len(),
                        out.deep_view() == pre + rows.deep_view().take(k as int),
                    decreases m - k,
                {
                    let ghost prev = out@;
                    let ghost dv0 = out.deep_view();
                    let x = rows[k].duplicate();
                    proof {
                        assert(x.deep_view() == rows.deep_view()[k as int]);
                    }
                    out.push(x);
                    proof {
                        assert(out@ == prev.push(x));
                        assert(dv0.len() == prev.len());
                        assert(prev.len() == pre.len() + k);
                        let rhs = pre + rows.deep_view().take(k + 1);
                        assert(out.deep_view().len() == rhs.len());
                        assert forall|i2: int| 0 <= i2 < out.deep_view().len() implies (
                        #[trigger] out.deep_view()[i2]) == rhs[i2] by {
                            if i2 < prev.len() {
                                assert(out@[i2] == prev[i2]);
                                assert(out.deep_view()[i2] == prev[i2].deep_view());
                                assert(dv0[i2] == prev[i2].deep_view());
                                assert(dv0[i2] == (pre + rows.deep_view().take(k as int))[i2]);
                                if i2 < pre.len() {
                                    assert(rhs[i2] == pre[i2]);
                                } else {
                                    assert(rhs[i2] == rows.deep_view().take(k + 1)[i2 - pre.len()]);
                                    assert(rows.deep_view().take(k + 1)[i2 - pre.len()]
                                        == rows.deep_view()[i2 - pre.len()]);
                                }
                            } else {
                                assert(out@[i2] == x);
                                assert(out.deep_view()[i2] == x.deep_view());
                                assert(rhs[i2] == rows.deep_view().take(k + 1)[k as int]);
                            }
                        }
                        assert(out.deep_view() =~= rhs);
                    }
                    k = k + 1;
                }
                proof {
                    assert(rows.deep_view().take(m as int) =~= rows.deep_view());
                    assert(crate::model::spec_gated_segment(v, e, bit) == rows.deep_view());
                }
            } else {
                proof {
                    assert(crate::model::spec_gated_segment(v, e, bit)
                        =~= Seq::<crate::rows::AnswerRowV>::empty());
                    assert(pre + crate::model::spec_gated_segment(v, e, bit) =~= pre);
                }
            }
            proof {
                v.live_order.take(j as int).lemma_flat_map_push(
                    |e1: Seq<char>| crate::model::spec_gated_segment(v, e1, bit),
                    e,
                );
                assert(v.live_order.take(j + 1) =~= v.live_order.take(j as int).push(e));
            }
            j = j + 1;
        }
        proof {
            assert(v.live_order.take(n as int) =~= v.live_order);
        }
        out
    }

    /// The ungated class-wide answer view: every live shard's answers,
    /// read through the answers union in attachment order.
    pub fn answers_aggregate(&self) -> (r: Vec<crate::rows::AnswerRow>)
        requires
            self.inv(),
        ensures
            r.deep_view() == crate::model::spec_answers_agg(self@),
    {
        let ghost v = self@;
        let mut out: Vec<crate::rows::AnswerRow> = Vec::new();
        proof {
            assert(out.deep_view() =~= Seq::<crate::rows::AnswerRowV>::empty());
            assert(v.live_order.take(0) =~= Seq::<Seq<char>>::empty());
            assert(v.live_order.take(0).flat_map(|e: Seq<char>| v.shards[e].ans_rows)
                =~= Seq::<crate::rows::AnswerRowV>::empty());
        }
        if !self.fanin.bootstrapped {
            proof {
                assert(v.live_order.flat_map(|e: Seq<char>| v.shards[e].ans_rows)
                    =~= Seq::<crate::rows::AnswerRowV>::empty());
            }
            return out;
        }
        let n = self.fanin.answer_parents.len();
        let mut j: usize = 0;
        while j < n
            invariant
                0 <= j <= n,
                self.inv(),
                self.fanin.bootstrapped,
                v == self@,
                n == self.fanin.answer_parents@.len(),
                n == self.fanin.user_parents@.len(),
                out.deep_view() == v.live_order.take(j as int).flat_map(
                    |e: Seq<char>| v.shards[e].ans_rows,
                ),
            decreases n - j,
        {
            let q = self.fanin.answer_parents[j];
            proof {
                assert(self.parent_pair_ok(
                    self.fanin.user_parents@[j as int] as int,
                    q as int,
                ));
            }
            let ghost e = v.live_order[j as int];
            proof {
                assert(e == node_owner(
                    self.nodes()[self.fanin.user_parents@[j as int] as int],
                ));
                assert(e == node_owner(self.nodes()[q as int]));
                assert(v.shards.dom().contains(e)) by {
                    assert(reg_has(
                        self.entries(),
                        node_owner(self.nodes()[q as int]),
                        RelationKind::UserInfo,
                    ));
                }
                assert(v.shards[e] == self.shard_view(e));
                assert(v.shards[e].ans_rows == node_answer_rows(self.nodes()[q as int]));
            }
            let rows = match self.graph.get_answer_rows(q) {
                Some(rows) => rows,
                None => {
                    proof {
                        assert(false);
                    }
                    return out;
                },
            };
            let ghost pre = out.deep_view();
            let m = rows.len();
            let mut k: usize = 0;
            while k < m
                invariant
                    0 <= k <= m,
                    m == rows@.len(),
                    out.deep_view() == pre + rows.deep_view().take(k as int),
                decreases m - k,
            {
                let ghost prev = out@;
                let ghost dv0 = out.deep_view();
                let x = rows[k].duplicate();
                proof {
                    assert(x.deep_view() == rows.deep_view()[k as int]);
                }
                out.push(x);
                proof {
                    assert(out@ == prev.push(x));
                    assert(dv0.len() == prev.len());
                    assert(prev.len() == pre.len() + k);
                    let rhs = pre + rows.deep_view().take(k + 1);
                    assert(out.deep_view().len() == rhs.len());
                    assert forall|i2: int| 0 <= i2 < out.deep_view().len() implies (
                    #[trigger] out.deep_view()[i2]) == rhs[i2] by {
                        if i2 < prev.len() {
                            assert(out@[i2] == prev[i2]);
                            assert(out.deep_view()[i2] == prev[i2].deep_view());
                            assert(dv0[i2] == prev[i2].deep_view());
                            assert(dv0[i2] == (pre + rows.deep_view().take(k as int))[i2]);
                            if i2 < pre.len() {
                                assert(rhs[i2] == pre[i2]);
                            } else {
                                assert(rhs[i2] == rows.deep_view().take(k + 1)[i2 - pre.len()]);
                                assert(rows.deep_view().take(k + 1)[i2 - pre.len()]
                                    == rows.deep_view()[i2 - pre.len()]);
                            }
                        } else {
                            assert(out@[i2] == x);
                            assert(out.deep_view()[i2] == x.deep_view());
                            assert(rhs[i2] == rows.deep_view().take(k + 1)[k as int]);
                        }
                    }
                    assert(out.deep_view() =~= rhs);
                }
                k = k + 1;
            }
            proof {
                assert(rows.deep_view().take(m as int) =~= rows.deep_view());
                v.live_order.take(j as int).lemma_flat_map_push(
                    |e1: Seq<char>| v.shards[e1].ans_rows,
                    e,
                );
                assert(v.live_order.take(j + 1) =~= v.live_order.take(j as int).push(e));
            }
            j = j + 1;
        }
        proof {
            assert(v.live_order.take(n as int) =~= v.live_order);
        }
        out
    }

    /// The cross-principal answer feed, gated by mask bit 0.
    pub fn faq_feed(&self) -> (r: Vec<crate::rows::AnswerRow>)
        requires
            self.inv(),
        ensures
            r.deep_view() == crate::model::spec_faq(self@),
    {
        self.gated_feed(crate::perm::MASK_ANSWERS_VISIBLE)
    }

    /// The research aggregate, gated by mask bit 1.
    pub fn research_feed(&self) -> (r: Vec<crate::rows::AnswerRow>)
        requires
            self.inv(),
        ensures
            r.deep_view() == crate::model::spec_research(self@),
    {
        self.gated_feed(crate::perm::MASK_RESEARCH)
    }

    /// A principal-scoped view: the shard's own answers for one lecture.
    pub fn my_answers(&self, email: &String, lecture: u64) -> (r: Vec<crate::rows::AnswerRow>)
        requires
            self.inv(),
        ensures
            r.deep_view() == crate::model::spec_my_answers(self@, email@, lecture),
    {
        let ghost v = self@;
        let ghost e = email@;
        let mut out: Vec<crate::rows::AnswerRow> = Vec::new();
        let an = match self.registry.lookup(email, RelationKind::Answers) {
            None => {
                proof {
                    assert(!reg_has(self.entries(), e, RelationKind::UserInfo));
                    assert(!crate::model::shard_exists(v, e));
                    assert(out.deep_view() =~= Seq::<crate::rows::AnswerRowV>::empty());
                }
                return out;
            },
            Some(a) => a,
        };
        proof {
            lemma_reg_node_index(self.entries(), e, RelationKind::Answers);
            let ka = choose|i: int|
                0 <= i < self.entries().len() && (#[trigger] self.entries()[i]).email@ == e
                    && self.entries()[i].kind == RelationKind::Answers
                    && self.entries()[i].node as nat == reg_node(
                    self.entries(),
                    e,
                    RelationKind::Answers,
                )->0;
            assert(self.entry_ok(ka));
            assert(reg_has(self.entries(), e, RelationKind::UserInfo));
            assert(crate::model::shard_exists(v, e));
            assert(v.shards[e] == self.shard_view(e));
        }
        let rows = match self.graph.get_answer_rows(an) {
            Some(rows) => rows,
            None => {
                proof {
                    assert(false);
                }
                return out;
            },
        };
        let ghost rv = rows.deep_view();
        let n = rows.len();
        let mut k: usize = 0;
        proof {
            assert(out.deep_view() =~= Seq::<crate::rows::AnswerRowV>::empty());
            assert(rv.take(0) =~= Seq::<crate::rows::AnswerRowV>::empty());
            assert(rv.take(0).filter(|r1: crate::rows::AnswerRowV| r1.lecture == lecture)
                =~= Seq::<crate::rows::AnswerRowV>::empty());
        }
        while k < n
            invariant
                0 <= k <= n,
                n == rows@.len(),
                rv == rows.deep_view(),
                out.deep_view() == rv.take(k as int).filter(
                    |r1: crate::rows::AnswerRowV| r1.lecture == lecture,
                ),
            decreases n - k,
        {
            proof {
                assert(rv.take(k + 1) =~= rv.take(k as int).push(rv[k as int]));
                rv.take(k as int).lemma_filter_push(
                    rv[k as int],
                    |r1: crate::rows::AnswerRowV| r1.lecture == lecture,
                );
            }
            if rows[k].lecture == lecture {
                out.push(rows[k].duplicate());
            }
            k = k + 1;
        }
        proof {
            assert(rv.take(n as int) =~= rv);
        }
        out
    }

    /// The email key of the principal whose credential is presented, if
    /// any principal carries it.
    pub fn lookup_principal_by_credential(&self, credential: &String) -> (r: Option<String>)
        requires
            self.inv(),
        ensures
            match r {
                Some(em) => {
                    &&& crate::model::shard_exists(self@, em@)
                    &&& self@.shards[em@].credential() == credential@
                },
                None => forall|e: Seq<char>|
                    crate::model::shard_exists(self@, e) ==> (#[trigger] self@.shards[e]).credential()
                        != credential@,
            },
    {
        let ghost v = self@;
        let n = self.registry.entries.len();
        let mut i: usize = 0;
        while i < n
            invariant
                0 <= i <= n,
                self.inv(),
                v == self@,
                n == self.entries().len(),
                forall|k: int|
                    0 <= k < i && (#[trigger] self.entries()[k]).kind == RelationKind::UserInfo
                        ==> node_user_rows(
                        self.nodes()[self.entries()[k].node as int],
                    )[0].credential != credential@,
            decreases n - i,
        {
            let entry_kind = self.registry.entries[i].kind;
            if entry_kind == RelationKind::UserInfo {
                proof {
                    assert(self.entry_ok(i as int));
                }
                let node = self.registry.entries[i].node;
                let rows = match self.graph.get_user_rows(node) {
                    Some(rows) => rows,
                    None => {
                        proof {
                            assert(false);
                        }
                        return None;
                    },
                };
                if rows[0].credential == *credential {
                    let em = self.registry.entries[i].email.clone();
                    proof {
                        let ghost e = em@;
                        crate::registry::lemma_reg_node_at(self.entries(), i as int);
                        assert(reg_has(self.entries(), e, RelationKind::UserInfo));
                        assert(crate::model::shard_exists(v, e));
                        assert(v.shards[e] == self.shard_view(e));
                        assert(v.shards[e].user_rows[0].credential == credential@);
                    }
                    return Some(em);
                }
            }
            i = i + 1;
        }
        proof {
            assert forall|e: Seq<char>| crate::model::shard_exists(v, e) implies (
            #[trigger] v.shards[e]).credential() != credential@ by {
                assert(reg_has(self.entries(), e, RelationKind::UserInfo));
                lemma_reg_node_index(self.entries(), e, RelationKind::UserInfo);
                let iu = choose|k: int|
                    0 <= k < self.entries().len() && (#[trigger] self.entries()[k]).email@ == e
                        && self.entries()[k].kind == RelationKind::UserInfo
                        && self.entries()[k].node as nat == reg_node(
                        self.entries(),
                        e,
                        RelationKind::UserInfo,
                    )->0;
                assert(v.shards[e] == self.shard_view(e));
                assert(node_user_rows(self.nodes()[self.entries()[iu].node as int])[0].credential
                    != credential@);
            }
        }
        None
    }

    /// Retires the shard of the principal carrying the presented
    /// credential, as the routing layer asks for it.
    pub fn retire_shard_by_credential(&mut self, credential: &String) -> (r: Result<
        (),
        ShardError,
    >)
        requires
            old(self).inv(),
        ensures
            final(self).inv(),
            (exists|e: Seq<char>|
                {
                    &&& #[trigger] crate::model::shard_exists(old(self)@, e)
                    &&& old(self)@.shards[e].credential() == credential@
                    &&& final(self)@ == crate::model::spec_retire(old(self)@, e)
                    &&& (r is Ok <==> crate::model::spec_can_write(old(self)@, e))
                }) || ({
                &&& *final(self) == *old(self)
                &&& r matches Err(err2) && err2 == ShardError::UnknownShard
                &&& forall|e: Seq<char>|
                    crate::model::shard_exists(old(self)@, e) ==> (
                    #[trigger] old(self)@.shards[e]).credential() != credential@
            }),
    {
        match self.lookup_principal_by_credential(credential) {
            None => Err(ShardError::UnknownShard),
            Some(email) => self.retire_shard(&email),
        }
    }

    /// Exports the shard of the principal carrying the presented
    /// credential, as the routing layer asks for it.
    pub fn export_shard_by_credential(&mut self, credential: &String) -> (r: Result<
        Vec<u8>,
        ShardError,
    >)
        requires
            old(self).inv(),
        ensures
            final(self).inv(),
            (exists|e: Seq<char>|
                {
                    &&& #[trigger] crate::model::shard_exists(old(self)@, e)
                    &&& old(self)@.shards[e].credential() == credential@
                    &&& final(self)@ == crate::model::spec_export(old(self)@, e)
                    &&& (r matches Ok(blob) ==> blob@ == crate::model::spec_export_blob(
                        old(self)@,
                        e,
                    ))
                }) || ({
                &&& *final(self) == *old(self)
                &&& r matches Err(err2) && err2 == ShardError::UnknownShard
                &&& forall|e: Seq<char>|
                    crate::model::shard_exists(old(self)@, e) ==> (
                    #[trigger] old(self)@.shards[e]).credential() != credential@
            }),
    {
        match self.lookup_principal_by_credential(credential) {
            None => Err(ShardError::UnknownShard),
            Some(email) => self.export_shard(&email),
        }
    }

    /// Changes the permission mask of the principal carrying the
    /// presented credential, as the routing layer asks for it.
    pub fn change_permission_by_credential(&mut self, credential: &String, new_bits: u8) -> (r:
        Result<usize, ShardError>)
        requires
            old(self).inv(),
        ensures
            final(self).inv(),
            (exists|e: Seq<char>|
                {
                    &&& #[trigger] crate::model::shard_exists(old(self)@, e)
                    &&& old(self)@.shards[e].credential() == credential@
                    &&& final(self)@ == crate::model::spec_change_permission(
                        old(self)@,
                        e,
                        new_bits,
                    )
                    &&& (r is Ok <==> crate::model::spec_can_write(old(self)@, e))
                }) || ({
                &&& *final(self) == *old(self)
                &&& r matches Err(err2) && err2 == ShardError::UnknownShard
                &&& forall|e: Seq<char>|
                    crate::model::shard_exists(old(self)@, e) ==> (
                    #[trigger] old(self)@.shards[e]).credential() != credential@
            }),
    {
        match self.lookup_principal_by_credential(credential) {
            None => Err(ShardError::UnknownShard),
            Some(email) => self.change_permission(&email, new_bits),
        }
    }

    /// A fresh manager around an empty graph.
    pub fn new(secret: String, default_mask: u8) -> (m: ShardManager)
        ensures
            m.inv(),
            m@.shards =~= Map::<Seq<char>, ShardV>::empty(),
            m@.live_order =~= Seq::<Seq<char>>::empty(),
            m@.prints =~= Map::<Seq<char>, Seq<char>>::empty(),
            m@.next_node == 0,
            m@.union_user is None,
            m@.secret == secret@,
            m@.default_mask == default_mask,
    {
        let m = ShardManager {
            graph: ViewGraph::new(),
            registry: NodeRegistry::new(),
            fanin: UnionFanIn::new(),
            prints: Vec::new(),
            secret,
            default_mask,
        };
        proof {
            assert forall|e: Seq<char>| !reg_has(m.entries(), e, RelationKind::UserInfo) by {
                assert(reg_node(m.entries(), e, RelationKind::UserInfo) is None);
            }
            assert(m@.shards =~= Map::<Seq<char>, ShardV>::empty());
            assert forall|c: Seq<char>| !(fp_of(m.prints@, c) is Some) by {
                assert(fp_of(m.prints@, c) is None);
            }
            assert(m@.prints =~= Map::<Seq<char>, Seq<char>>::empty());
        }
        m
    }
}

} // verus!
