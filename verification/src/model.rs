//! The mathematical model of the shard manager: an abstract state, one
//! transition function per lifecycle operation, and the class-wide view
//! contents read off the abstract state.
//!
//! Every public operation of the manager is specified as a function of
//! this model; the laws about the lifecycle are stated and proved over
//! it.

use vstd::prelude::*;

use crate::codec::{spec_deserialize, spec_serialize};
use crate::errors::ShardError;
use crate::hash::fingerprint_of;
use crate::perm::{answers_visible, core_live, research_opted_in, spec_mask_for, MASK_ANSWERS_VISIBLE, MASK_CORE, MASK_RESEARCH};
use crate::rows::{answer_keys_unique, answer_rows_owned_by, AnswerRowV, UserRowV};
use crate::text::spec_escape;

verus! {

/// The model of one shard: its two relations' contents, the mask of its
/// answers relation, and its relations' node identities.
#[verifier::ext_equal]
pub ghost struct ShardV {
    pub live: bool,
    pub mask: u8,
    pub user_node: nat,
    pub ans_node: nat,
    pub user_rows: Seq<UserRowV>,
    pub ans_rows: Seq<AnswerRowV>,
}

impl ShardV {
    /// The credential seeded into the identity row.
    pub open spec fn credential(self) -> Seq<char> {
        self.user_rows[0].credential
    }
}

/// The abstract state of the manager.
#[verifier::ext_equal]
pub ghost struct ManagerView {
    /// Every registered shard, live or retired, by email key.
    pub shards: Map<Seq<char>, ShardV>,
    /// The live shards' email keys in union-attachment order.
    pub live_order: Seq<Seq<char>>,
    /// How many graph nodes exist; identities below this are taken.
    pub next_node: nat,
    /// The stable identity of the user-info union, once bootstrapped.
    pub union_user: Option<nat>,
    /// The stable identity of the answers union, once bootstrapped.
    pub union_ans: Option<nat>,
    /// Stored export fingerprints, by credential.
    pub prints: Map<Seq<char>, Seq<char>>,
    /// The server secret the keyed hashes use.
    pub secret: Seq<char>,
    /// The configured default permission mask.
    pub default_mask: u8,
}

/// Whether a shard is registered under this email key.
pub open spec fn shard_exists(v: ManagerView, e: Seq<char>) -> bool {
    v.shards.dom().contains(e)
}

/// Well-formedness of one shard's model.
pub open spec fn shard_wf(v: ManagerView, e: Seq<char>) -> bool {
    let sv = v.shards[e];
    &&& sv.user_rows.len() == 1
    &&& sv.user_rows[0].email == e
    &&& answer_rows_owned_by(sv.ans_rows, e)
    &&& answer_keys_unique(sv.ans_rows)
    &&& sv.user_node < v.next_node
    &&& sv.ans_node < v.next_node
    &&& sv.user_node != sv.ans_node
    &&& (sv.live ==> core_live(sv.mask))
}

/// Well-formedness of the whole abstract state.
pub open spec fn wf(v: ManagerView) -> bool {
    &&& forall|e: Seq<char>| #[trigger] v.shards.dom().contains(e) ==> shard_wf(v, e)
    &&& forall|e1: Seq<char>, e2: Seq<char>|
        #[trigger] v.shards.dom().contains(e1) && #[trigger] v.shards.dom().contains(e2) && e1
            != e2 ==> v.shards[e1].user_node != v.shards[e2].user_node && v.shards[e1].user_node
            != v.shards[e2].ans_node && v.shards[e1].ans_node != v.shards[e2].ans_node
    &&& forall|e: Seq<char>|
        #[trigger] v.live_order.contains(e) <==> (v.shards.dom().contains(e) && v.shards[e].live)
    &&& v.live_order.no_duplicates()
    &&& (v.union_user is Some <==> v.union_ans is Some)
    &&& forall|e: Seq<char>| #[trigger] v.shards.dom().contains(e) ==> v.union_user is Some
}

/// The model of a freshly provisioned shard.
pub open spec fn spec_new_shard(
    e: Seq<char>,
    cred: Seq<char>,
    staff: bool,
    mask: u8,
    un: nat,
    an: nat,
) -> ShardV {
    ShardV {
        live: true,
        mask,
        user_node: un,
        ans_node: an,
        user_rows: seq![UserRowV { email: e, credential: cred, is_admin: staff, mask }],
        ans_rows: Seq::empty(),
    }
}

/// How many nodes the bootstrap migration creates: two base relations,
/// two unions, four class-wide views, one principal-scoped view.
pub open spec fn bootstrap_node_count() -> nat {
    9
}

/// How many nodes the extension migration creates: two base relations
/// and one principal-scoped view.
pub open spec fn extension_node_count() -> nat {
    3
}

/// Provisioning: no change when the shard already exists; otherwise the
/// bootstrap or extension migration, decided by whether the unions
/// exist, followed by seeding the identity row.
pub open spec fn spec_provision(
    v: ManagerView,
    e: Seq<char>,
    cred: Seq<char>,
    staff: bool,
) -> ManagerView {
    if shard_exists(v, e) {
        v
    } else {
        let mask = spec_mask_for(staff, v.default_mask);
        let sv = spec_new_shard(e, cred, staff, mask, v.next_node, v.next_node + 1);
        if v.union_user is None {
            ManagerView {
                shards: v.shards.insert(e, sv),
                live_order: v.live_order.push(e),
                next_node: v.next_node + bootstrap_node_count(),
                union_user: Some(v.next_node + 2),
                union_ans: Some(v.next_node + 3),
                prints: v.prints,
                secret: v.secret,
                default_mask: v.default_mask,
            }
        } else {
            ManagerView {
                shards: v.shards.insert(e, sv),
                live_order: v.live_order.push(e),
                next_node: v.next_node + extension_node_count(),
                union_user: v.union_user,
                union_ans: v.union_ans,
                prints: v.prints,
                secret: v.secret,
                default_mask: v.default_mask,
            }
        }
    }
}

/// Whether a submission can be accepted: the shard exists and is live.
pub open spec fn spec_can_write(v: ManagerView, e: Seq<char>) -> bool {
    shard_exists(v, e) && v.shards[e].live
}

/// Inserting a row keyed by `(lecture, question)`: an existing row with
/// that key is replaced, otherwise the row is appended.
pub open spec fn spec_upsert(rows: Seq<AnswerRowV>, r: AnswerRowV) -> Seq<AnswerRowV> {
    if exists|i: int|
        0 <= i < rows.len() && (#[trigger] rows[i]).lecture == r.lecture && rows[i].question
            == r.question {
        let i = choose|i: int|
            0 <= i < rows.len() && (#[trigger] rows[i]).lecture == r.lecture && rows[i].question
                == r.question;
        rows.update(i, r)
    } else {
        rows.push(r)
    }
}

/// Upserting keeps the keys unique and the rows attributed.
pub proof fn lemma_upsert_props(rows: Seq<AnswerRowV>, r: AnswerRowV, e: Seq<char>)
    requires
        answer_keys_unique(rows),
        answer_rows_owned_by(rows, e),
        r.email == e,
    ensures
        answer_keys_unique(spec_upsert(rows, r)),
        answer_rows_owned_by(spec_upsert(rows, r), e),
{
    if exists|i: int|
        0 <= i < rows.len() && (#[trigger] rows[i]).lecture == r.lecture && rows[i].question
            == r.question {
        let i = choose|i: int|
            0 <= i < rows.len() && (#[trigger] rows[i]).lecture == r.lecture && rows[i].question
                == r.question;
        let u = rows.update(i, r);
        assert forall|a: int, b: int| 0 <= a < b < u.len() implies !((#[trigger] u[a]).lecture == (
        #[trigger] u[b]).lecture && u[a].question == u[b].question) by {
            if a == i {
                assert(u[b] == rows[b]);
                if u[a].lecture == u[b].lecture && u[a].question == u[b].question {
                    assert(rows[i].lecture == rows[b].lecture && rows[i].question
                        == rows[b].question);
                    if i < b {
                        assert(false);
                    } else {
                        assert(false);
                    }
                }
            } else if b == i {
                assert(u[a] == rows[a]);
                if u[a].lecture == u[b].lecture && u[a].question == u[b].question {
                    assert(rows[a].lecture == rows[i].lecture && rows[a].question
                        == rows[i].question);
                    if a < i {
                        assert(false);
                    } else {
                        assert(false);
                    }
                }
            } else {
                assert(u[a] == rows[a]);
                assert(u[b] == rows[b]);
            }
        }
        assert forall|a: int| 0 <= a < u.len() implies (#[trigger] u[a]).email == e by {
            if a != i {
                assert(u[a] == rows[a]);
            }
        }
    } else {
        let u = rows.push(r);
        assert forall|a: int, b: int| 0 <= a < b < u.len() implies !((#[trigger] u[a]).lecture == (
        #[trigger] u[b]).lecture && u[a].question == u[b].question) by {
            if b == rows.len() {
                assert(u[a] == rows[a]);
                assert(u[b] == r);
            } else {
                assert(u[a] == rows[a]);
                assert(u[b] == rows[b]);
            }
        }
        assert forall|a: int| 0 <= a < u.len() implies (#[trigger] u[a]).email == e by {
            if a < rows.len() {
                assert(u[a] == rows[a]);
            } else {
                assert(u[a] == r);
            }
        }
    }
}

/// The row a submission stores: the text is escaped first.
pub open spec fn spec_submitted_row(
    e: Seq<char>,
    lecture: u64,
    question: u64,
    text: Seq<char>,
    at: u64,
) -> AnswerRowV {
    AnswerRowV { email: e, lecture, question, text: spec_escape(text), submitted_at: at }
}

/// Submitting an answer into a live shard's answers relation.
pub open spec fn spec_submit(
    v: ManagerView,
    e: Seq<char>,
    lecture: u64,
    question: u64,
    text: Seq<char>,
    at: u64,
) -> ManagerView {
    if !spec_can_write(v, e) {
        v
    } else {
        let sv = v.shards[e];
        let sv2 = ShardV {
            ans_rows: spec_upsert(sv.ans_rows, spec_submitted_row(e, lecture, question, text, at)),
            ..sv
        };
        ManagerView { shards: v.shards.insert(e, sv2), ..v }
    }
}

/// Retiring: both relations stop accepting writes and leave the unions.
pub open spec fn spec_retire(v: ManagerView, e: Seq<char>) -> ManagerView {
    if !spec_can_write(v, e) {
        v
    } else {
        let sv = v.shards[e];
        ManagerView {
            shards: v.shards.insert(e, ShardV { live: false, ..sv }),
            live_order: v.live_order.remove_value(e),
            ..v
        }
    }
}

/// The blob an export returns.
pub open spec fn spec_export_blob(v: ManagerView, e: Seq<char>) -> Seq<u8> {
    spec_serialize(v.shards[e].user_rows, v.shards[e].ans_rows)
}

/// Exporting: the blob's keyed fingerprint is stored under the shard's
/// credential; nothing else changes.
pub open spec fn spec_export(v: ManagerView, e: Seq<char>) -> ManagerView {
    if !shard_exists(v, e) {
        v
    } else {
        ManagerView {
            prints: v.prints.insert(
                v.shards[e].credential(),
                fingerprint_of(spec_export_blob(v, e), v.secret),
            ),
            ..v
        }
    }
}

/// The outcomes reinstatement can have.
pub ghost enum ReinstateCheck {
    /// No fingerprint is stored under the presented credential.
    NoPrint,
    /// The blob's keyed hash differs from the stored fingerprint.
    PrintMismatch,
    /// The blob does not parse back into a shard's relations.
    Corrupt,
    /// The blob's identity row does not carry the presented credential.
    WrongOwner,
    /// The blob names a principal that was never provisioned.
    NoShard,
    /// The blob is whole and may be imported for this email key.
    Accept { email: Seq<char> },
}

/// The decision reinstatement takes, in checking order: stored
/// fingerprint, keyed hash, parse, blob shape, credential, registry.
pub open spec fn spec_reinstate_check(
    v: ManagerView,
    blob: Seq<u8>,
    cred: Seq<char>,
) -> ReinstateCheck {
    if !v.prints.dom().contains(cred) {
        ReinstateCheck::NoPrint
    } else if v.prints[cred] != fingerprint_of(blob, v.secret) {
        ReinstateCheck::PrintMismatch
    } else {
        match spec_deserialize(blob) {
            None => ReinstateCheck::Corrupt,
            Some((users, answers)) => if users.len() != 1 || !answer_rows_owned_by(
                answers,
                users[0].email,
            ) || !answer_keys_unique(answers) {
                ReinstateCheck::Corrupt
            } else if users[0].credential != cred {
                ReinstateCheck::WrongOwner
            } else if !shard_exists(v, users[0].email) {
                ReinstateCheck::NoShard
            } else {
                ReinstateCheck::Accept { email: users[0].email }
            },
        }
    }
}

/// The error each failed reinstatement check surfaces.
pub open spec fn reinstate_error(c: ReinstateCheck) -> ShardError {
    match c {
        ReinstateCheck::NoPrint => ShardError::UnknownShard,
        ReinstateCheck::PrintMismatch => ShardError::IntegrityMismatch,
        ReinstateCheck::Corrupt => ShardError::BlobCorrupt,
        ReinstateCheck::WrongOwner => ShardError::IntegrityMismatch,
        ReinstateCheck::NoShard => ShardError::UnknownShard,
        ReinstateCheck::Accept { .. } => ShardError::UnknownShard,
    }
}

/// Reinstating: after the checks pass, the blob's relations are
/// imported under fresh node identities, the registry entries are
/// replaced, and the shard rejoins the unions at the end.
pub open spec fn spec_reinstate(v: ManagerView, blob: Seq<u8>, cred: Seq<char>) -> ManagerView {
    match spec_reinstate_check(v, blob, cred) {
        ReinstateCheck::Accept { email } => {
            let (users, answers) = spec_deserialize(blob)->0;
            let sv = ShardV {
                live: true,
                mask: users[0].mask | MASK_CORE,
                user_node: v.next_node,
                ans_node: v.next_node + 1,
                user_rows: users,
                ans_rows: answers,
            };
            ManagerView {
                shards: v.shards.insert(email, sv),
                live_order: v.live_order.remove_value(email).push(email),
                next_node: v.next_node + extension_node_count(),
                ..v
            }
        },
        _ => v,
    }
}

/// Changing a live shard's permission: the answers relation is rebuilt
/// empty under a fresh identity with the new mask (the core flag forced
/// on), superseding the old relation in the union and the registry.
pub open spec fn spec_change_permission(v: ManagerView, e: Seq<char>, new_bits: u8) -> ManagerView {
    if !spec_can_write(v, e) {
        v
    } else {
        let sv = v.shards[e];
        let sv2 = ShardV {
            mask: new_bits | MASK_CORE,
            ans_node: v.next_node,
            ans_rows: Seq::empty(),
            ..sv
        };
        ManagerView {
            shards: v.shards.insert(e, sv2),
            next_node: v.next_node + 2,
            ..v
        }
    }
}

/// The rows one live shard feeds into a gated class-wide view: all of
/// its answer rows if its mask has the bit set, none if not.
pub open spec fn spec_gated_segment(v: ManagerView, e: Seq<char>, bit: u8) -> Seq<AnswerRowV> {
    if v.shards[e].mask & bit != 0 {
        v.shards[e].ans_rows
    } else {
        Seq::empty()
    }
}

/// The class roster: every live shard's identity rows, in attachment
/// order.
pub open spec fn spec_roster(v: ManagerView) -> Seq<UserRowV> {
    v.live_order.flat_map(|e: Seq<char>| v.shards[e].user_rows)
}

/// The ungated aggregate answer view: every live shard's answers.
pub open spec fn spec_answers_agg(v: ManagerView) -> Seq<AnswerRowV> {
    v.live_order.flat_map(|e: Seq<char>| v.shards[e].ans_rows)
}

/// A gated aggregate answer view: only relations whose mask has `bit`
/// set contribute.
pub open spec fn spec_gated_agg(v: ManagerView, bit: u8) -> Seq<AnswerRowV> {
    v.live_order.flat_map(|e: Seq<char>| spec_gated_segment(v, e, bit))
}

/// The cross-principal answer feed, gated by mask bit 0.
pub open spec fn spec_faq(v: ManagerView) -> Seq<AnswerRowV> {
    spec_gated_agg(v, MASK_ANSWERS_VISIBLE)
}

/// The research aggregate, gated by mask bit 1.
pub open spec fn spec_research(v: ManagerView) -> Seq<AnswerRowV> {
    spec_gated_agg(v, MASK_RESEARCH)
}

/// A principal-scoped view: the shard's own answers for one lecture.
pub open spec fn spec_my_answers(v: ManagerView, e: Seq<char>, lecture: u64) -> Seq<AnswerRowV> {
    if shard_exists(v, e) {
        v.shards[e].ans_rows.filter(|r: AnswerRowV| r.lecture == lecture)
    } else {
        Seq::empty()
    }
}

} // verus!
