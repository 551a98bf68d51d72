//! The laws of the shard lifecycle, stated and proved over the model:
//! registration is idempotent, the class-wide views fan every live
//! shard in exactly once, provisioning order does not show in the
//! class-wide views, gating keeps invisible shards out of the gated
//! feeds, an exported shard reinstates to its exact row content under
//! fresh identities, and a tampered-with blob changes nothing.

use vstd::prelude::*;
use vstd::seq_lib::lemma_multiset_commutative;

use crate::codec::{answer_rows_encodable, user_rows_encodable};
use crate::hash::fingerprint_of;
use crate::model::{shard_exists, spec_answers_agg, spec_export, spec_export_blob, spec_faq, spec_gated_segment, spec_provision, spec_reinstate, spec_reinstate_check, spec_research, spec_retire, spec_roster, wf, ManagerView, ReinstateCheck};
use crate::perm::answers_visible;
use crate::rows::{AnswerRowV, UserRowV};

verus! {

/// A sequence whose members all satisfy the predicate filters to itself.
proof fn lemma_filter_all_true<T>(s: Seq<T>, p: spec_fn(T) -> bool)
    requires
        forall|i: int| 0 <= i < s.len() ==> p(#[trigger] s[i]),
    ensures
        s.filter(p) == s,
    decreases s.len(),
{
    if s.len() == 0 {
        assert(s.filter(p) =~= s);
    } else {
        let s0 = s.drop_last();
        assert(forall|i: int| 0 <= i < s0.len() ==> p(#[trigger] s0[i])) by {
            assert(forall|i: int| 0 <= i < s0.len() ==> s0[i] == s[i]);
        }
        lemma_filter_all_true(s0, p);
        s0.lemma_filter_push(s.last(), p);
        assert(s0.push(s.last()) =~= s);
        assert(s.filter(p) =~= s);
    }
}

/// Filtering the fanned-in answer rows by owner picks out exactly the
/// owning shard's segment, when segments are attributed and owners
/// distinct.
proof fn lemma_flat_map_filter_owned_answers(
    lo: Seq<Seq<char>>,
    seg: spec_fn(Seq<char>) -> Seq<AnswerRowV>,
    e: Seq<char>,
)
    requires
        lo.no_duplicates(),
        forall|x: Seq<char>, i: int|
            #![trigger seg(x)[i]]
            lo.contains(x) && 0 <= i < seg(x).len() ==> seg(x)[i].email == x,
    ensures
        lo.flat_map(seg).filter(|r: AnswerRowV| r.email == e) == if lo.contains(e) {
            seg(e)
        } else {
            Seq::<AnswerRowV>::empty()
        },
    decreases lo.len(),
{
    let p = |r: AnswerRowV| r.email == e;
    if lo.len() == 0 {
        assert(lo.map_values(seg) =~= Seq::<Seq<AnswerRowV>>::empty());
        assert(lo.flat_map(seg) =~= Seq::<AnswerRowV>::empty());
        assert(Seq::<AnswerRowV>::empty().filter(p) =~= Seq::<AnswerRowV>::empty());
    } else {
        let lo0 = lo.drop_last();
        let x = lo.last();
        assert(lo0.push(x) =~= lo);
        lo0.lemma_flat_map_push(seg, x);
        assert(lo.flat_map(seg) == lo0.flat_map(seg) + seg(x));
        Seq::filter_distributes_over_add(lo0.flat_map(seg), seg(x), p);
        assert(lo0.no_duplicates()) by {
            assert(forall|i: int| 0 <= i < lo0.len() ==> lo0[i] == lo[i]);
        }
        assert(forall|x1: Seq<char>| lo0.contains(x1) ==> lo.contains(x1)) by {
            assert(forall|i: int| 0 <= i < lo0.len() ==> lo0[i] == lo[i]);
        }
        lemma_flat_map_filter_owned_answers(lo0, seg, e);
        assert(lo.contains(x)) by {
            assert(lo[lo.len() - 1] == x);
        }
        if x == e {
            assert(!lo0.contains(e)) by {
                if lo0.contains(e) {
                    let i = choose|i: int| 0 <= i < lo0.len() && lo0[i] == e;
                    assert(lo[i] == e);
                    assert(lo[lo.len() - 1] == e);
                }
            }
            assert(forall|i: int| 0 <= i < seg(e).len() ==> p(#[trigger] seg(e)[i]));
            lemma_filter_all_true(seg(e), p);
            assert(lo.flat_map(seg).filter(p) =~= seg(e));
        } else {
            assert(forall|i: int| 0 <= i < seg(x).len() ==> !p(#[trigger] seg(x)[i]));
            seg(x).lemma_all_neg_filter_empty(p);
            if lo.contains(e) {
                assert(lo0.contains(e)) by {
                    let i = choose|i: int| 0 <= i < lo.len() && lo[i] == e;
                    assert(i < lo0.len());
                    assert(lo0[i] == e);
                }
                assert(lo.flat_map(seg).filter(p) =~= seg(e));
            } else {
                assert(lo.flat_map(seg).filter(p) =~= Seq::<AnswerRowV>::empty());
            }
        }
    }
}

/// The identity-row counterpart of the filtering lemma.
proof fn lemma_flat_map_filter_owned_users(
    lo: Seq<Seq<char>>,
    seg: spec_fn(Seq<char>) -> Seq<UserRowV>,
    e: Seq<char>,
)
    requires
        lo.no_duplicates(),
        forall|x: Seq<char>, i: int|
            #![trigger seg(x)[i]]
            lo.contains(x) && 0 <= i < seg(x).len() ==> seg(x)[i].email == x,
    ensures
        lo.flat_map(seg).filter(|r: UserRowV| r.email == e) == if lo.contains(e) {
            seg(e)
        } else {
            Seq::<UserRowV>::empty()
        },
    decreases lo.len(),
{
    let p = |r: UserRowV| r.email == e;
    if lo.len() == 0 {
        assert(lo.map_values(seg) =~= Seq::<Seq<UserRowV>>::empty());
        assert(lo.flat_map(seg) =~= Seq::<UserRowV>::empty());
        assert(Seq::<UserRowV>::empty().filter(p) =~= Seq::<UserRowV>::empty());
    } else {
        let lo0 = lo.drop_last();
        let x = lo.last();
        assert(lo0.push(x) =~= lo);
        lo0.lemma_flat_map_push(seg, x);
        assert(lo.flat_map(seg) == lo0.flat_map(seg) + seg(x));
        Seq::filter_distributes_over_add(lo0.flat_map(seg), seg(x), p);
        assert(lo0.no_duplicates()) by {
            assert(forall|i: int| 0 <= i < lo0.len() ==> lo0[i] == lo[i]);
        }
        assert(forall|x1: Seq<char>| lo0.contains(x1) ==> lo.contains(x1)) by {
            assert(forall|i: int| 0 <= i < lo0.len() ==> lo0[i] == lo[i]);
        }
        lemma_flat_map_filter_owned_users(lo0, seg, e);
        assert(lo.contains(x)) by {
            assert(lo[lo.len() - 1] == x);
        }
        if x == e {
            assert(!lo0.contains(e)) by {
                if lo0.contains(e) {
                    let i = choose|i: int| 0 <= i < lo0.len() && lo0[i] == e;
                    assert(lo[i] == e);
                    assert(lo[lo.len() - 1] == e);
                }
            }
            assert(forall|i: int| 0 <= i < seg(e).len() ==> p(#[trigger] seg(e)[i]));
            lemma_filter_all_true(seg(e), p);
            assert(lo.flat_map(seg).filter(p) =~= seg(e));
        } else {
            assert(forall|i: int| 0 <= i < seg(x).len() ==> !p(#[trigger] seg(x)[i]));
            seg(x).lemma_all_neg_filter_empty(p);
            if lo.contains(e) {
                assert(lo0.contains(e)) by {
                    let i = choose|i: int| 0 <= i < lo.len() && lo[i] == e;
                    assert(i < lo0.len());
                    assert(lo0[i] == e);
                }
                assert(lo.flat_map(seg).filter(p) =~= seg(e));
            } else {
                assert(lo.flat_map(seg).filter(p) =~= Seq::<UserRowV>::empty());
            }
        }
    }
}

/// Every fanned-in answer row is attributed to a fanned-in shard.
proof fn lemma_flat_map_membership(
    lo: Seq<Seq<char>>,
    seg: spec_fn(Seq<char>) -> Seq<AnswerRowV>,
)
    requires
        forall|x: Seq<char>, i: int|
            #![trigger seg(x)[i]]
            lo.contains(x) && 0 <= i < seg(x).len() ==> seg(x)[i].email == x,
    ensures
        forall|i: int|
            0 <= i < lo.flat_map(seg).len() ==> lo.contains(
                (#[trigger] lo.flat_map(seg)[i]).email,
            ),
    decreases lo.len(),
{
    if lo.len() == 0 {
        assert(lo.map_values(seg) =~= Seq::<Seq<AnswerRowV>>::empty());
        assert(lo.flat_map(seg) =~= Seq::<AnswerRowV>::empty());
    } else {
        let lo0 = lo.drop_last();
        let x = lo.last();
        assert(lo0.push(x) =~= lo);
        lo0.lemma_flat_map_push(seg, x);
        assert(forall|x1: Seq<char>| lo0.contains(x1) ==> lo.contains(x1)) by {
            assert(forall|i: int| 0 <= i < lo0.len() ==> lo0[i] == lo[i]);
        }
        lemma_flat_map_membership(lo0, seg);
        assert(lo.contains(x)) by {
            assert(lo[lo.len() - 1] == x);
        }
        assert forall|i: int| 0 <= i < lo.flat_map(seg).len() implies lo.contains(
            (#[trigger] lo.flat_map(seg)[i]).email,
        ) by {
            assert(lo.flat_map(seg) == lo0.flat_map(seg) + seg(x));
            if i < lo0.flat_map(seg).len() {
                assert(lo.flat_map(seg)[i] == lo0.flat_map(seg)[i]);
            } else {
                assert(lo.flat_map(seg)[i] == seg(x)[i - lo0.flat_map(seg).len()]);
            }
        }
    }
}

/// Pushing two shards in either order fans in the same row multiset,
/// when the two states agree on every pushed segment.
proof fn lemma_push_two_multiset<T>(
    lo: Seq<Seq<char>>,
    f: spec_fn(Seq<char>) -> Seq<T>,
    g: spec_fn(Seq<char>) -> Seq<T>,
    a: Seq<char>,
    b: Seq<char>,
)
    requires
        forall|x: Seq<char>| lo.contains(x) ==> #[trigger] f(x) == g(x),
        f(a) == g(a),
        f(b) == g(b),
    ensures
        lo.push(a).push(b).flat_map(f).to_multiset() == lo.push(b).push(a).flat_map(
            g,
        ).to_multiset(),
{
    lo.push(a).lemma_flat_map_push(f, b);
    lo.lemma_flat_map_push(f, a);
    lo.push(b).lemma_flat_map_push(g, a);
    lo.lemma_flat_map_push(g, b);
    assert(lo.flat_map(f) == lo.flat_map(g)) by {
        assert(lo.map_values(f) =~= lo.map_values(g)) by {
            assert(forall|i: int| 0 <= i < lo.len() ==> lo.contains(#[trigger] lo[i]));
        }
    }
    let base = lo.flat_map(g);
    assert(lo.push(a).push(b).flat_map(f) == base + f(a) + f(b));
    assert(lo.push(b).push(a).flat_map(g) == base + g(b) + g(a));
    lemma_multiset_commutative(base + f(a), f(b));
    lemma_multiset_commutative(base, f(a));
    lemma_multiset_commutative(base + g(b), g(a));
    lemma_multiset_commutative(base, g(b));
    assert((base + f(a) + f(b)).to_multiset() =~= (base + g(b) + g(a)).to_multiset());
}

/// Registration is idempotent: once a shard exists under an email key,
/// provisioning that key again leaves the state untouched — and, by
/// [`crate::lifecycle::ShardManager::provision_shard`]'s contract, the
/// second call reports `DuplicateShard`.  The shard map keeps exactly
/// one relation pair per key.
pub proof fn lemma_provision_idempotent(
    v: ManagerView,
    e: Seq<char>,
    cred: Seq<char>,
    staff: bool,
    cred2: Seq<char>,
    staff2: bool,
)
    requires
        wf(v),
    ensures
        shard_exists(spec_provision(v, e, cred, staff), e),
        spec_provision(spec_provision(v, e, cred, staff), e, cred2, staff2) == spec_provision(
            v,
            e,
            cred,
            staff,
        ),
{
}

/// Provisioning keeps the state well formed, so the laws chain over
/// any sequence of registrations.
pub proof fn lemma_wf_provision(v: ManagerView, e: Seq<char>, cred: Seq<char>, staff: bool)
    requires
        wf(v),
    ensures
        wf(spec_provision(v, e, cred, staff)),
{
    if !shard_exists(v, e) {
        let v1 = spec_provision(v, e, cred, staff);
        let mask = crate::perm::spec_mask_for(staff, v.default_mask);
        crate::perm::lemma_mask_for_core(staff, v.default_mask);
        assert forall|e1: Seq<char>| #[trigger] v1.shards.dom().contains(e1) implies crate::model::shard_wf(
            v1,
            e1,
        ) by {
            if e1 != e {
                assert(v.shards.dom().contains(e1));
                assert(crate::model::shard_wf(v, e1));
                assert(v1.shards[e1] == v.shards[e1]);
            }
        }
        assert(!v.live_order.contains(e)) by {
            if v.live_order.contains(e) {
                assert(v.shards.dom().contains(e));
            }
        }
        assert forall|e1: Seq<char>|
            #[trigger] v1.live_order.contains(e1) <==> (v1.shards.dom().contains(e1)
                && v1.shards[e1].live) by {
            if e1 != e {
                assert(v1.live_order.contains(e1) == v.live_order.contains(e1)) by {
                    if v.live_order.contains(e1) {
                        let i = choose|i: int| 0 <= i < v.live_order.len() && v.live_order[i] == e1;
                        assert(v1.live_order[i] == e1);
                    }
                    if v1.live_order.contains(e1) {
                        let i = choose|i: int|
                            0 <= i < v1.live_order.len() && v1.live_order[i] == e1;
                        assert(i < v.live_order.len());
                        assert(v.live_order[i] == e1);
                    }
                }
            } else {
                assert(v1.live_order[v.live_order.len() as int] == e);
            }
        }
        assert(v1.live_order.no_duplicates()) by {
            assert forall|i: int, j: int|
                0 <= i < v1.live_order.len() && 0 <= j < v1.live_order.len() && i != j implies v1.live_order[i]
                != v1.live_order[j] by {
                if i < v.live_order.len() && j < v.live_order.len() {
                } else if i < v.live_order.len() {
                    assert(v1.live_order[j] == e);
                    assert(v1.live_order[i] == v.live_order[i]);
                    assert(v.live_order.contains(v.live_order[i]));
                } else {
                    assert(v1.live_order[i] == e);
                    assert(v1.live_order[j] == v.live_order[j]);
                    assert(v.live_order.contains(v.live_order[j]));
                }
            }
        }
    }
}

/// Removing one email from a duplicate-free order removes exactly it.
proof fn lemma_remove_value_props(s: Seq<Seq<char>>, e: Seq<char>)
    requires
        s.no_duplicates(),
    ensures
        s.remove_value(e).no_duplicates(),
        !s.remove_value(e).contains(e),
        forall|x: Seq<char>| x != e ==> (s.remove_value(e).contains(x) <==> s.contains(x)),
{
    s.index_of_first_ensures(e);
    match s.index_of_first(e) {
        None => {
            assert(s.remove_value(e) == s);
        },
        Some(i) => {
            let t = s.remove(i);
            assert(s.remove_value(e) == t);
            assert(forall|j: int| 0 <= j < i ==> #[trigger] t[j] == s[j]);
            assert(forall|j: int| i <= j < t.len() ==> #[trigger] t[j] == s[j + 1]);
            assert forall|a: int, b: int| 0 <= a < t.len() && 0 <= b < t.len() && a != b implies t[a]
                != t[b] by {
                let a0 = if a < i {
                    a
                } else {
                    a + 1
                };
                let b0 = if b < i {
                    b
                } else {
                    b + 1
                };
                assert(t[a] == s[a0] && t[b] == s[b0]);
            }
            assert forall|j: int| 0 <= j < t.len() implies t[j] != e by {
                let j0 = if j < i {
                    j
                } else {
                    j + 1
                };
                assert(t[j] == s[j0]);
                assert(j0 != i);
                assert(s[j0] != s[i]);
            }
            assert forall|x: Seq<char>| x != e implies (t.contains(x) <==> s.contains(x)) by {
                if t.contains(x) {
                    let j = choose|j: int| 0 <= j < t.len() && t[j] == x;
                    let j0 = if j < i {
                        j
                    } else {
                        j + 1
                    };
                    assert(s[j0] == x);
                }
                if s.contains(x) {
                    let j = choose|j: int| 0 <= j < s.len() && s[j] == x;
                    assert(j != i);
                    let j1 = if j < i {
                        j
                    } else {
                        j - 1
                    };
                    assert(t[j1] == x);
                }
            }
        },
    }
}

/// Submitting keeps the state well formed.
pub proof fn lemma_wf_submit(
    v: ManagerView,
    e: Seq<char>,
    lecture: u64,
    question: u64,
    text: Seq<char>,
    at: u64,
)
    requires
        wf(v),
    ensures
        wf(crate::model::spec_submit(v, e, lecture, question, text, at)),
{
    if crate::model::spec_can_write(v, e) {
        let v1 = crate::model::spec_submit(v, e, lecture, question, text, at);
        assert forall|e1: Seq<char>| #[trigger] v1.shards.dom().contains(e1) implies crate::model::shard_wf(
            v1,
            e1,
        ) by {
            assert(crate::model::shard_wf(v, e1));
            if e1 == e {
                crate::model::lemma_upsert_props(
                    v.shards[e].ans_rows,
                    crate::model::spec_submitted_row(e, lecture, question, text, at),
                    e,
                );
            } else {
                assert(v1.shards[e1] == v.shards[e1]);
            }
        }
        assert forall|e1: Seq<char>|
            #[trigger] v1.live_order.contains(e1) <==> (v1.shards.dom().contains(e1)
                && v1.shards[e1].live) by {
            assert(v1.shards[e1].live == v.shards[e1].live);
        }
    }
}

/// Retiring keeps the state well formed.
pub proof fn lemma_wf_retire(v: ManagerView, e: Seq<char>)
    requires
        wf(v),
    ensures
        wf(spec_retire(v, e)),
{
    if crate::model::spec_can_write(v, e) {
        let v1 = spec_retire(v, e);
        lemma_remove_value_props(v.live_order, e);
        assert forall|e1: Seq<char>| #[trigger] v1.shards.dom().contains(e1) implies crate::model::shard_wf(
            v1,
            e1,
        ) by {
            assert(crate::model::shard_wf(v, e1));
            if e1 != e {
                assert(v1.shards[e1] == v.shards[e1]);
            }
        }
        assert forall|e1: Seq<char>|
            #[trigger] v1.live_order.contains(e1) <==> (v1.shards.dom().contains(e1)
                && v1.shards[e1].live) by {
            if e1 != e {
                assert(v1.live_order.contains(e1) == v.live_order.contains(e1));
                assert(v1.shards[e1].live == v.shards[e1].live);
            } else {
                assert(!v1.live_order.contains(e));
                assert(!v1.shards[e].live);
            }
        }
    }
}

/// Exporting keeps the state well formed: it only stores a fingerprint.
pub proof fn lemma_wf_export(v: ManagerView, e: Seq<char>)
    requires
        wf(v),
    ensures
        wf(spec_export(v, e)),
{
}

/// A permission change keeps the state well formed.
pub proof fn lemma_wf_change_permission(v: ManagerView, e: Seq<char>, new_bits: u8)
    requires
        wf(v),
    ensures
        wf(crate::model::spec_change_permission(v, e, new_bits)),
{
    if crate::model::spec_can_write(v, e) {
        let v1 = crate::model::spec_change_permission(v, e, new_bits);
        crate::perm::lemma_mask_for_core(false, new_bits);
        assert forall|e1: Seq<char>| #[trigger] v1.shards.dom().contains(e1) implies crate::model::shard_wf(
            v1,
            e1,
        ) by {
            assert(crate::model::shard_wf(v, e1));
            if e1 != e {
                assert(v1.shards[e1] == v.shards[e1]);
            }
        }
        assert forall|e1: Seq<char>|
            #[trigger] v1.live_order.contains(e1) <==> (v1.shards.dom().contains(e1)
                && v1.shards[e1].live) by {
            assert(v1.shards[e1].live == v.shards[e1].live);
        }
    }
}

/// Reinstating keeps the state well formed: an accepted blob carries a
/// single identity row and attributed, uniquely keyed answer rows.
pub proof fn lemma_wf_reinstate(v: ManagerView, blob: Seq<u8>, cred: Seq<char>)
    requires
        wf(v),
    ensures
        wf(spec_reinstate(v, blob, cred)),
{
    let check = spec_reinstate_check(v, blob, cred);
    if check is Accept {
        let e = check->Accept_email;
        let v1 = spec_reinstate(v, blob, cred);
        let parsed = crate::codec::spec_deserialize(blob)->0;
        let users = parsed.0;
        crate::perm::lemma_mask_for_core(false, users[0].mask);
        lemma_remove_value_props(v.live_order, e);
        assert(!v.live_order.remove_value(e).contains(e));
        assert forall|e1: Seq<char>| #[trigger] v1.shards.dom().contains(e1) implies crate::model::shard_wf(
            v1,
            e1,
        ) by {
            if e1 != e {
                assert(crate::model::shard_wf(v, e1));
                assert(v1.shards[e1] == v.shards[e1]);
            }
        }
        assert forall|e1: Seq<char>|
            #[trigger] v1.live_order.contains(e1) <==> (v1.shards.dom().contains(e1)
                && v1.shards[e1].live) by {
            let base = v.live_order.remove_value(e);
            if e1 != e {
                assert(v1.live_order.contains(e1) == base.contains(e1)) by {
                    if base.contains(e1) {
                        let i = choose|i: int| 0 <= i < base.len() && base[i] == e1;
                        assert(v1.live_order[i] == e1);
                    }
                    if v1.live_order.contains(e1) {
                        let i = choose|i: int|
                            0 <= i < v1.live_order.len() && v1.live_order[i] == e1;
                        assert(i < base.len());
                        assert(base[i] == e1);
                    }
                }
                assert(base.contains(e1) == v.live_order.contains(e1));
                assert(v1.shards[e1].live == v.shards[e1].live);
            } else {
                assert(v1.live_order[v1.live_order.len() - 1] == e);
                assert(v1.shards[e].live);
            }
        }
        assert(v1.live_order.no_duplicates()) by {
            let base = v.live_order.remove_value(e);
            assert forall|i: int, j: int|
                0 <= i < v1.live_order.len() && 0 <= j < v1.live_order.len() && i != j implies v1.live_order[i]
                != v1.live_order[j] by {
                if i < base.len() && j < base.len() {
                    assert(v1.live_order[i] == base[i]);
                    assert(v1.live_order[j] == base[j]);
                } else if i < base.len() {
                    assert(v1.live_order[j] == e);
                    assert(v1.live_order[i] == base[i]);
                    assert(base.contains(base[i]));
                } else {
                    assert(v1.live_order[i] == e);
                    assert(v1.live_order[j] == base[j]);
                    assert(base.contains(base[j]));
                }
            }
        }
    }
}

/// Union completeness: the class-wide aggregate holds, for every email
/// key, exactly the owning live shard's rows — nothing dropped, nothing
/// duplicated, whether the shard was the bootstrap or an extension —
/// and no row of it is attributed to anything but a live shard.
pub proof fn lemma_union_completeness(v: ManagerView, e: Seq<char>)
    requires
        wf(v),
    ensures
        spec_answers_agg(v).filter(|r: AnswerRowV| r.email == e) == if v.live_order.contains(e) {
            v.shards[e].ans_rows
        } else {
            Seq::<AnswerRowV>::empty()
        },
        spec_roster(v).filter(|r: UserRowV| r.email == e) == if v.live_order.contains(e) {
            v.shards[e].user_rows
        } else {
            Seq::<UserRowV>::empty()
        },
        forall|i: int|
            0 <= i < spec_answers_agg(v).len() ==> v.live_order.contains(
                (#[trigger] spec_answers_agg(v)[i]).email,
            ),
{
    let sega = |x: Seq<char>| v.shards[x].ans_rows;
    let segu = |x: Seq<char>| v.shards[x].user_rows;
    assert forall|x: Seq<char>, i: int|
        #![trigger sega(x)[i]]
        v.live_order.contains(x) && 0 <= i < sega(x).len() implies sega(x)[i].email == x by {
        assert(v.shards.dom().contains(x));
        assert(crate::model::shard_wf(v, x));
    }
    assert forall|x: Seq<char>, i: int|
        #![trigger segu(x)[i]]
        v.live_order.contains(x) && 0 <= i < segu(x).len() implies segu(x)[i].email == x by {
        assert(v.shards.dom().contains(x));
        assert(crate::model::shard_wf(v, x));
    }
    lemma_flat_map_filter_owned_answers(v.live_order, sega, e);
    lemma_flat_map_filter_owned_users(v.live_order, segu, e);
    lemma_flat_map_membership(v.live_order, sega);
}

/// Bootstrap/extension equivalence: provisioning two fresh principals
/// in either order exposes the same class-wide view contents (as row
/// multisets; the union attachment order is the only difference).
pub proof fn lemma_order_equivalence(
    v: ManagerView,
    a: Seq<char>,
    ca: Seq<char>,
    sa: bool,
    b: Seq<char>,
    cb: Seq<char>,
    sb: bool,
)
    requires
        wf(v),
        !shard_exists(v, a),
        !shard_exists(v, b),
        a != b,
    ensures
        spec_roster(spec_provision(spec_provision(v, a, ca, sa), b, cb, sb)).to_multiset()
            == spec_roster(spec_provision(spec_provision(v, b, cb, sb), a, ca, sa)).to_multiset(),
        spec_answers_agg(spec_provision(spec_provision(v, a, ca, sa), b, cb, sb)).to_multiset()
            == spec_answers_agg(
            spec_provision(spec_provision(v, b, cb, sb), a, ca, sa),
        ).to_multiset(),
        spec_faq(spec_provision(spec_provision(v, a, ca, sa), b, cb, sb)).to_multiset()
            == spec_faq(spec_provision(spec_provision(v, b, cb, sb), a, ca, sa)).to_multiset(),
        spec_research(spec_provision(spec_provision(v, a, ca, sa), b, cb, sb)).to_multiset()
            == spec_research(spec_provision(spec_provision(v, b, cb, sb), a, ca, sa)).to_multiset(),
{
    let vab = spec_provision(spec_provision(v, a, ca, sa), b, cb, sb);
    let vba = spec_provision(spec_provision(v, b, cb, sb), a, ca, sa);
    assert(vab.live_order == v.live_order.push(a).push(b));
    assert(vba.live_order == v.live_order.push(b).push(a));
    assert forall|x: Seq<char>| #[trigger] v.live_order.contains(x) implies x != a && x != b by {
        assert(v.shards.dom().contains(x));
    }
    let fu = |x: Seq<char>| vab.shards[x].user_rows;
    let gu = |x: Seq<char>| vba.shards[x].user_rows;
    let fa = |x: Seq<char>| vab.shards[x].ans_rows;
    let ga = |x: Seq<char>| vba.shards[x].ans_rows;
    let ffaq = |x: Seq<char>| spec_gated_segment(vab, x, crate::perm::MASK_ANSWERS_VISIBLE);
    let gfaq = |x: Seq<char>| spec_gated_segment(vba, x, crate::perm::MASK_ANSWERS_VISIBLE);
    let fres = |x: Seq<char>| spec_gated_segment(vab, x, crate::perm::MASK_RESEARCH);
    let gres = |x: Seq<char>| spec_gated_segment(vba, x, crate::perm::MASK_RESEARCH);
    assert forall|x: Seq<char>| v.live_order.contains(x) implies vab.shards[x] == vba.shards[x] by {
        assert(x != a && x != b);
        assert(vab.shards[x] == v.shards[x]);
        assert(vba.shards[x] == v.shards[x]);
    }
    assert(vab.shards[a].user_rows == vba.shards[a].user_rows);
    assert(vab.shards[a].ans_rows =~= vba.shards[a].ans_rows);
    assert(vab.shards[a].mask == vba.shards[a].mask);
    assert(vab.shards[b].user_rows == vba.shards[b].user_rows);
    assert(vab.shards[b].ans_rows =~= vba.shards[b].ans_rows);
    assert(vab.shards[b].mask == vba.shards[b].mask);
    assert forall|x: Seq<char>| v.live_order.contains(x) implies #[trigger] fu(x) == gu(x) by {}
    assert forall|x: Seq<char>| v.live_order.contains(x) implies #[trigger] fa(x) == ga(x) by {}
    assert forall|x: Seq<char>| v.live_order.contains(x) implies #[trigger] ffaq(x) == gfaq(x) by {}
    assert forall|x: Seq<char>| v.live_order.contains(x) implies #[trigger] fres(x) == gres(x) by {}
    lemma_push_two_multiset(v.live_order, fu, gu, a, b);
    lemma_push_two_multiset(v.live_order, fa, ga, a, b);
    lemma_push_two_multiset(v.live_order, ffaq, gfaq, a, b);
    lemma_push_two_multiset(v.live_order, fres, gres, a, b);
}

/// Permission gating: a shard whose answers relation does not carry the
/// visibility bit contributes nothing to the gated answer feed.
pub proof fn lemma_permission_gating(v: ManagerView, e: Seq<char>)
    requires
        wf(v),
        shard_exists(v, e),
        !answers_visible(v.shards[e].mask),
    ensures
        spec_faq(v).filter(|r: AnswerRowV| r.email == e) == Seq::<AnswerRowV>::empty(),
{
    let seg = |x: Seq<char>| spec_gated_segment(v, x, crate::perm::MASK_ANSWERS_VISIBLE);
    assert forall|x: Seq<char>, i: int|
        #![trigger seg(x)[i]]
        v.live_order.contains(x) && 0 <= i < seg(x).len() implies seg(x)[i].email == x by {
        assert(v.shards.dom().contains(x));
        assert(crate::model::shard_wf(v, x));
    }
    lemma_flat_map_filter_owned_answers(v.live_order, seg, e);
    assert(seg(e) =~= Seq::<AnswerRowV>::empty());
}

/// A row of any fanned-in shard's segment appears in the fanned-in view.
proof fn lemma_flat_map_contains<T>(
    lo: Seq<Seq<char>>,
    seg: spec_fn(Seq<char>) -> Seq<T>,
    x: Seq<char>,
    r: T,
)
    requires
        lo.contains(x),
        seg(x).contains(r),
    ensures
        lo.flat_map(seg).contains(r),
    decreases lo.len(),
{
    let lo0 = lo.drop_last();
    let y = lo.last();
    assert(lo0.push(y) =~= lo);
    lo0.lemma_flat_map_push(seg, y);
    assert(lo.flat_map(seg) == lo0.flat_map(seg) + seg(y));
    let i = choose|i: int| 0 <= i < lo.len() && lo[i] == x;
    if i < lo.len() - 1 {
        assert(lo0[i] == x);
        assert(lo0.contains(x));
        lemma_flat_map_contains(lo0, seg, x, r);
        let k = choose|k: int|
            0 <= k < lo0.flat_map(seg).len() && (#[trigger] lo0.flat_map(seg)[k]) == r;
        assert(lo.flat_map(seg)[k] == r);
    } else {
        assert(y == x);
        let k = choose|k: int| 0 <= k < seg(x).len() && (#[trigger] seg(x)[k]) == r;
        assert(lo.flat_map(seg)[lo0.flat_map(seg).len() + k] == r);
    }
}

/// Appearance after a permission change: once the new mask carries the
/// visibility bit, a freshly submitted answer shows up in the gated
/// answer feed (rows buffered before the rebuild stay behind in the
/// superseded relation).
pub proof fn lemma_visibility_after_change(
    v: ManagerView,
    e: Seq<char>,
    new_bits: u8,
    lecture: u64,
    question: u64,
    text: Seq<char>,
    at: u64,
)
    requires
        wf(v),
        crate::model::spec_can_write(v, e),
        answers_visible(new_bits | crate::perm::MASK_CORE),
    ensures
        ({
            let v1 = crate::model::spec_change_permission(v, e, new_bits);
            let v2 = crate::model::spec_submit(v1, e, lecture, question, text, at);
            spec_faq(v2).contains(
                crate::model::spec_submitted_row(e, lecture, question, text, at),
            )
        }),
{
    let v1 = crate::model::spec_change_permission(v, e, new_bits);
    let v2 = crate::model::spec_submit(v1, e, lecture, question, text, at);
    let row = crate::model::spec_submitted_row(e, lecture, question, text, at);
    assert(v1.shards[e].ans_rows =~= Seq::<AnswerRowV>::empty());
    assert(v2.shards[e].ans_rows == crate::model::spec_upsert(
        Seq::<AnswerRowV>::empty(),
        row,
    ));
    assert(v2.shards[e].ans_rows =~= seq![row]) by {
        if exists|i: int|
            0 <= i < Seq::<AnswerRowV>::empty().len() && (#[trigger] Seq::<AnswerRowV>::empty()[i]).lecture
                == row.lecture && Seq::<AnswerRowV>::empty()[i].question == row.question {
            assert(false);
        }
    }
    assert(v2.live_order == v.live_order);
    assert(v2.live_order.contains(e));
    let seg = |x: Seq<char>| spec_gated_segment(v2, x, crate::perm::MASK_ANSWERS_VISIBLE);
    assert(v2.shards[e].mask == new_bits | crate::perm::MASK_CORE);
    assert(seg(e).contains(row)) by {
        assert(seg(e) == v2.shards[e].ans_rows);
        assert(seg(e)[0] == row);
    }
    lemma_flat_map_contains(v2.live_order, seg, e, row);
}

/// Export/retire/reinstate round trip: presenting the exported blob
/// with the shard's own credential restores exactly the exported row
/// content, live again, under fresh node identities; the registry now
/// resolves the name to the new identities only.
pub proof fn lemma_export_reinstate_round_trip(v: ManagerView, e: Seq<char>)
    requires
        wf(v),
        shard_exists(v, e),
        v.shards[e].live,
        user_rows_encodable(v.shards[e].user_rows),
        answer_rows_encodable(v.shards[e].ans_rows),
    ensures
        ({
            let blob = spec_export_blob(v, e);
            let v3 = spec_reinstate(
                spec_retire(spec_export(v, e), e),
                blob,
                v.shards[e].credential(),
            );
            &&& shard_exists(v3, e)
            &&& v3.shards[e].live
            &&& v3.shards[e].user_rows == v.shards[e].user_rows
            &&& v3.shards[e].ans_rows == v.shards[e].ans_rows
            &&& v3.shards[e].user_node != v.shards[e].user_node
            &&& v3.shards[e].ans_node != v.shards[e].ans_node
            &&& v3.shards[e].user_node >= v.next_node
            &&& v3.shards[e].ans_node >= v.next_node
        }),
{
    assert(crate::model::shard_wf(v, e));
    let sv = v.shards[e];
    let cred = sv.credential();
    let blob = spec_export_blob(v, e);
    let v1 = spec_export(v, e);
    assert(v1.prints[cred] == fingerprint_of(blob, v.secret));
    let v2 = spec_retire(v1, e);
    assert(v2.shards[e].user_rows == sv.user_rows);
    assert(v2.shards[e].ans_rows == sv.ans_rows);
    assert(v2.prints == v1.prints);
    assert(v2.secret == v.secret);
    assert(v2.next_node == v.next_node);
    crate::codec::lemma_codec_round_trip(sv.user_rows, sv.ans_rows);
    assert(crate::codec::spec_deserialize(blob) == Some((sv.user_rows, sv.ans_rows)));
    assert(spec_reinstate_check(v2, blob, cred) == (ReinstateCheck::Accept { email: e }));
    let v3 = spec_reinstate(v2, blob, cred);
    assert(v3.shards[e].user_rows == sv.user_rows);
    assert(v3.shards[e].ans_rows == sv.ans_rows);
}

/// Integrity rejection: when the presented blob's keyed hash differs
/// from the stored fingerprint, reinstatement refuses the blob — per
/// [`crate::lifecycle::ShardManager::reinstate_shard`]'s contract with
/// `IntegrityMismatch` — and the graph is left exactly as it was.
pub proof fn lemma_integrity_rejection(v: ManagerView, blob: Seq<u8>, cred: Seq<char>)
    requires
        v.prints.dom().contains(cred),
        v.prints[cred] != fingerprint_of(blob, v.secret),
    ensures
        spec_reinstate_check(v, blob, cred) is PrintMismatch,
        spec_reinstate(v, blob, cred) == v,
{
}

/// No duplicate parents: after a relation is attached, attaching it
/// again finds it among the parents, so the attachment step (per
/// [`crate::fanin::attach_parent`]'s contract) refuses it with
/// `DuplicateParent` and leaves the parent set — and with it every
/// fanned-in view — unchanged.
pub proof fn lemma_no_duplicate_parent(parents: Seq<usize>, id: usize)
    ensures
        parents.push(id).contains(id),
{
    assert(parents.push(id)[parents.len() as int] == id);
}

} // verus!
