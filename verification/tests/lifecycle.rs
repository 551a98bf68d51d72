use websubmit::errors::ShardError;
use websubmit::graph::RelationKind;
use websubmit::hash::credential_for;
use websubmit::lifecycle::ShardManager;
use websubmit::rows::AnswerRow;

fn manager(default_mask: u8) -> ShardManager {
    ShardManager::new(String::from("server-secret"), default_mask)
}

fn provision(m: &mut ShardManager, email: &str, staff: bool) -> websubmit::lifecycle::ShardHandle {
    let cred = credential_for(&String::from(email), &m.secret);
    m.provision_shard(String::from(email), cred, staff)
        .expect("provisioning a fresh shard must succeed")
}

fn answers_contain(rows: &Vec<AnswerRow>, email: &str, lecture: u64, question: u64, text: &str) -> bool {
    rows.iter().any(|r| {
        r.email == email && r.lecture == lecture && r.question == question && r.text == text
    })
}

#[test]
fn provision_duplicate_rejected() {
    let mut m = manager(1);
    provision(&mut m, "alice", false);
    let cred = credential_for(&String::from("alice"), &m.secret);
    let second = m.provision_shard(String::from("alice"), cred, false);
    assert_eq!(second, Err(ShardError::DuplicateShard));
    let roster = m.roster();
    assert_eq!(roster.len(), 1);
    assert_eq!(roster[0].email, "alice");
}

#[test]
fn bootstrap_and_extension_share_one_union() {
    let mut m = manager(1);
    let ha = provision(&mut m, "alice", false);
    let union_before = (m.fanin.user_union, m.fanin.answer_union);
    let hb = provision(&mut m, "bob", false);
    let hc = provision(&mut m, "carol", true);
    // the union operators keep their identities as parents are added
    assert_eq!(union_before, (m.fanin.user_union, m.fanin.answer_union));
    assert_ne!(ha, hb);
    assert_ne!(hb, hc);
    let roster = m.roster();
    assert_eq!(roster.len(), 3);
    assert_eq!(roster[0].email, "alice");
    assert_eq!(roster[1].email, "bob");
    assert_eq!(roster[2].email, "carol");
    assert!(roster[2].is_admin);
    assert!(!roster[0].is_admin);
}

#[test]
fn union_completeness_over_three_principals() {
    let mut m = manager(1);
    provision(&mut m, "alice", false);
    provision(&mut m, "bob", false);
    provision(&mut m, "carol", false);
    m.submit_answer(&String::from("alice"), 1, 1, "a11", 10).unwrap();
    m.submit_answer(&String::from("bob"), 1, 1, "b11", 11).unwrap();
    m.submit_answer(&String::from("bob"), 2, 1, "b21", 12).unwrap();
    m.submit_answer(&String::from("carol"), 1, 2, "c12", 13).unwrap();
    let agg = m.answers_aggregate();
    assert_eq!(agg.len(), 4);
    assert!(answers_contain(&agg, "alice", 1, 1, "a11"));
    assert!(answers_contain(&agg, "bob", 1, 1, "b11"));
    assert!(answers_contain(&agg, "bob", 2, 1, "b21"));
    assert!(answers_contain(&agg, "carol", 1, 2, "c12"));
}

#[test]
fn provisioning_order_does_not_change_view_contents() {
    let mut m1 = manager(1);
    provision(&mut m1, "alice", false);
    provision(&mut m1, "bob", false);
    provision(&mut m1, "carol", false);
    let mut m2 = manager(1);
    provision(&mut m2, "bob", false);
    provision(&mut m2, "alice", false);
    provision(&mut m2, "carol", false);
    for (email, lecture, question, text, at) in [
        ("alice", 1u64, 1u64, "one", 1u64),
        ("bob", 1, 2, "two", 2),
        ("carol", 3, 1, "three", 3),
    ] {
        m1.submit_answer(&String::from(email), lecture, question, text, at).unwrap();
        m2.submit_answer(&String::from(email), lecture, question, text, at).unwrap();
    }
    let (r1, r2) = (m1.roster(), m2.roster());
    assert_eq!(r1.len(), r2.len());
    for row in &r1 {
        assert!(r2.iter().any(|o| o == row));
    }
    let (f1, f2) = (m1.faq_feed(), m2.faq_feed());
    assert_eq!(f1.len(), f2.len());
    for row in &f1 {
        assert!(f2.iter().any(|o| o == row));
    }
}

#[test]
fn permission_gating_scenario() {
    // core-only default mask: answers are not visible in the feed
    let mut m = manager(0b0000_0100);
    provision(&mut m, "alice@x", false);
    m.submit_answer(&String::from("alice@x"), 1, 1, "42", 100).unwrap();
    let faq = m.faq_feed();
    assert!(faq.is_empty());
    // flip the visibility bit: the relation is rebuilt under a new mask
    m.change_permission(&String::from("alice@x"), 0b0000_0101).unwrap();
    m.submit_answer(&String::from("alice@x"), 1, 2, "43", 101).unwrap();
    let faq = m.faq_feed();
    assert!(answers_contain(&faq, "alice@x", 1, 2, "43"));
    // the pre-change answer lives in the superseded relation
    assert!(!answers_contain(&faq, "alice@x", 1, 1, "42"));
}

#[test]
fn research_feed_follows_bit_one() {
    let mut m = manager(0b0000_0011);
    provision(&mut m, "alice", false);
    provision(&mut m, "bob", true);
    m.submit_answer(&String::from("alice"), 1, 1, "from-alice", 1).unwrap();
    m.submit_answer(&String::from("bob"), 1, 1, "from-bob", 2).unwrap();
    let research = m.research_feed();
    assert_eq!(research.len(), 2);
    m.change_permission(&String::from("alice"), 0b0000_0001).unwrap();
    m.submit_answer(&String::from("alice"), 1, 2, "hidden", 3).unwrap();
    let research = m.research_feed();
    assert!(!answers_contain(&research, "alice", 1, 2, "hidden"));
}

#[test]
fn export_retire_reinstate_round_trip() {
    let mut m = manager(1);
    provision(&mut m, "alice", false);
    provision(&mut m, "bob", false);
    m.submit_answer(&String::from("alice"), 1, 1, "first", 10).unwrap();
    m.submit_answer(&String::from("alice"), 2, 3, "second", 20).unwrap();
    let before = m.my_answers(&String::from("alice"), 1);
    let cred = credential_for(&String::from("alice"), &m.secret);
    let blob = m.export_shard(&String::from("alice")).unwrap();
    m.retire_shard(&String::from("alice")).unwrap();
    assert_eq!(m.roster().len(), 1);
    let handle = m.reinstate_shard(&blob, &cred).unwrap();
    // fresh node identities, full row content restored
    let after = m.my_answers(&String::from("alice"), 1);
    assert_eq!(before, after);
    let all = m.my_answers(&String::from("alice"), 2);
    assert_eq!(all.len(), 1);
    assert_eq!(all[0].text, "second");
    assert_eq!(m.roster().len(), 2);
    let agg = m.answers_aggregate();
    assert!(answers_contain(&agg, "alice", 1, 1, "first"));
    // the registry resolves the name to the new identities
    assert_eq!(m.registry.lookup(&String::from("alice"), RelationKind::UserInfo), Some(handle.user_node));
    assert_eq!(m.registry.lookup(&String::from("alice"), RelationKind::Answers), Some(handle.answers_node));
}

#[test]
fn reinstate_rejects_single_byte_change() {
    let mut m = manager(1);
    provision(&mut m, "alice", false);
    m.submit_answer(&String::from("alice"), 1, 1, "payload", 10).unwrap();
    let cred = credential_for(&String::from("alice"), &m.secret);
    let blob = m.export_shard(&String::from("alice")).unwrap();
    m.retire_shard(&String::from("alice")).unwrap();
    let roster_before = m.roster();
    for i in 0..blob.len() {
        let mut tampered = blob.clone();
        tampered[i] ^= 0x01;
        let res = m.reinstate_shard(&tampered, &cred);
        assert_eq!(res, Err(ShardError::IntegrityMismatch));
    }
    // nothing was mutated by the rejected attempts
    assert_eq!(m.roster(), roster_before);
    // the untouched blob still reinstates
    m.reinstate_shard(&blob, &cred).unwrap();
    assert_eq!(m.roster().len(), 1);
}

#[test]
fn reinstate_without_stored_fingerprint_is_unknown() {
    let mut m = manager(1);
    provision(&mut m, "alice", false);
    let cred = credential_for(&String::from("alice"), &m.secret);
    let res = m.reinstate_shard(&vec![1, 2, 3], &cred);
    assert_eq!(res, Err(ShardError::UnknownShard));
}

#[test]
fn wrong_credential_does_not_match_other_blob() {
    let mut m = manager(1);
    provision(&mut m, "alice", false);
    provision(&mut m, "bob", false);
    let blob_alice = m.export_shard(&String::from("alice")).unwrap();
    let _blob_bob = m.export_shard(&String::from("bob")).unwrap();
    let cred_bob = credential_for(&String::from("bob"), &m.secret);
    let res = m.reinstate_shard(&blob_alice, &cred_bob);
    assert_eq!(res, Err(ShardError::IntegrityMismatch));
}

#[test]
fn unknown_shard_errors() {
    let mut m = manager(1);
    provision(&mut m, "alice", false);
    let nobody = String::from("nobody");
    assert_eq!(m.retire_shard(&nobody), Err(ShardError::UnknownShard));
    assert_eq!(m.submit_answer(&nobody, 1, 1, "x", 1), Err(ShardError::UnknownShard));
    assert!(m.export_shard(&nobody).is_err());
    assert_eq!(m.change_permission(&nobody, 1), Err(ShardError::UnknownShard));
    // a retired shard stops accepting writes and lifecycle calls
    m.retire_shard(&String::from("alice")).unwrap();
    let alice = String::from("alice");
    assert_eq!(m.submit_answer(&alice, 1, 1, "x", 1), Err(ShardError::UnknownShard));
    assert_eq!(m.retire_shard(&alice), Err(ShardError::UnknownShard));
    assert_eq!(m.change_permission(&alice, 1), Err(ShardError::UnknownShard));
}

#[test]
fn duplicate_parent_rejected() {
    let mut parents: Vec<usize> = Vec::new();
    assert!(websubmit::fanin::attach_parent(&mut parents, 5).is_ok());
    assert_eq!(parents, vec![5]);
    let second = websubmit::fanin::attach_parent(&mut parents, 5);
    assert_eq!(second, Err(ShardError::DuplicateParent));
    // the parent set, and with it the fanned-in views, did not grow
    assert_eq!(parents, vec![5]);
    assert!(websubmit::fanin::attach_parent(&mut parents, 6).is_ok());
    assert_eq!(parents, vec![5, 6]);
}

#[test]
fn upsert_replaces_equal_keys() {
    let mut m = manager(1);
    provision(&mut m, "alice", false);
    m.submit_answer(&String::from("alice"), 1, 1, "draft", 10).unwrap();
    m.submit_answer(&String::from("alice"), 1, 1, "final", 20).unwrap();
    let rows = m.my_answers(&String::from("alice"), 1);
    assert_eq!(rows.len(), 1);
    assert_eq!(rows[0].text, "final");
    assert_eq!(rows[0].submitted_at, 20);
}

#[test]
fn submitted_text_is_escaped() {
    let mut m = manager(1);
    provision(&mut m, "alice", false);
    m.submit_answer(&String::from("alice"), 1, 1, "  it's \"q\\uoted\"  ", 1).unwrap();
    let rows = m.my_answers(&String::from("alice"), 1);
    assert_eq!(rows[0].text, "its quoted");
}

#[test]
fn lookup_principal_by_credential_finds_owner() {
    let mut m = manager(1);
    provision(&mut m, "alice", false);
    provision(&mut m, "bob", false);
    let cred = credential_for(&String::from("bob"), &m.secret);
    assert_eq!(m.lookup_principal_by_credential(&cred), Some(String::from("bob")));
    let other = credential_for(&String::from("nobody"), &m.secret);
    assert_eq!(m.lookup_principal_by_credential(&other), None);
}

#[test]
fn export_of_empty_shard_round_trips() {
    let mut m = manager(1);
    provision(&mut m, "alice", false);
    let cred = credential_for(&String::from("alice"), &m.secret);
    let blob = m.export_shard(&String::from("alice")).unwrap();
    m.retire_shard(&String::from("alice")).unwrap();
    m.reinstate_shard(&blob, &cred).unwrap();
    assert_eq!(m.roster().len(), 1);
    assert!(m.my_answers(&String::from("alice"), 1).is_empty());
}

#[test]
fn credentials_are_keyed_and_stable() {
    let secret = String::from("server-secret");
    let c1 = credential_for(&String::from("alice"), &secret);
    let c2 = credential_for(&String::from("alice"), &secret);
    assert_eq!(c1, c2);
    assert_eq!(c1.len(), 64);
    // the digest is not the input handed back
    assert_ne!(c1, "aliceserver-secret");
    // and it depends on the server secret
    let c3 = credential_for(&String::from("alice"), &String::from("other"));
    assert_ne!(c1, c3);
}

#[test]
fn credential_keyed_entry_points() {
    let mut m = manager(1);
    provision(&mut m, "alice", false);
    let cred = credential_for(&String::from("alice"), &m.secret);
    let blob = m
        .export_shard_by_credential(&cred)
        .expect("the credential names a live shard");
    m.change_permission_by_credential(&cred, 0b10).unwrap();
    m.retire_shard_by_credential(&cred).unwrap();
    assert_eq!(m.roster().len(), 0);
    // the exported blob reinstates the pre-change content
    m.reinstate_shard(&blob, &cred).unwrap();
    assert_eq!(m.roster().len(), 1);
    let unknown = String::from("no-such-credential");
    assert_eq!(m.retire_shard_by_credential(&unknown), Err(ShardError::UnknownShard));
    assert!(m.export_shard_by_credential(&unknown).is_err());
    assert_eq!(m.change_permission_by_credential(&unknown, 1), Err(ShardError::UnknownShard));
}
