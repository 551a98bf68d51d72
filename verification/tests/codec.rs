use websubmit::codec::{deserialize, serialize};
use websubmit::rows::{AnswerRow, UserRow};

fn sample_user(email: &str, admin: bool, mask: u8) -> UserRow {
    UserRow {
        email: String::from(email),
        credential: format!("cred-of-{}", email),
        is_admin: admin,
        mask,
    }
}

fn sample_answer(email: &str, lecture: u64, question: u64, text: &str, at: u64) -> AnswerRow {
    AnswerRow {
        email: String::from(email),
        lecture,
        question,
        text: String::from(text),
        submitted_at: at,
    }
}

#[test]
fn round_trip_restores_rows_exactly() {
    let users = vec![sample_user("alice", true, 7)];
    let answers = vec![
        sample_answer("alice", 1, 1, "first answer", 100),
        sample_answer("alice", 2, 9, "", 200),
        sample_answer("alice", u64::MAX, u64::MAX, "edge", u64::MAX),
    ];
    let blob = serialize(&users, &answers);
    let (u2, a2) = deserialize(&blob).expect("a written blob parses");
    assert_eq!(u2, users);
    assert_eq!(a2, answers);
}

#[test]
fn round_trip_handles_unicode_text() {
    let users = vec![sample_user("áli\u{10348}ce", false, 5)];
    let answers = vec![sample_answer("áli\u{10348}ce", 3, 4, "héllo wörld \u{1F600}", 1)];
    let blob = serialize(&users, &answers);
    let (u2, a2) = deserialize(&blob).expect("a written blob parses");
    assert_eq!(u2, users);
    assert_eq!(a2, answers);
}

#[test]
fn empty_relations_round_trip() {
    let users: Vec<UserRow> = Vec::new();
    let answers: Vec<AnswerRow> = Vec::new();
    let blob = serialize(&users, &answers);
    // two 64-bit counts and nothing else
    assert_eq!(blob.len(), 16);
    let (u2, a2) = deserialize(&blob).expect("a written blob parses");
    assert!(u2.is_empty());
    assert!(a2.is_empty());
}

#[test]
fn exact_wire_format_of_one_user_row() {
    let users = vec![sample_user("ab", false, 3)];
    let answers: Vec<AnswerRow> = Vec::new();
    let blob = serialize(&users, &answers);
    let mut expected: Vec<u8> = Vec::new();
    expected.extend_from_slice(&1u64.to_le_bytes());
    expected.extend_from_slice(&2u64.to_le_bytes());
    expected.extend_from_slice(b"ab");
    let cred = "cred-of-ab";
    expected.extend_from_slice(&(cred.len() as u64).to_le_bytes());
    expected.extend_from_slice(cred.as_bytes());
    expected.push(0u8);
    expected.push(3u8);
    expected.extend_from_slice(&0u64.to_le_bytes());
    assert_eq!(blob, expected);
}

#[test]
fn garbage_is_rejected() {
    assert!(deserialize(&vec![]).is_none());
    assert!(deserialize(&vec![0xFF; 7]).is_none());
    // a count with no rows behind it
    let mut blob: Vec<u8> = Vec::new();
    blob.extend_from_slice(&5u64.to_le_bytes());
    assert!(deserialize(&blob).is_none());
    // invalid UTF-8 inside a string
    let mut blob: Vec<u8> = Vec::new();
    blob.extend_from_slice(&1u64.to_le_bytes());
    blob.extend_from_slice(&2u64.to_le_bytes());
    blob.push(0xC0);
    blob.push(0xC0);
    assert!(deserialize(&blob).is_none());
}

#[test]
fn trailing_bytes_are_rejected() {
    let users = vec![sample_user("alice", false, 1)];
    let answers: Vec<AnswerRow> = Vec::new();
    let mut blob = serialize(&users, &answers);
    blob.push(0);
    assert!(deserialize(&blob).is_none());
}

#[test]
fn staff_byte_must_be_zero_or_one() {
    let users = vec![sample_user("a", true, 1)];
    let answers: Vec<AnswerRow> = Vec::new();
    let mut blob = serialize(&users, &answers);
    // the staff byte sits two bytes before the trailing answer count
    let idx = blob.len() - 10;
    assert_eq!(blob[idx], 1);
    blob[idx] = 2;
    assert!(deserialize(&blob).is_none());
}
