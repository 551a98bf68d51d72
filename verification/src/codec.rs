//! The integrity export codec: a shard's two relations are written to a
//! portable byte blob and read back on reinstatement.
//!
//! The encoding is length-prefixed and little-endian: a 64-bit row
//! count, then each row with every string as a 64-bit byte length
//! followed by its UTF-8 bytes.  Parsing of a well-formed blob is
//! proved to return exactly the rows that were written.

use vstd::bytes::{spec_u64_from_le_bytes, spec_u64_to_le_bytes, lemma_auto_spec_u64_to_from_le_bytes};
use vstd::prelude::*;
use vstd::utf8::{decode_utf8, encode_utf8, encode_utf8_decode_utf8, encode_utf8_valid_utf8, valid_utf8};

use crate::rows::{AnswerRow, AnswerRowV, UserRow, UserRowV};

verus! {

/// The string's UTF-8 form fits under a 64-bit length prefix.
pub open spec fn str_encodable(s: Seq<char>) -> bool {
    encode_utf8(s).len() <= u64::MAX
}

/// A 64-bit value as its eight little-endian bytes.
pub open spec fn enc_u64(x: u64) -> Seq<u8> {
    spec_u64_to_le_bytes(x)
}

/// A string as a 64-bit byte length followed by its UTF-8 bytes.
pub open spec fn enc_str(s: Seq<char>) -> Seq<u8> {
    enc_u64(encode_utf8(s).len() as u64) + encode_utf8(s)
}

/// A boolean as one byte, `1` for true and `0` for false.
pub open spec fn enc_bool(b: bool) -> Seq<u8> {
    seq![if b { 1u8 } else { 0u8 }]
}

/// One identity row: email, credential, staff flag, mask.
pub open spec fn enc_user_row(r: UserRowV) -> Seq<u8> {
    enc_str(r.email) + enc_str(r.credential) + enc_bool(r.is_admin) + seq![r.mask]
}

/// Identity rows, one after the other.
pub open spec fn enc_user_rows(rows: Seq<UserRowV>) -> Seq<u8>
    decreases rows.len(),
{
    if rows.len() == 0 {
        Seq::empty()
    } else {
        enc_user_row(rows[0]) + enc_user_rows(rows.drop_first())
    }
}

/// One answer row: email, lecture, question, text, submission time.
pub open spec fn enc_answer_row(r: AnswerRowV) -> Seq<u8> {
    enc_str(r.email) + enc_u64(r.lecture) + enc_u64(r.question) + enc_str(r.text) + enc_u64(
        r.submitted_at,
    )
}

/// Answer rows, one after the other.
pub open spec fn enc_answer_rows(rows: Seq<AnswerRowV>) -> Seq<u8>
    decreases rows.len(),
{
    if rows.len() == 0 {
        Seq::empty()
    } else {
        enc_answer_row(rows[0]) + enc_answer_rows(rows.drop_first())
    }
}

/// The rows' counts and strings all fit under 64-bit length prefixes.
pub open spec fn user_rows_encodable(rows: Seq<UserRowV>) -> bool {
    &&& rows.len() <= u64::MAX
    &&& forall|i: int|
        0 <= i < rows.len() ==> str_encodable((#[trigger] rows[i]).email) && str_encodable(
            rows[i].credential,
        )
}

/// The rows' counts and strings all fit under 64-bit length prefixes.
pub open spec fn answer_rows_encodable(rows: Seq<AnswerRowV>) -> bool {
    &&& rows.len() <= u64::MAX
    &&& forall|i: int|
        0 <= i < rows.len() ==> str_encodable((#[trigger] rows[i]).email) && str_encodable(
            rows[i].text,
        )
}

/// The whole blob: user rows then answer rows, each group counted.
pub open spec fn spec_serialize(users: Seq<UserRowV>, answers: Seq<AnswerRowV>) -> Seq<u8> {
    enc_u64(users.len() as u64) + enc_user_rows(users) + enc_u64(answers.len() as u64)
        + enc_answer_rows(answers)
}

/// Reads eight little-endian bytes at `p`.
pub open spec fn sp_u64(b: Seq<u8>, p: int) -> Option<(u64, int)> {
    if 0 <= p && p + 8 <= b.len() {
        Some((spec_u64_from_le_bytes(b.subrange(p, p + 8)), p + 8))
    } else {
        None
    }
}

/// Reads one byte at `p`.
pub open spec fn sp_byte(b: Seq<u8>, p: int) -> Option<(u8, int)> {
    if 0 <= p && p + 1 <= b.len() {
        Some((b[p], p + 1))
    } else {
        None
    }
}

/// Reads a length-prefixed UTF-8 string at `p`.
pub open spec fn sp_str(b: Seq<u8>, p: int) -> Option<(Seq<char>, int)> {
    match sp_u64(b, p) {
        None => None,
        Some((n, q)) => if q + n <= b.len() && valid_utf8(b.subrange(q, q + n)) {
            Some((decode_utf8(b.subrange(q, q + n)), q + n))
        } else {
            None
        },
    }
}

/// Reads one identity row at `p`; the staff byte must be 0 or 1.
pub open spec fn sp_user_row(b: Seq<u8>, p: int) -> Option<(UserRowV, int)> {
    match sp_str(b, p) {
        None => None,
        Some((email, p1)) => match sp_str(b, p1) {
            None => None,
            Some((credential, p2)) => match sp_byte(b, p2) {
                None => None,
                Some((adm, p3)) => if adm == 0 || adm == 1 {
                    match sp_byte(b, p3) {
                        None => None,
                        Some((mask, p4)) => Some(
                            (UserRowV { email, credential, is_admin: adm == 1, mask }, p4),
                        ),
                    }
                } else {
                    None
                },
            },
        },
    }
}

/// Reads `n` identity rows at `p`.
pub open spec fn sp_user_rows(b: Seq<u8>, p: int, n: nat) -> Option<(Seq<UserRowV>, int)>
    decreases n,
{
    if n == 0 {
        Some((Seq::empty(), p))
    } else {
        match sp_user_row(b, p) {
            None => None,
            Some((r, q)) => match sp_user_rows(b, q, (n - 1) as nat) {
                None => None,
                Some((rs, e)) => Some((seq![r] + rs, e)),
            },
        }
    }
}

/// Reads one answer row at `p`.
pub open spec fn sp_answer_row(b: Seq<u8>, p: int) -> Option<(AnswerRowV, int)> {
    match sp_str(b, p) {
        None => None,
        Some((email, p1)) => match sp_u64(b, p1) {
            None => None,
            Some((lecture, p2)) => match sp_u64(b, p2) {
                None => None,
                Some((question, p3)) => match sp_str(b, p3) {
                    None => None,
                    Some((text, p4)) => match sp_u64(b, p4) {
                        None => None,
                        Some((submitted_at, p5)) => Some(
                            (AnswerRowV { email, lecture, question, text, submitted_at }, p5),
                        ),
                    },
                },
            },
        },
    }
}

/// Reads `n` answer rows at `p`.
pub open spec fn sp_answer_rows(b: Seq<u8>, p: int, n: nat) -> Option<(Seq<AnswerRowV>, int)>
    decreases n,
{
    if n == 0 {
        Some((Seq::empty(), p))
    } else {
        match sp_answer_row(b, p) {
            None => None,
            Some((r, q)) => match sp_answer_rows(b, q, (n - 1) as nat) {
                None => None,
                Some((rs, e)) => Some((seq![r] + rs, e)),
            },
        }
    }
}

/// What a blob means: both row groups, with nothing left over.
pub open spec fn spec_deserialize(b: Seq<u8>) -> Option<(Seq<UserRowV>, Seq<AnswerRowV>)> {
    match sp_u64(b, 0) {
        None => None,
        Some((nu, p1)) => match sp_user_rows(b, p1, nu as nat) {
            None => None,
            Some((users, p2)) => match sp_u64(b, p2) {
                None => None,
                Some((na, p3)) => match sp_answer_rows(b, p3, na as nat) {
                    None => None,
                    Some((answers, p4)) => if p4 == b.len() {
                        Some((users, answers))
                    } else {
                        None
                    },
                },
            },
        },
    }
}

/// Reading a 64-bit value where one was written recovers it.
proof fn lemma_sp_u64_at(b: Seq<u8>, p: int, x: u64)
    requires
        0 <= p,
        p + 8 <= b.len(),
        b.subrange(p, p + 8) == enc_u64(x),
    ensures
        sp_u64(b, p) == Some((x, p + 8)),
{
    lemma_auto_spec_u64_to_from_le_bytes();
}

/// Reading a string where one was written recovers it.
proof fn lemma_sp_str_at(b: Seq<u8>, p: int, s: Seq<char>)
    requires
        str_encodable(s),
        0 <= p,
        p + enc_str(s).len() <= b.len(),
        b.subrange(p, p + enc_str(s).len()) == enc_str(s),
    ensures
        sp_str(b, p) == Some((s, p + enc_str(s).len())),
{
    lemma_auto_spec_u64_to_from_le_bytes();
    let u = encode_utf8(s);
    let l = u.len() as int;
    assert(enc_str(s).len() == 8 + l);
    assert(b.subrange(p, p + 8) =~= enc_str(s).subrange(0, 8));
    assert(enc_str(s).subrange(0, 8) =~= enc_u64(u.len() as u64));
    lemma_sp_u64_at(b, p, u.len() as u64);
    let q = p + 8;
    assert(u.len() as u64 as int == l);
    assert(b.subrange(q, q + l) =~= enc_str(s).subrange(8, 8 + l));
    assert(enc_str(s).subrange(8, 8 + l) =~= u);
    encode_utf8_valid_utf8(s);
    encode_utf8_decode_utf8(s);
}

/// Reading a byte where one was written recovers it.
proof fn lemma_sp_byte_at(b: Seq<u8>, p: int, x: u8)
    requires
        0 <= p,
        p + 1 <= b.len(),
        b.subrange(p, p + 1) == seq![x],
    ensures
        sp_byte(b, p) == Some((x, p + 1)),
{
    assert(b[p] == b.subrange(p, p + 1)[0]);
}

/// Reading an identity row where one was written recovers it.
proof fn lemma_sp_user_row_at(b: Seq<u8>, p: int, r: UserRowV)
    requires
        str_encodable(r.email),
        str_encodable(r.credential),
        0 <= p,
        p + enc_user_row(r).len() <= b.len(),
        b.subrange(p, p + enc_user_row(r).len()) == enc_user_row(r),
    ensures
        sp_user_row(b, p) == Some((r, p + enc_user_row(r).len())),
{
    let e = enc_user_row(r);
    let l1 = enc_str(r.email).len() as int;
    let l2 = enc_str(r.credential).len() as int;
    assert(e.len() == l1 + l2 + 2);
    assert(b.subrange(p, p + l1) =~= enc_str(r.email)) by {
        assert forall|i: int| 0 <= i < l1 implies b.subrange(p, p + l1)[i] == enc_str(r.email)[i] by {
            assert(b.subrange(p, p + l1)[i] == b.subrange(p, p + e.len())[i]);
        }
    }
    lemma_sp_str_at(b, p, r.email);
    let p1 = p + l1;
    assert(b.subrange(p1, p1 + l2) =~= enc_str(r.credential)) by {
        assert forall|i: int| 0 <= i < l2 implies b.subrange(p1, p1 + l2)[i] == enc_str(
            r.credential,
        )[i] by {
            assert(b.subrange(p1, p1 + l2)[i] == b.subrange(p, p + e.len())[l1 + i]);
        }
    }
    lemma_sp_str_at(b, p1, r.credential);
    let p2 = p1 + l2;
    let adm: u8 = if r.is_admin {
        1u8
    } else {
        0u8
    };
    assert(b.subrange(p2, p2 + 1) =~= seq![adm]) by {
        assert(b.subrange(p2, p2 + 1)[0] == b.subrange(p, p + e.len())[l1 + l2]);
    }
    lemma_sp_byte_at(b, p2, adm);
    let p3 = p2 + 1;
    assert(b.subrange(p3, p3 + 1) =~= seq![r.mask]) by {
        assert(b.subrange(p3, p3 + 1)[0] == b.subrange(p, p + e.len())[l1 + l2 + 1]);
    }
    lemma_sp_byte_at(b, p3, r.mask);
    assert(UserRowV {
        email: r.email,
        credential: r.credential,
        is_admin: adm == 1,
        mask: r.mask,
    } == r);
}

/// Reading a run of identity rows where they were written recovers them.
proof fn lemma_sp_user_rows_at(b: Seq<u8>, p: int, rows: Seq<UserRowV>)
    requires
        user_rows_encodable(rows),
        0 <= p,
        p + enc_user_rows(rows).len() <= b.len(),
        b.subrange(p, p + enc_user_rows(rows).len()) == enc_user_rows(rows),
    ensures
        sp_user_rows(b, p, rows.len()) == Some((rows, p + enc_user_rows(rows).len())),
    decreases rows.len(),
{
    if rows.len() == 0 {
        assert(rows =~= Seq::<UserRowV>::empty());
    } else {
        let e = enc_user_rows(rows);
        let r0 = enc_user_row(rows[0]);
        let rest = enc_user_rows(rows.drop_first());
        assert(e == r0 + rest);
        assert(b.subrange(p, p + r0.len()) =~= r0) by {
            assert forall|i: int| 0 <= i < r0.len() implies b.subrange(p, p + r0.len() as int)[i]
                == r0[i] by {
                assert(b.subrange(p, p + r0.len() as int)[i] == b.subrange(p, p + e.len())[i]);
            }
        }
        lemma_sp_user_row_at(b, p, rows[0]);
        let q = p + r0.len();
        assert(b.subrange(q, q + rest.len()) =~= rest) by {
            assert forall|i: int| 0 <= i < rest.len() implies b.subrange(
                q,
                q + rest.len() as int,
            )[i] == rest[i] by {
                assert(b.subrange(q, q + rest.len() as int)[i] == b.subrange(p, p + e.len())[
                    r0.len() + i]);
            }
        }
        assert(user_rows_encodable(rows.drop_first())) by {
            assert(forall|i: int|
                0 <= i < rows.drop_first().len() ==> #[trigger] rows.drop_first()[i] == rows[i
                    + 1]);
        }
        lemma_sp_user_rows_at(b, q, rows.drop_first());
        assert(seq![rows[0]] + rows.drop_first() =~= rows);
    }
}

/// Reading an answer row where one was written recovers it.
proof fn lemma_sp_answer_row_at(b: Seq<u8>, p: int, r: AnswerRowV)
    requires
        str_encodable(r.email),
        str_encodable(r.text),
        0 <= p,
        p + enc_answer_row(r).len() <= b.len(),
        b.subrange(p, p + enc_answer_row(r).len()) == enc_answer_row(r),
    ensures
        sp_answer_row(b, p) == Some((r, p + enc_answer_row(r).len())),
{
    lemma_auto_spec_u64_to_from_le_bytes();
    let e = enc_answer_row(r);
    let l1 = enc_str(r.email).len() as int;
    let l2 = enc_str(r.text).len() as int;
    assert(e.len() == l1 + 8 + 8 + l2 + 8);
    assert(b.subrange(p, p + l1) =~= enc_str(r.email)) by {
        assert forall|i: int| 0 <= i < l1 implies b.subrange(p, p + l1)[i] == enc_str(r.email)[i] by {
            assert(b.subrange(p, p + l1)[i] == b.subrange(p, p + e.len())[i]);
        }
    }
    lemma_sp_str_at(b, p, r.email);
    let p1 = p + l1;
    assert(b.subrange(p1, p1 + 8) =~= enc_u64(r.lecture)) by {
        assert forall|i: int| 0 <= i < 8 implies b.subrange(p1, p1 + 8)[i] == enc_u64(r.lecture)[i] by {
            assert(b.subrange(p1, p1 + 8)[i] == b.subrange(p, p + e.len())[l1 + i]);
        }
    }
    lemma_sp_u64_at(b, p1, r.lecture);
    let p2 = p1 + 8;
    assert(b.subrange(p2, p2 + 8) =~= enc_u64(r.question)) by {
        assert forall|i: int| 0 <= i < 8 implies b.subrange(p2, p2 + 8)[i] == enc_u64(r.question)[i] by {
            assert(b.subrange(p2, p2 + 8)[i] == b.subrange(p, p + e.len())[l1 + 8 + i]);
        }
    }
    lemma_sp_u64_at(b, p2, r.question);
    let p3 = p2 + 8;
    assert(b.subrange(p3, p3 + l2) =~= enc_str(r.text)) by {
        assert forall|i: int| 0 <= i < l2 implies b.subrange(p3, p3 + l2)[i] == enc_str(r.text)[i] by {
            assert(b.subrange(p3, p3 + l2)[i] == b.subrange(p, p + e.len())[l1 + 16 + i]);
        }
    }
    lemma_sp_str_at(b, p3, r.text);
    let p4 = p3 + l2;
    assert(b.subrange(p4, p4 + 8) =~= enc_u64(r.submitted_at)) by {
        assert forall|i: int| 0 <= i < 8 implies b.subrange(p4, p4 + 8)[i] == enc_u64(
            r.submitted_at,
        )[i] by {
            assert(b.subrange(p4, p4 + 8)[i] == b.subrange(p, p + e.len())[l1 + 16 + l2 + i]);
        }
    }
    lemma_sp_u64_at(b, p4, r.submitted_at);
    assert(AnswerRowV {
        email: r.email,
        lecture: r.lecture,
        question: r.question,
        text: r.text,
        submitted_at: r.submitted_at,
    } == r);
}

/// Reading a run of answer rows where they were written recovers them.
proof fn lemma_sp_answer_rows_at(b: Seq<u8>, p: int, rows: Seq<AnswerRowV>)
    requires
        answer_rows_encodable(rows),
        0 <= p,
        p + enc_answer_rows(rows).len() <= b.len(),
        b.subrange(p, p + enc_answer_rows(rows).len()) == enc_answer_rows(rows),
    ensures
        sp_answer_rows(b, p, rows.len()) == Some((rows, p + enc_answer_rows(rows).len())),
    decreases rows.len(),
{
    if rows.len() == 0 {
        assert(rows =~= Seq::<AnswerRowV>::empty());
    } else {
        let e = enc_answer_rows(rows);
        let r0 = enc_answer_row(rows[0]);
        let rest = enc_answer_rows(rows.drop_first());
        assert(e == r0 + rest);
        assert(b.subrange(p, p + r0.len()) =~= r0) by {
            assert forall|i: int| 0 <= i < r0.len() implies b.subrange(p, p + r0.len() as int)[i]
                == r0[i] by {
                assert(b.subrange(p, p + r0.len() as int)[i] == b.subrange(p, p + e.len())[i]);
            }
        }
        lemma_sp_answer_row_at(b, p, rows[0]);
        let q = p + r0.len();
        assert(b.subrange(q, q + rest.len()) =~= rest) by {
            assert forall|i: int| 0 <= i < rest.len() implies b.subrange(
                q,
                q + rest.len() as int,
            )[i] == rest[i] by {
                assert(b.subrange(q, q + rest.len() as int)[i] == b.subrange(p, p + e.len())[
                    r0.len() + i]);
            }
        }
        assert(answer_rows_encodable(rows.drop_first())) by {
            assert(forall|i: int|
                0 <= i < rows.drop_first().len() ==> #[trigger] rows.drop_first()[i] == rows[i
                    + 1]);
        }
        lemma_sp_answer_rows_at(b, q, rows.drop_first());
        assert(seq![rows[0]] + rows.drop_first() =~= rows);
    }
}

/// Writing one more identity row extends the encoding at the end.
proof fn lemma_enc_user_rows_snoc(rows: Seq<UserRowV>, r: UserRowV)
    ensures
        enc_user_rows(rows.push(r)) == enc_user_rows(rows) + enc_user_row(r),
    decreases rows.len(),
{
    let p = rows.push(r);
    assert(p.len() == rows.len() + 1);
    if rows.len() == 0 {
        assert(p[0] == r);
        assert(p.drop_first() =~= Seq::<UserRowV>::empty());
        assert(enc_user_rows(p) == enc_user_row(r) + enc_user_rows(Seq::<UserRowV>::empty()));
        assert(enc_user_rows(Seq::<UserRowV>::empty()) == Seq::<u8>::empty());
        assert(enc_user_rows(rows) == Seq::<u8>::empty());
        assert(enc_user_row(r) + Seq::<u8>::empty() =~= enc_user_row(r));
        assert(Seq::<u8>::empty() + enc_user_row(r) =~= enc_user_row(r));
    } else {
        assert(p[0] == rows[0]);
        assert(p.drop_first() =~= rows.drop_first().push(r));
        assert(enc_user_rows(p) == enc_user_row(rows[0]) + enc_user_rows(
            rows.drop_first().push(r),
        ));
        lemma_enc_user_rows_snoc(rows.drop_first(), r);
        assert(enc_user_row(rows[0]) + (enc_user_rows(rows.drop_first()) + enc_user_row(r))
            =~= (enc_user_row(rows[0]) + enc_user_rows(rows.drop_first())) + enc_user_row(r));
        assert(enc_user_rows(rows) == enc_user_row(rows[0]) + enc_user_rows(rows.drop_first()));
    }
}

/// Writing one more answer row extends the encoding at the end.
proof fn lemma_enc_answer_rows_snoc(rows: Seq<AnswerRowV>, r: AnswerRowV)
    ensures
        enc_answer_rows(rows.push(r)) == enc_answer_rows(rows) + enc_answer_row(r),
    decreases rows.len(),
{
    let p = rows.push(r);
    assert(p.len() == rows.len() + 1);
    if rows.len() == 0 {
        assert(p[0] == r);
        assert(p.drop_first() =~= Seq::<AnswerRowV>::empty());
        assert(enc_answer_rows(p) == enc_answer_row(r) + enc_answer_rows(Seq::<AnswerRowV>::empty()));
        assert(enc_answer_rows(Seq::<AnswerRowV>::empty()) == Seq::<u8>::empty());
        assert(enc_answer_rows(rows) == Seq::<u8>::empty());
        assert(enc_answer_row(r) + Seq::<u8>::empty() =~= enc_answer_row(r));
        assert(Seq::<u8>::empty() + enc_answer_row(r) =~= enc_answer_row(r));
    } else {
        assert(p[0] == rows[0]);
        assert(p.drop_first() =~= rows.drop_first().push(r));
        assert(enc_answer_rows(p) == enc_answer_row(rows[0]) + enc_answer_rows(
            rows.drop_first().push(r),
        ));
        lemma_enc_answer_rows_snoc(rows.drop_first(), r);
        assert(enc_answer_row(rows[0]) + (enc_answer_rows(rows.drop_first()) + enc_answer_row(r))
            =~= (enc_answer_row(rows[0]) + enc_answer_rows(rows.drop_first())) + enc_answer_row(r));
        assert(enc_answer_rows(rows) == enc_answer_row(rows[0]) + enc_answer_rows(rows.drop_first()));
    }
}

/// Appends the eight little-endian bytes of `x`.
fn put_u64(buf: &mut Vec<u8>, x: u64)
    ensures
        final(buf)@ == old(buf)@ + enc_u64(x),
{
    let mut tmp = vstd::bytes::u64_to_le_bytes(x);
    buf.append(&mut tmp);
}

/// Appends the length-prefixed UTF-8 bytes of `s`.
fn put_str(buf: &mut Vec<u8>, s: &String)
    ensures
        final(buf)@ == old(buf)@ + enc_str(s@),
{
    let mut bytes = s.as_str().as_bytes_vec();
    let n = bytes.len();
    put_u64(buf, n as u64);
    buf.append(&mut bytes);
    assert(buf@ =~= old(buf)@ + enc_str(s@));
}

/// Appends the encoding of one identity row.
fn put_user_row(buf: &mut Vec<u8>, r: &UserRow)
    ensures
        final(buf)@ == old(buf)@ + enc_user_row(r.deep_view()),
{
    put_str(buf, &r.email);
    put_str(buf, &r.credential);
    if r.is_admin {
        buf.push(1u8);
    } else {
        buf.push(0u8);
    }
    buf.push(r.mask);
    assert(buf@ =~= old(buf)@ + enc_user_row(r.deep_view()));
}

/// Appends the encoding of one answer row.
fn put_answer_row(buf: &mut Vec<u8>, r: &AnswerRow)
    ensures
        final(buf)@ == old(buf)@ + enc_answer_row(r.deep_view()),
{
    put_str(buf, &r.email);
    put_u64(buf, r.lecture);
    put_u64(buf, r.question);
    put_str(buf, &r.text);
    put_u64(buf, r.submitted_at);
    assert(buf@ =~= old(buf)@ + enc_answer_row(r.deep_view()));
}

/// Serializes a shard's two relations into a portable blob.
pub fn serialize(users: &Vec<UserRow>, answers: &Vec<AnswerRow>) -> (b: Vec<u8>)
    ensures
        b@ == spec_serialize(users.deep_view(), answers.deep_view()),
{
    let ghost uv = users.deep_view();
    let ghost av = answers.deep_view();
    let mut buf: Vec<u8> = Vec::new();
    let nu = users.len();
    put_u64(&mut buf, nu as u64);
    assert(uv.take(0) =~= Seq::<UserRowV>::empty());
    let mut i: usize = 0;
    while i < nu
        invariant
            0 <= i <= nu,
            nu == users@.len(),
            uv == users.deep_view(),
            buf@ == enc_u64(nu as u64) + enc_user_rows(uv.take(i as int)),
        decreases nu - i,
    {
        put_user_row(&mut buf, &users[i]);
        proof {
            assert((users[i as int]).deep_view() == uv[i as int]);
            lemma_enc_user_rows_snoc(uv.take(i as int), uv[i as int]);
            assert(uv.take(i + 1) =~= uv.take(i as int).push(uv[i as int]));
        }
        i = i + 1;
    }
    assert(uv.take(nu as int) =~= uv);
    let na = answers.len();
    put_u64(&mut buf, na as u64);
    assert(av.take(0) =~= Seq::<AnswerRowV>::empty());
    let mut j: usize = 0;
    while j < na
        invariant
            0 <= j <= na,
            na == answers@.len(),
            uv == users.deep_view(),
            av == answers.deep_view(),
            nu == users@.len(),
            buf@ == enc_u64(nu as u64) + enc_user_rows(uv) + enc_u64(na as u64)
                + enc_answer_rows(av.take(j as int)),
        decreases na - j,
    {
        put_answer_row(&mut buf, &answers[j]);
        proof {
            assert((answers[j as int]).deep_view() == av[j as int]);
            lemma_enc_answer_rows_snoc(av.take(j as int), av[j as int]);
            assert(av.take(j + 1) =~= av.take(j as int).push(av[j as int]));
        }
        j = j + 1;
    }
    assert(av.take(na as int) =~= av);
    assert(buf@ =~= spec_serialize(uv, av));
    buf
}

/// Relies on `String::from_utf8`: it succeeds exactly on valid UTF-8
/// input and returns the string having those bytes.
#[verifier::external_body]
fn string_from_utf8(v: Vec<u8>) -> (r: Option<String>)
    ensures
        r is Some <==> valid_utf8(v@),
        r matches Some(s) ==> encode_utf8(s@) == v@,
{
    match String::from_utf8(v) {
        Ok(s) => Some(s),
        Err(_) => None,
    }
}

/// Reads eight little-endian bytes at `p`.
fn get_u64(b: &Vec<u8>, p: usize) -> (r: Option<(u64, usize)>)
    ensures
        match r {
            Some(v) => sp_u64(b@, p as int) == Some((v.0, v.1 as int)),
            None => sp_u64(b@, p as int) is None,
        },
{
    if p <= b.len() && b.len() - p >= 8 {
        let s = vstd::slice::slice_subrange(b.as_slice(), p, p + 8);
        let x = vstd::bytes::u64_from_le_bytes(s);
        Some((x, p + 8))
    } else {
        None
    }
}

/// Reads one byte at `p`.
fn get_byte(b: &Vec<u8>, p: usize) -> (r: Option<(u8, usize)>)
    ensures
        match r {
            Some(v) => sp_byte(b@, p as int) == Some((v.0, v.1 as int)),
            None => sp_byte(b@, p as int) is None,
        },
{
    if p < b.len() {
        Some((b[p], p + 1))
    } else {
        None
    }
}

/// Reads a length-prefixed UTF-8 string at `p`.
fn get_str(b: &Vec<u8>, p: usize) -> (r: Option<(String, usize)>)
    ensures
        match r {
            Some(v) => sp_str(b@, p as int) == Some((v.0@, v.1 as int)),
            None => sp_str(b@, p as int) is None,
        },
{
    match get_u64(b, p) {
        None => None,
        Some((n, q)) => {
            if n <= (b.len() - q) as u64 {
                let end = q + (n as usize);
                let sl = vstd::slice::slice_subrange(b.as_slice(), q, end);
                let v = vstd::slice::slice_to_vec(sl);
                match string_from_utf8(v) {
                    Some(s) => {
                        proof {
                            encode_utf8_decode_utf8(s@);
                        }
                        Some((s, end))
                    },
                    None => None,
                }
            } else {
                None
            }
        },
    }
}

/// Reads one identity row at `p`.
fn parse_user_row(b: &Vec<u8>, p: usize) -> (r: Option<(UserRow, usize)>)
    ensures
        match r {
            Some(v) => sp_user_row(b@, p as int) == Some((v.0.deep_view(), v.1 as int)),
            None => sp_user_row(b@, p as int) is None,
        },
{
    match get_str(b, p) {
        None => None,
        Some((email, p1)) => match get_str(b, p1) {
            None => None,
            Some((credential, p2)) => match get_byte(b, p2) {
                None => None,
                Some((adm, p3)) => if adm == 0 || adm == 1 {
                    match get_byte(b, p3) {
                        None => None,
                        Some((mask, p4)) => Some(
                            (UserRow { email, credential, is_admin: adm == 1, mask }, p4),
                        ),
                    }
                } else {
                    None
                },
            },
        },
    }
}

/// Reads one answer row at `p`.
fn parse_answer_row(b: &Vec<u8>, p: usize) -> (r: Option<(AnswerRow, usize)>)
    ensures
        match r {
            Some(v) => sp_answer_row(b@, p as int) == Some((v.0.deep_view(), v.1 as int)),
            None => sp_answer_row(b@, p as int) is None,
        },
{
    match get_str(b, p) {
        None => None,
        Some((email, p1)) => match get_u64(b, p1) {
            None => None,
            Some((lecture, p2)) => match get_u64(b, p2) {
                None => None,
                Some((question, p3)) => match get_str(b, p3) {
                    None => None,
                    Some((text, p4)) => match get_u64(b, p4) {
                        None => None,
                        Some((submitted_at, p5)) => Some(
                            (AnswerRow { email, lecture, question, text, submitted_at }, p5),
                        ),
                    },
                },
            },
        },
    }
}

/// Prepends already-parsed rows to a parse continuation.
spec fn sp_prepend_users(
    pre: Seq<UserRowV>,
    r: Option<(Seq<UserRowV>, int)>,
) -> Option<(Seq<UserRowV>, int)> {
    match r {
        None => None,
        Some((rs, e)) => Some((pre + rs, e)),
    }
}

/// Prepends already-parsed rows to a parse continuation.
spec fn sp_prepend_answers(
    pre: Seq<AnswerRowV>,
    r: Option<(Seq<AnswerRowV>, int)>,
) -> Option<(Seq<AnswerRowV>, int)> {
    match r {
        None => None,
        Some((rs, e)) => Some((pre + rs, e)),
    }
}

/// Reads `n` identity rows at `p`.
fn parse_user_rows(b: &Vec<u8>, p: usize, n: u64) -> (r: Option<(Vec<UserRow>, usize)>)
    ensures
        match r {
            Some(v) => sp_user_rows(b@, p as int, n as nat) == Some(
                (v.0.deep_view(), v.1 as int),
            ),
            None => sp_user_rows(b@, p as int, n as nat) is None,
        },
{
    let mut acc: Vec<UserRow> = Vec::new();
    let mut cur: usize = p;
    let mut i: u64 = 0;
    assert(acc.deep_view() =~= Seq::<UserRowV>::empty());
    while i < n
        invariant
            0 <= i <= n,
            sp_user_rows(b@, p as int, n as nat) == sp_prepend_users(
                acc.deep_view(),
                sp_user_rows(b@, cur as int, (n - i) as nat),
            ),
        decreases n - i,
    {
        let ghost m = (n - i) as nat;
        match parse_user_row(b, cur) {
            None => {
                proof {
                    assert(sp_user_rows(b@, cur as int, m) is None);
                }
                return None;
            },
            Some((row, q)) => {
                proof {
                    let rest = sp_user_rows(b@, q as int, (m - 1) as nat);
                    assert(sp_user_rows(b@, cur as int, m) == sp_prepend_users(
                        seq![row.deep_view()],
                        rest,
                    ));
                    if rest is Some {
                        let t = rest->0;
                        let rs = t.0;
                        assert(acc.deep_view() + (seq![row.deep_view()] + rs) =~= acc.deep_view()
                            + seq![row.deep_view()] + rs);
                    }
                }
                let ghost acc0 = acc.deep_view();
                acc.push(row);
                proof {
                    assert(acc.deep_view() =~= acc0 + seq![row.deep_view()]);
                }
                cur = q;
            },
        }
        i = i + 1;
    }
    proof {
        assert(sp_user_rows(b@, cur as int, 0) == Some((Seq::<UserRowV>::empty(), cur as int)));
        assert(acc.deep_view() + Seq::<UserRowV>::empty() =~= acc.deep_view());
    }
    Some((acc, cur))
}

/// Reads `n` answer rows at `p`.
fn parse_answer_rows(b: &Vec<u8>, p: usize, n: u64) -> (r: Option<(Vec<AnswerRow>, usize)>)
    ensures
        match r {
            Some(v) => sp_answer_rows(b@, p as int, n as nat) == Some(
                (v.0.deep_view(), v.1 as int),
            ),
            None => sp_answer_rows(b@, p as int, n as nat) is None,
        },
{
    let mut acc: Vec<AnswerRow> = Vec::new();
    let mut cur: usize = p;
    let mut i: u64 = 0;
    assert(acc.deep_view() =~= Seq::<AnswerRowV>::empty());
    while i < n
        invariant
            0 <= i <= n,
            sp_answer_rows(b@, p as int, n as nat) == sp_prepend_answers(
                acc.deep_view(),
                sp_answer_rows(b@, cur as int, (n - i) as nat),
            ),
        decreases n - i,
    {
        let ghost m = (n - i) as nat;
        match parse_answer_row(b, cur) {
            None => {
                proof {
                    assert(sp_answer_rows(b@, cur as int, m) is None);
                }
                return None;
            },
            Some((row, q)) => {
                proof {
                    let rest = sp_answer_rows(b@, q as int, (m - 1) as nat);
                    assert(sp_answer_rows(b@, cur as int, m) == sp_prepend_answers(
                        seq![row.deep_view()],
                        rest,
                    ));
                    if rest is Some {
                        let t = rest->0;
                        let rs = t.0;
                        assert(acc.deep_view() + (seq![row.deep_view()] + rs) =~= acc.deep_view()
                            + seq![row.deep_view()] + rs);
                    }
                }
                let ghost acc0 = acc.deep_view();
                acc.push(row);
                proof {
                    assert(acc.deep_view() =~= acc0 + seq![row.deep_view()]);
                }
                cur = q;
            },
        }
        i = i + 1;
    }
    proof {
        assert(sp_answer_rows(b@, cur as int, 0) == Some((Seq::<AnswerRowV>::empty(), cur as int)));
        assert(acc.deep_view() + Seq::<AnswerRowV>::empty() =~= acc.deep_view());
    }
    Some((acc, cur))
}

/// Parses a blob back into the two relations, or reports corruption.
pub fn deserialize(b: &Vec<u8>) -> (r: Option<(Vec<UserRow>, Vec<AnswerRow>)>)
    ensures
        r is Some <==> spec_deserialize(b@) is Some,
        r matches Some(v) ==> spec_deserialize(b@) == Some((v.0.deep_view(), v.1.deep_view())),
{
    match get_u64(b, 0) {
        None => None,
        Some((nu, p1)) => match parse_user_rows(b, p1, nu) {
            None => None,
            Some((users, p2)) => match get_u64(b, p2) {
                None => None,
                Some((na, p3)) => match parse_answer_rows(b, p3, na) {
                    None => None,
                    Some((answers, p4)) => if p4 == b.len() {
                        Some((users, answers))
                    } else {
                        None
                    },
                },
            },
        },
    }
}

/// The codec round trip: parsing a written blob yields exactly the rows
/// that were written.
pub proof fn lemma_codec_round_trip(users: Seq<UserRowV>, answers: Seq<AnswerRowV>)
    requires
        user_rows_encodable(users),
        answer_rows_encodable(answers),
    ensures
        spec_deserialize(spec_serialize(users, answers)) == Some((users, answers)),
{
    lemma_auto_spec_u64_to_from_le_bytes();
    let b = spec_serialize(users, answers);
    let eu = enc_user_rows(users);
    let ea = enc_answer_rows(answers);
    assert(b == enc_u64(users.len() as u64) + eu + enc_u64(answers.len() as u64) + ea);
    assert(b.len() == 8 + eu.len() + 8 + ea.len());
    assert(b.subrange(0, 8) =~= enc_u64(users.len() as u64));
    lemma_sp_u64_at(b, 0, users.len() as u64);
    let p1 = 8;
    assert(b.subrange(p1, p1 + eu.len()) =~= eu);
    assert(users.len() as u64 as nat == users.len());
    lemma_sp_user_rows_at(b, p1, users);
    let p2 = p1 + eu.len() as int;
    assert(b.subrange(p2, p2 + 8) =~= enc_u64(answers.len() as u64));
    lemma_sp_u64_at(b, p2, answers.len() as u64);
    let p3 = p2 + 8;
    assert(b.subrange(p3, p3 + ea.len()) =~= ea);
    assert(answers.len() as u64 as nat == answers.len());
    lemma_sp_answer_rows_at(b, p3, answers);
}

} // verus!
