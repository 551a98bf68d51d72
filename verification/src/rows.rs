//! The row types held by a shard's two base relations.
//!
//! A shard's identity relation holds exactly one [`UserRow`]: the
//! principal's email key, the keyed credential, the staff flag and the
//! permission mask in force when the relation was built.  The answers
//! relation holds one [`AnswerRow`] per `(lecture, question)` key.

use vstd::prelude::*;

verus! {

/// The identity row seeded into a principal's user-info relation.
#[derive(Debug)]
pub struct UserRow {
    /// The principal's email key, the stable shard-naming token.
    pub email: String,
    /// The keyed hash of the email: unforgeable without the server secret.
    pub credential: String,
    /// Whether the principal is staff.
    pub is_admin: bool,
    /// The permission mask the relation was built with.
    pub mask: u8,
}

/// The mathematical value of a [`UserRow`].
pub ghost struct UserRowV {
    pub email: Seq<char>,
    pub credential: Seq<char>,
    pub is_admin: bool,
    pub mask: u8,
}

impl View for UserRow {
    type V = UserRowV;

    open spec fn view(&self) -> UserRowV {
        UserRowV {
            email: self.email@,
            credential: self.credential@,
            is_admin: self.is_admin,
            mask: self.mask,
        }
    }
}

impl DeepView for UserRow {
    type V = UserRowV;

    open spec fn deep_view(&self) -> UserRowV {
        self.view()
    }
}

impl UserRow {
    /// A field-for-field copy of the row.
    pub fn duplicate(&self) -> (r: UserRow)
        ensures
            r@ == self@,
    {
        UserRow {
            email: self.email.clone(),
            credential: self.credential.clone(),
            is_admin: self.is_admin,
            mask: self.mask,
        }
    }
}

impl PartialEq for UserRow {
    fn eq(&self, o: &UserRow) -> (r: bool) {
        self.email == o.email && self.credential == o.credential && self.is_admin == o.is_admin
            && self.mask == o.mask
    }
}

impl vstd::std_specs::cmp::PartialEqSpecImpl for UserRow {
    open spec fn obeys_eq_spec() -> bool {
        true
    }

    open spec fn eq_spec(&self, o: &UserRow) -> bool {
        self@ == o@
    }
}

impl Eq for UserRow {}

/// One submission record, keyed inside its relation by `(lecture, question)`.
#[derive(Debug)]
pub struct AnswerRow {
    /// The owning principal's email key.
    pub email: String,
    /// The lecture the answer belongs to.
    pub lecture: u64,
    /// The question number within the lecture.
    pub question: u64,
    /// The submitted text, stored in escaped form.
    pub text: String,
    /// Caller-supplied submission time.
    pub submitted_at: u64,
}

/// The mathematical value of an [`AnswerRow`].
pub ghost struct AnswerRowV {
    pub email: Seq<char>,
    pub lecture: u64,
    pub question: u64,
    pub text: Seq<char>,
    pub submitted_at: u64,
}

impl View for AnswerRow {
    type V = AnswerRowV;

    open spec fn view(&self) -> AnswerRowV {
        AnswerRowV {
            email: self.email@,
            lecture: self.lecture,
            question: self.question,
            text: self.text@,
            submitted_at: self.submitted_at,
        }
    }
}

impl DeepView for AnswerRow {
    type V = AnswerRowV;

    open spec fn deep_view(&self) -> AnswerRowV {
        self.view()
    }
}

impl AnswerRow {
    /// A field-for-field copy of the row.
    pub fn duplicate(&self) -> (r: AnswerRow)
        ensures
            r@ == self@,
    {
        AnswerRow {
            email: self.email.clone(),
            lecture: self.lecture,
            question: self.question,
            text: self.text.clone(),
            submitted_at: self.submitted_at,
        }
    }
}

impl PartialEq for AnswerRow {
    fn eq(&self, o: &AnswerRow) -> (r: bool) {
        self.email == o.email && self.lecture == o.lecture && self.question == o.question
            && self.text == o.text && self.submitted_at == o.submitted_at
    }
}

impl vstd::std_specs::cmp::PartialEqSpecImpl for AnswerRow {
    open spec fn obeys_eq_spec() -> bool {
        true
    }

    open spec fn eq_spec(&self, o: &AnswerRow) -> bool {
        self@ == o@
    }
}

impl Eq for AnswerRow {}

/// Every row of a sequence is attributed to the given email key.
pub open spec fn user_rows_owned_by(rows: Seq<UserRowV>, email: Seq<char>) -> bool {
    forall|i: int| 0 <= i < rows.len() ==> (#[trigger] rows[i]).email == email
}

/// Every row of a sequence is attributed to the given email key.
pub open spec fn answer_rows_owned_by(rows: Seq<AnswerRowV>, email: Seq<char>) -> bool {
    forall|i: int| 0 <= i < rows.len() ==> (#[trigger] rows[i]).email == email
}

/// No two rows of the sequence share a `(lecture, question)` key.
pub open spec fn answer_keys_unique(rows: Seq<AnswerRowV>) -> bool {
    forall|i: int, j: int|
        0 <= i < j < rows.len() ==> !((#[trigger] rows[i]).lecture == (#[trigger] rows[j]).lecture
            && rows[i].question == rows[j].question)
}

} // verus!
