//! Deployment configuration: the values a deployment's configuration
//! file provides.  Reading and parsing the file is I/O glue and lives
//! outside the library; the parsed values are handed in as plain data.

use vstd::prelude::*;

verus! {

/// A deployment's configuration values.
pub struct Config {
    /// Textual identifier for the class.
    pub class: String,
    /// Database user.
    pub db_user: String,
    /// Database password.
    pub db_password: String,
    /// System admin addresses.
    pub admins: Vec<String>,
    /// Staff email addresses.
    pub staff: Vec<String>,
    /// Web template directory.
    pub template_dir: String,
    /// Web resource root directory.
    pub resource_dir: String,
    /// Secret for credential generation.
    pub secret: String,
    /// Whether to send emails.
    pub send_emails: bool,
    /// Whether to reset and prime the backing store.
    pub prime: bool,
}

impl Config {
    /// Whether an address is one of the configured admins.
    pub fn is_admin(&self, email: &String) -> (b: bool)
        ensures
            b == (exists|i: int| 0 <= i < self.admins@.len() && (#[trigger] self.admins@[i])@ == email@),
    {
        let n = self.admins.len();
        let mut i: usize = 0;
        while i < n
            invariant
                0 <= i <= n,
                n == self.admins@.len(),
                forall|j: int| 0 <= j < i ==> (#[trigger] self.admins@[j])@ != email@,
            decreases n - i,
        {
            if self.admins[i] == *email {
                return true;
            }
            i = i + 1;
        }
        false
    }
}

} // verus!
