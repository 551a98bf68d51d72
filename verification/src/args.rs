//! The command-line arguments a deployment starts with.  Parsing the
//! command line is I/O glue and lives outside the library; the parsed
//! values are handed in as plain data.

use vstd::prelude::*;

use crate::config::Config;

verus! {

/// The parsed command line: the class identifier and the configuration
/// read from the named file.
pub struct Args {
    /// Short textual identifier for the hosted class.
    pub class: String,
    /// The deployment's configuration.
    pub config: Config,
}

} // verus!
