//! A small time tracker: work items form a tree (project, task, subtask),
//! time is recorded as stretches with a start and an optional end, and
//! reports bucket the recorded time per local calendar day in a fixed
//! time zone.  Commands for an enclosing interactive shell are emitted
//! through an escaping layer that keeps every argument a single word.

use vstd::prelude::*;

pub mod strutil;
pub mod num;
pub mod codes;
pub mod models;
pub mod tz;
pub mod report;
pub mod shell;
pub mod fish;

pub use codes::SubtaskSpec;
pub use models::{Project, Task, Subtask, Stretch, Db};
pub use shell::{Shell, ByteSink};
pub use fish::Fish;
pub use report::duration_hms;

verus! {

/// The two failure kinds: trouble with the stored data, and input that
/// does not parse.
#[derive(Debug)]
pub enum Error {
    Storage(String),
    Validation(String),
}

impl Error {
    pub open spec fn is_validation(&self) -> bool {
        self matches Error::Validation(_)
    }

    pub open spec fn is_storage(&self) -> bool {
        self matches Error::Storage(_)
    }

    /// The human-readable message carried by either kind.
    pub fn message(&self) -> (m: &String)
        ensures
            *self matches Error::Storage(s) ==> m@ == s@,
            *self matches Error::Validation(s) ==> m@ == s@,
    {
        match self {
            Error::Storage(m) => m,
            Error::Validation(m) => m,
        }
    }
}

} // verus!
