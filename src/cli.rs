//! The options a run takes, and the exit status it ends with.
use crate::compare::VersionBump;
use vstd::prelude::*;

verus! {

/// The options of a run: the two lock files, JSON output, and whether
/// non-breaking bumps are shown too.
#[derive(Debug, Clone, PartialEq, Eq)]
pub struct Cli {
    pub old_lock: String,
    pub new_lock: String,
    pub json: bool,
    pub all: bool,
}

/// The exit status of a run where a lock file could not be read or parsed.
pub const LOAD_FAILURE: i32 = 2;

/// The exit status of a finished comparison: 1 where some bump is breaking, else 0.
pub fn exit_code(bumps: &[VersionBump]) -> (r: i32)
    ensures
        r == (if exists|i: int| 0 <= i < bumps@.len() && #[trigger] bumps@[i].is_breaking {
            1i32
        } else {
            0i32
        }),
{
    let mut i: usize = 0;
    while i < bumps.len()
        invariant
            i <= bumps@.len(),
            forall|j: int| 0 <= j < i ==> !#[trigger] bumps@[j].is_breaking,
        decreases bumps.len() - i,
    {
        if bumps[i].is_breaking {
            return 1;
        }
        i += 1;
    }
    0
}

} // verus!
