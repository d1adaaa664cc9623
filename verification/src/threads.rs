//! The machine's share in how meshes are generated.

use vstd::prelude::*;

verus! {

/// Gives the number of processors that are available, by `num_cpus::get`.
///
/// The number depends on the machine, on the thread's affinity and on the limits
/// set for the process. All that is claimed is what the crate promises of every
/// outcome: it is at least one.
#[verifier::external_body]
pub(crate) fn available_processors() -> (count: usize)
    ensures
        count >= 1,
{
    num_cpus::get()
}

} // verus!
