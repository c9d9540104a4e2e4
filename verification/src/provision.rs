//! The folder-provisioning decision: given what the filesystem reports about
//! the would-be destination folder of one extension, decide whether to report
//! it as already present, to create it, or to fail on a name collision.
//!
//! Probing the filesystem and creating the folder are left to the caller;
//! this module only fixes the decision, so that provisioning tolerates a
//! pre-existing folder (and a re-run) and never touches a folder's contents.

use vstd::prelude::*;

verus! {

/// What the filesystem reports at a destination folder's path.
#[derive(Clone, Copy, Debug, PartialEq, Eq, Structural)]
pub enum DirProbe {
    /// The path exists and is a directory.
    IsDir,
    /// The path exists but is not a directory.
    IsOther,
    /// Nothing exists at the path.
    Missing,
}

/// What provisioning does for one extension's folder.
#[derive(Clone, Copy, Debug, PartialEq, Eq, Structural)]
pub enum ProvisionStep {
    /// The folder is already there: report it and leave it untouched.
    ReportExists,
    /// Nothing is there yet: create the folder.
    CreateNew,
    /// A non-directory entry occupies the folder's name: fail the run.
    FailCollision,
}

/// The provisioning decision for one probed destination folder.
pub open spec fn provision_step_spec(probe: DirProbe) -> ProvisionStep {
    match probe {
        DirProbe::IsDir => ProvisionStep::ReportExists,
        DirProbe::IsOther => ProvisionStep::FailCollision,
        DirProbe::Missing => ProvisionStep::CreateNew,
    }
}

/// Decides what to do for one extension's destination folder, from what the
/// filesystem reports at its path.
pub fn provision_step(probe: DirProbe) -> (r: ProvisionStep)
    ensures
        r == provision_step_spec(probe),
        r == ProvisionStep::ReportExists <==> probe == DirProbe::IsDir,
        r == ProvisionStep::FailCollision <==> probe == DirProbe::IsOther,
        r == ProvisionStep::CreateNew <==> probe == DirProbe::Missing,
{
    match probe {
        DirProbe::IsDir => ProvisionStep::ReportExists,
        DirProbe::IsOther => ProvisionStep::FailCollision,
        DirProbe::Missing => ProvisionStep::CreateNew,
    }
}

/// A second run is safe: every extension folder the first run left behind is
/// a directory, so provisioning it again only reports that it already exists;
/// it neither fails nor creates (and so never alters) anything.
pub proof fn lemma_second_run_reports_exists(probe: DirProbe)
    requires
        probe == DirProbe::IsDir,
    ensures
        provision_step_spec(probe) == ProvisionStep::ReportExists,
        provision_step_spec(probe) != ProvisionStep::FailCollision,
        provision_step_spec(probe) != ProvisionStep::CreateNew,
{
}

} // verus!
