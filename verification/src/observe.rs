//! One bounded hunt's normalized observations, as the analyses and
//! recordings take them.

use vstd::prelude::*;
use crate::cgroup::{CgroupError, CgroupObservation};
use crate::host_analysis::StallEvidence;
use crate::io::{DiskstatsError, DiskstatsObservation, ProcessIoObservation};
use crate::memory::{MemoryContextError, MemoryContextObservation};
use crate::psi::CpuPsiError;

verus! {

/// Memory pressure and the memory context of one hunt.
#[derive(Debug, PartialEq, Eq)]
pub struct MemoryHuntObservation {
    pub psi: Option<StallEvidence>,
    pub context: Result<MemoryContextObservation, MemoryContextError>,
}

/// I/O pressure, block devices and per-process I/O of one hunt.
#[derive(Debug, PartialEq, Eq)]
pub struct IoHuntObservation {
    pub psi: Option<StallEvidence>,
    pub diskstats: Result<DiskstatsObservation, DiskstatsError>,
    pub processes: Result<ProcessIoObservation, DiskstatsError>,
}

/// Everything one hunt observed.  The CPU pressure observation is kept as
/// `C`: it carries the kernel's decimal averages, which the caller holds.
#[derive(Debug, PartialEq)]
pub struct HuntObservation<C> {
    pub psi: Result<C, CpuPsiError>,
    pub memory: MemoryHuntObservation,
    pub io: IoHuntObservation,
    pub cgroup: Result<CgroupObservation, CgroupError>,
}

} // verus!
