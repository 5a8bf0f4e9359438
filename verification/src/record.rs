//! Versioned normalized-observation recordings.
//!
//! Recordings are not hunt JSON: they store analyzer input so a replay can
//! re-run the current inference path.  This module holds the recorded forms,
//! the conversions to and from live observations, and identifier redaction.

use vstd::prelude::*;
use crate::cgroup::{
    clone_member, CgroupCollectionIssues, CgroupCpuInterval, CgroupError, CgroupFileState,
    CgroupInterval, CgroupIoDevice, CgroupIoRaw, CgroupMemoryEventsRaw, CgroupMemoryStatRaw,
    CgroupObservation, CgroupProcessMember, CgroupPsiInterval, CgroupPsiIntervalState,
    CgroupResource,
};
use crate::io::{
    DiskstatsInterval, DiskstatsIntervalIssues, DiskstatsObservation, ProcessIoInterval,
    ProcessIoObservation,
};
use crate::host_analysis::StallEvidence;
use crate::io::DiskstatsError;
use crate::memory::{MemoryContextError, MemoryContextObservation, VmstatIntervalIssues};
use crate::observe::{HuntObservation, IoHuntObservation, MemoryHuntObservation};
use crate::psi::CpuPsiError;
use crate::text::{
    append_str, chars_of, decimal, eq_chars, eq_lit, push_char, push_decimal, rsplit_once,
    rsplit_once_char, segments, seqs_of, split_segments,
};

verus! {

pub const RECORDING_KIND: &'static str = "bottleneck.recording";
pub const RECORDING_SCHEMA_VERSION: u32 = 1;
pub const MAX_RECORDING_BYTES: u64 = 33554432;

/// Whether identifiers in a recording were replaced.
#[derive(Debug, Clone, Copy, PartialEq, Eq, Structural)]
pub enum Redaction {
    /// Recorded as collected (serialized as "none").
    Unredacted,
    Identifiers,
}

/// A collected value or the error that prevented it.
#[derive(Debug, Clone, PartialEq, Eq)]
pub enum Collected<T, E> {
    Observed { value: T },
    Unavailable { error: E },
}

impl<T, E> Collected<T, E> {
    pub fn from_result(result: Result<T, E>) -> (c: Self)
        ensures
            c == match result {
                Ok(value) => Collected::<T, E>::Observed { value },
                Err(error) => Collected::<T, E>::Unavailable { error },
            },
    {
        match result {
            Ok(value) => Collected::Observed { value },
            Err(error) => Collected::Unavailable { error },
        }
    }
}

#[derive(Debug, Clone, PartialEq, Eq)]
pub struct RecordedMemoryContext {
    pub elapsed_us: u64,
    pub observation: MemoryContextObservation,
}

#[derive(Debug, Clone, PartialEq, Eq)]
pub struct RecordedDiskstats {
    pub elapsed_us: u64,
    pub observation: DiskstatsObservation,
}

#[derive(Debug, Clone, PartialEq, Eq)]
pub struct RecordedProcessIo {
    pub elapsed_us: u64,
    pub observation: ProcessIoObservation,
}

#[derive(Debug, Clone, Copy, PartialEq, Eq, Structural)]
pub struct RecordedCgroupPsi {
    pub elapsed_us: Option<u64>,
    pub some_total_usec: Option<u64>,
    pub full_total_usec: Option<u64>,
    pub state: CgroupPsiIntervalState,
}

#[derive(Debug, Clone, PartialEq, Eq)]
pub struct RecordedCgroupInterval {
    pub path: String,
    pub cpu: CgroupResource<CgroupCpuInterval>,
    pub memory_current_end: CgroupResource<u64>,
    pub memory_events: CgroupResource<CgroupMemoryEventsRaw>,
    pub memory_stat: CgroupResource<CgroupMemoryStatRaw>,
    pub io: CgroupResource<Vec<(CgroupIoDevice, CgroupIoRaw)>>,
    pub cpu_pressure: CgroupResource<RecordedCgroupPsi>,
    pub memory_pressure: CgroupResource<RecordedCgroupPsi>,
    pub io_pressure: CgroupResource<RecordedCgroupPsi>,
    pub systemd_unit_candidate: Option<String>,
}

#[derive(Debug, Clone, PartialEq, Eq)]
pub struct RecordedCgroup {
    pub elapsed_us: u64,
    pub groups: Vec<RecordedCgroupInterval>,
    pub members: Vec<CgroupProcessMember>,
    pub issues: CgroupCollectionIssues,
}

#[derive(Debug, Clone, PartialEq, Eq)]
pub struct RecordError {
    pub message: String,
}

impl RecordError {
    pub fn message(&self) -> (s: &str)
        ensures
            s@ == self.message@,
    {
        self.message.as_str()
    }
}

/// A memory-stat resource for recordings made before that file was read.
pub fn missing_cgroup_memory_stat() -> (r: CgroupResource<CgroupMemoryStatRaw>)
    ensures
        r.state == CgroupFileState::Missing,
        r.value is None,
{
    CgroupResource { state: CgroupFileState::Missing, value: None }
}

/// Nanoseconds as whole microseconds.
pub fn duration_us(elapsed_ns: u64) -> (us: u64)
    ensures
        us == elapsed_ns / 1000,
{
    elapsed_ns / 1000
}

/// Whole microseconds as nanoseconds, saturating at the largest value.
pub fn from_micros(us: u64) -> (ns: u64)
    ensures
        ns == if us * 1000 > u64::MAX {
            u64::MAX
        } else {
            (us * 1000) as u64
        },
{
    match us.checked_mul(1000) {
        Some(v) => v,
        None => u64::MAX,
    }
}

pub open spec fn recorded_psi(i: CgroupPsiInterval) -> RecordedCgroupPsi {
    RecordedCgroupPsi {
        elapsed_us: match i.elapsed_ns {
            Some(ns) => Some((ns / 1000) as u64),
            None => None,
        },
        some_total_usec: i.some_total_usec,
        full_total_usec: i.full_total_usec,
        state: i.state,
    }
}

pub open spec fn psi_of_recorded(r: RecordedCgroupPsi) -> CgroupPsiInterval {
    CgroupPsiInterval {
        elapsed_ns: match r.elapsed_us {
            Some(us) => Some(
                if us * 1000 > u64::MAX {
                    u64::MAX
                } else {
                    (us * 1000) as u64
                },
            ),
            None => None,
        },
        some_total_usec: r.some_total_usec,
        full_total_usec: r.full_total_usec,
        state: r.state,
    }
}

pub fn record_cgroup_psi(interval: &CgroupPsiInterval) -> (r: RecordedCgroupPsi)
    ensures
        r == recorded_psi(*interval),
{
    RecordedCgroupPsi {
        elapsed_us: match interval.elapsed_ns {
            Some(ns) => Some(duration_us(ns)),
            None => None,
        },
        some_total_usec: interval.some_total_usec,
        full_total_usec: interval.full_total_usec,
        state: interval.state,
    }
}

pub fn cgroup_psi_from_recorded(interval: &RecordedCgroupPsi) -> (r: CgroupPsiInterval)
    ensures
        r == psi_of_recorded(*interval),
{
    CgroupPsiInterval {
        elapsed_ns: match interval.elapsed_us {
            Some(us) => Some(from_micros(us)),
            None => None,
        },
        some_total_usec: interval.some_total_usec,
        full_total_usec: interval.full_total_usec,
        state: interval.state,
    }
}

pub open spec fn map_psi_resource<T, U>(r: CgroupResource<T>, f: spec_fn(T) -> U) -> CgroupResource<U> {
    CgroupResource {
        state: r.state,
        value: match r.value {
            Some(v) => Some(f(v)),
            None => None,
        },
    }
}

fn record_psi_resource(r: &CgroupResource<CgroupPsiInterval>) -> (out: CgroupResource<RecordedCgroupPsi>)
    ensures
        out == map_psi_resource(*r, |i: CgroupPsiInterval| recorded_psi(i)),
{
    CgroupResource {
        state: r.state,
        value: match &r.value {
            Some(v) => Some(record_cgroup_psi(v)),
            None => None,
        },
    }
}

fn psi_resource_from_recorded(r: &CgroupResource<RecordedCgroupPsi>) -> (out: CgroupResource<CgroupPsiInterval>)
    ensures
        out == map_psi_resource(*r, |i: RecordedCgroupPsi| psi_of_recorded(i)),
{
    CgroupResource {
        state: r.state,
        value: match &r.value {
            Some(v) => Some(cgroup_psi_from_recorded(v)),
            None => None,
        },
    }
}

pub(crate) fn copy_io(r: &CgroupResource<Vec<(CgroupIoDevice, CgroupIoRaw)>>) -> (out: CgroupResource<
    Vec<(CgroupIoDevice, CgroupIoRaw)>,
>)
    ensures
        out.state == r.state,
        match (out.value, r.value) {
            (Some(a), Some(b)) => a@ == b@,
            (None, None) => true,
            _ => false,
        },
{
    match &r.value {
        None => CgroupResource { state: r.state, value: None },
        Some(v) => {
            let mut out: Vec<(CgroupIoDevice, CgroupIoRaw)> = Vec::new();
            let mut i: usize = 0;
            while i < v.len()
                invariant
                    i <= v@.len(),
                    out@ == v@.take(i as int),
                decreases v.len() - i,
            {
                out.push(v[i]);
                assert(v@.take(i + 1) =~= v@.take(i as int).push(v@[i as int]));
                i += 1;
            }
            assert(v@.take(i as int) =~= v@);
            CgroupResource { state: r.state, value: Some(out) }
        },
    }
}

pub(crate) fn copy_unit(u: &Option<String>) -> (out: Option<String>)
    ensures
        out == *u,
{
    match u {
        Some(s) => Some(s.clone()),
        None => None,
    }
}

/// The recorded form of one cgroup interval: the same values, with pressure
/// windows kept in whole microseconds.
pub open spec fn recorded_interval_holds(r: RecordedCgroupInterval, g: CgroupInterval) -> bool {
    &&& r.path@ == g.path@
    &&& r.cpu == g.cpu
    &&& r.memory_current_end == g.memory_current_end
    &&& r.memory_events == g.memory_events
    &&& r.memory_stat == g.memory_stat
    &&& r.io.state == g.io.state
    &&& (match (r.io.value, g.io.value) {
        (Some(a), Some(b)) => a@ == b@,
        (None, None) => true,
        _ => false,
    })
    &&& r.cpu_pressure == map_psi_resource(g.cpu_pressure, |i: CgroupPsiInterval| recorded_psi(i))
    &&& r.memory_pressure == map_psi_resource(
        g.memory_pressure,
        |i: CgroupPsiInterval| recorded_psi(i),
    )
    &&& r.io_pressure == map_psi_resource(g.io_pressure, |i: CgroupPsiInterval| recorded_psi(i))
    &&& r.systemd_unit_candidate == g.systemd_unit_candidate
}

/// The live form of a recorded cgroup interval.
pub open spec fn replayed_interval_holds(g: CgroupInterval, r: RecordedCgroupInterval) -> bool {
    &&& g.path@ == r.path@
    &&& g.cpu == r.cpu
    &&& g.memory_current_end == r.memory_current_end
    &&& g.memory_events == r.memory_events
    &&& g.memory_stat == r.memory_stat
    &&& g.io.state == r.io.state
    &&& (match (g.io.value, r.io.value) {
        (Some(a), Some(b)) => a@ == b@,
        (None, None) => true,
        _ => false,
    })
    &&& g.cpu_pressure == map_psi_resource(r.cpu_pressure, |i: RecordedCgroupPsi| psi_of_recorded(i))
    &&& g.memory_pressure == map_psi_resource(
        r.memory_pressure,
        |i: RecordedCgroupPsi| psi_of_recorded(i),
    )
    &&& g.io_pressure == map_psi_resource(r.io_pressure, |i: RecordedCgroupPsi| psi_of_recorded(i))
    &&& g.systemd_unit_candidate == r.systemd_unit_candidate
}

pub fn record_cgroup_interval(group: &CgroupInterval) -> (r: RecordedCgroupInterval)
    ensures
        recorded_interval_holds(r, *group),
{
    RecordedCgroupInterval {
        path: group.path.clone(),
        cpu: group.cpu,
        memory_current_end: group.memory_current_end,
        memory_events: group.memory_events,
        memory_stat: group.memory_stat,
        io: copy_io(&group.io),
        cpu_pressure: record_psi_resource(&group.cpu_pressure),
        memory_pressure: record_psi_resource(&group.memory_pressure),
        io_pressure: record_psi_resource(&group.io_pressure),
        systemd_unit_candidate: copy_unit(&group.systemd_unit_candidate),
    }
}

pub fn cgroup_interval_from_recorded(group: &RecordedCgroupInterval) -> (g: CgroupInterval)
    ensures
        replayed_interval_holds(g, *group),
{
    CgroupInterval {
        path: group.path.clone(),
        cpu: group.cpu,
        memory_current_end: group.memory_current_end,
        memory_events: group.memory_events,
        memory_stat: group.memory_stat,
        io: copy_io(&group.io),
        cpu_pressure: psi_resource_from_recorded(&group.cpu_pressure),
        memory_pressure: psi_resource_from_recorded(&group.memory_pressure),
        io_pressure: psi_resource_from_recorded(&group.io_pressure),
        systemd_unit_candidate: copy_unit(&group.systemd_unit_candidate),
    }
}

fn copy_members(m: &Vec<CgroupProcessMember>) -> (out: Vec<CgroupProcessMember>)
    ensures
        out@ == m@,
{
    let mut out: Vec<CgroupProcessMember> = Vec::new();
    let mut i: usize = 0;
    while i < m.len()
        invariant
            i <= m@.len(),
            out@ == m@.take(i as int),
        decreases m.len() - i,
    {
        out.push(clone_member(&m[i]));
        assert(m@.take(i + 1) =~= m@.take(i as int).push(m@[i as int]));
        i += 1;
    }
    assert(m@.take(i as int) =~= m@);
    out
}

/// `r` records `cgroup`: elapsed time in whole microseconds, each group in
/// its recorded form, members and issues as they were; or the same error.
pub open spec fn cgroup_recorded(r: Collected<RecordedCgroup, CgroupError>, cgroup: Result<CgroupObservation, CgroupError>) -> bool {
        match (cgroup, r) {
            (Ok(o), Collected::Observed { value }) => {
                &&& value.elapsed_us == o.elapsed_ns / 1000
                &&& value.members@ == o.members@
                &&& value.issues == o.issues
                &&& value.groups@.len() == o.groups@.len()
                &&& forall|k: int|
                    0 <= k < o.groups@.len() ==> recorded_interval_holds(
                        #[trigger] value.groups@[k],
                        o.groups@[k],
                    )
            },
            (Err(e), Collected::Unavailable { error }) => error == e,
            _ => false,
        }
}

/// The recorded form of a cgroup observation or of the error that prevented
/// it.
pub fn record_cgroup(cgroup: &Result<CgroupObservation, CgroupError>) -> (r: Collected<
    RecordedCgroup,
    CgroupError,
>)
    ensures
        cgroup_recorded(r, *cgroup),
{
    match cgroup {
        Err(e) => Collected::Unavailable { error: *e },
        Ok(o) => {
            let mut groups: Vec<RecordedCgroupInterval> = Vec::new();
            let mut i: usize = 0;
            while i < o.groups.len()
                invariant
                    i <= o.groups@.len(),
                    groups@.len() == i,
                    forall|k: int|
                        0 <= k < i ==> recorded_interval_holds(
                            #[trigger] groups@[k],
                            o.groups@[k],
                        ),
                decreases o.groups.len() - i,
            {
                groups.push(record_cgroup_interval(&o.groups[i]));
                i += 1;
            }
            Collected::Observed {
                value: RecordedCgroup {
                    elapsed_us: duration_us(o.elapsed_ns),
                    groups,
                    members: copy_members(&o.members),
                    issues: o.issues,
                },
            }
        },
    }
}

/// `r` replays `cgroup`: elapsed time back in nanoseconds (saturating),
/// each group in its live form, members and issues as recorded; or the
/// recorded error.
pub open spec fn cgroup_replayed(r: Result<CgroupObservation, CgroupError>, cgroup: Collected<RecordedCgroup, CgroupError>) -> bool {
        match (cgroup, r) {
            (Collected::Observed { value }, Ok(o)) => {
                &&& o.elapsed_ns == (if value.elapsed_us * 1000 > u64::MAX {
                    u64::MAX
                } else {
                    (value.elapsed_us * 1000) as u64
                })
                &&& o.members@ == value.members@
                &&& o.issues == value.issues
                &&& o.groups@.len() == value.groups@.len()
                &&& forall|k: int|
                    0 <= k < value.groups@.len() ==> replayed_interval_holds(
                        #[trigger] o.groups@[k],
                        value.groups@[k],
                    )
            },
            (Collected::Unavailable { error }, Err(e)) => e == error,
            _ => false,
        }
}

/// The cgroup observation a recording replays, or its recorded error.
pub fn cgroup_from_recorded(cgroup: &Collected<RecordedCgroup, CgroupError>) -> (r: Result<
    CgroupObservation,
    CgroupError,
>)
    ensures
        cgroup_replayed(r, *cgroup),
{
    match cgroup {
        Collected::Unavailable { error } => Err(*error),
        Collected::Observed { value } => {
            let mut groups: Vec<CgroupInterval> = Vec::new();
            let mut i: usize = 0;
            while i < value.groups.len()
                invariant
                    i <= value.groups@.len(),
                    groups@.len() == i,
                    forall|k: int|
                        0 <= k < i ==> replayed_interval_holds(
                            #[trigger] groups@[k],
                            value.groups@[k],
                        ),
                decreases value.groups.len() - i,
            {
                groups.push(cgroup_interval_from_recorded(&value.groups[i]));
                i += 1;
            }
            Ok(
                CgroupObservation {
                    elapsed_ns: from_micros(value.elapsed_us),
                    groups,
                    members: copy_members(&value.members),
                    issues: value.issues,
                },
            )
        },
    }
}


// ---------------------------------------------------------------------------
// Memory, diskstats and process I/O observations
// ---------------------------------------------------------------------------

/// Whole microseconds back as nanoseconds, saturating.
pub open spec fn micros_as_ns(us: u64) -> u64 {
    if us * 1000 > u64::MAX {
        u64::MAX
    } else {
        (us * 1000) as u64
    }
}

fn copy_vec<T: Copy>(v: &Vec<T>) -> (out: Vec<T>)
    ensures
        out@ == v@,
{
    let mut out: Vec<T> = Vec::new();
    let mut i: usize = 0;
    while i < v.len()
        invariant
            i <= v@.len(),
            out@ == v@.take(i as int),
        decreases v.len() - i,
    {
        out.push(v[i]);
        assert(v@.take(i + 1) =~= v@.take(i as int).push(v@[i as int]));
        i += 1;
    }
    assert(v@.take(i as int) =~= v@);
    out
}

/// Two diskstats observations agree on everything but their elapsed time.
pub open spec fn same_diskstats(a: DiskstatsObservation, b: DiskstatsObservation) -> bool {
    &&& a.capability == b.capability
    &&& a.devices@ == b.devices@
    &&& a.issues.start_error == b.issues.start_error
    &&& a.issues.end_error == b.issues.end_error
    &&& a.issues.appeared@ == b.issues.appeared@
    &&& a.issues.exited@ == b.issues.exited@
    &&& a.issues.identity_changed@ == b.issues.identity_changed@
    &&& a.issues.regressed@ == b.issues.regressed@
    &&& a.issues.limit_reached == b.issues.limit_reached
}

/// Two process I/O observations agree on everything but their elapsed time.
pub open spec fn same_process_io(a: ProcessIoObservation, b: ProcessIoObservation) -> bool {
    &&& a.capability == b.capability
    &&& a.processes@ == b.processes@
    &&& a.issues == b.issues
    &&& a.regressed@ == b.regressed@
}

/// Two memory-context observations agree on everything but their elapsed
/// time.
pub open spec fn same_memory_context(a: MemoryContextObservation, b: MemoryContextObservation) -> bool {
    &&& a.end_meminfo == b.end_meminfo
    &&& a.meminfo_capability == b.meminfo_capability
    &&& a.vmstat_capability == b.vmstat_capability
    &&& a.vmstat_deltas@ == b.vmstat_deltas@
    &&& a.vmstat_issues.missing@ == b.vmstat_issues.missing@
    &&& a.vmstat_issues.regressed@ == b.vmstat_issues.regressed@
}

fn copy_diskstats(o: &DiskstatsObservation, elapsed_ns: u64) -> (r: DiskstatsObservation)
    ensures
        r.elapsed_ns == elapsed_ns,
        same_diskstats(r, *o),
{
    let mut devices: Vec<DiskstatsInterval> = Vec::new();
    let mut i: usize = 0;
    while i < o.devices.len()
        invariant
            i <= o.devices@.len(),
            devices@ == o.devices@.take(i as int),
        decreases o.devices.len() - i,
    {
        let d = &o.devices[i];
        devices.push(
            DiskstatsInterval {
                key: d.key,
                name: d.name.clone(),
                reads_completed: d.reads_completed,
                sectors_read_512: d.sectors_read_512,
                writes_completed: d.writes_completed,
                sectors_written_512: d.sectors_written_512,
                io_ticks_ms: d.io_ticks_ms,
                weighted_io_ticks_ms: d.weighted_io_ticks_ms,
                end_in_flight: d.end_in_flight,
            },
        );
        assert(o.devices@.take(i + 1) =~= o.devices@.take(i as int).push(o.devices@[i as int]));
        i += 1;
    }
    assert(o.devices@.take(i as int) =~= o.devices@);
    DiskstatsObservation {
        elapsed_ns,
        capability: o.capability,
        devices,
        issues: DiskstatsIntervalIssues {
            start_error: o.issues.start_error,
            end_error: o.issues.end_error,
            appeared: copy_vec(&o.issues.appeared),
            exited: copy_vec(&o.issues.exited),
            identity_changed: copy_vec(&o.issues.identity_changed),
            regressed: copy_vec(&o.issues.regressed),
            limit_reached: o.issues.limit_reached,
        },
    }
}

fn copy_process_io(o: &ProcessIoObservation, elapsed_ns: u64) -> (r: ProcessIoObservation)
    ensures
        r.elapsed_ns == elapsed_ns,
        same_process_io(r, *o),
{
    let mut processes: Vec<ProcessIoInterval> = Vec::new();
    let mut i: usize = 0;
    while i < o.processes.len()
        invariant
            i <= o.processes@.len(),
            processes@ == o.processes@.take(i as int),
        decreases o.processes.len() - i,
    {
        let p = &o.processes[i];
        processes.push(
            ProcessIoInterval {
                key: p.key,
                name: p.name.clone(),
                read_bytes: p.read_bytes,
                write_bytes: p.write_bytes,
                cancelled_write_bytes: p.cancelled_write_bytes,
                rchar: p.rchar,
                wchar: p.wchar,
            },
        );
        assert(o.processes@.take(i + 1) =~= o.processes@.take(i as int).push(o.processes@[i as int]));
        i += 1;
    }
    assert(o.processes@.take(i as int) =~= o.processes@);
    ProcessIoObservation {
        elapsed_ns,
        capability: o.capability,
        processes,
        issues: o.issues,
        regressed: copy_vec(&o.regressed),
    }
}

fn copy_memory_context(o: &MemoryContextObservation, elapsed_ns: u64) -> (r: MemoryContextObservation)
    ensures
        r.elapsed_ns == elapsed_ns,
        same_memory_context(r, *o),
{
    MemoryContextObservation {
        elapsed_ns,
        end_meminfo: o.end_meminfo,
        meminfo_capability: o.meminfo_capability,
        vmstat_capability: o.vmstat_capability,
        vmstat_deltas: copy_vec(&o.vmstat_deltas),
        vmstat_issues: VmstatIntervalIssues {
            missing: copy_vec(&o.vmstat_issues.missing),
            regressed: copy_vec(&o.vmstat_issues.regressed),
        },
    }
}

/// The recorded form of a diskstats observation: its elapsed time in whole
/// microseconds beside the observation itself.
pub fn record_diskstats(o: &DiskstatsObservation) -> (r: RecordedDiskstats)
    ensures
        r.elapsed_us == o.elapsed_ns / 1000,
        r.observation.elapsed_ns == o.elapsed_ns,
        same_diskstats(r.observation, *o),
{
    RecordedDiskstats { elapsed_us: duration_us(o.elapsed_ns), observation: copy_diskstats(o, o.elapsed_ns) }
}

/// The diskstats observation a recording replays, timed by the recorded
/// microseconds.
pub fn diskstats_from_recorded(r: &RecordedDiskstats) -> (o: DiskstatsObservation)
    ensures
        o.elapsed_ns == micros_as_ns(r.elapsed_us),
        same_diskstats(o, r.observation),
{
    copy_diskstats(&r.observation, from_micros(r.elapsed_us))
}

/// The recorded form of a process I/O observation.
pub fn record_process_io(o: &ProcessIoObservation) -> (r: RecordedProcessIo)
    ensures
        r.elapsed_us == o.elapsed_ns / 1000,
        r.observation.elapsed_ns == o.elapsed_ns,
        same_process_io(r.observation, *o),
{
    RecordedProcessIo { elapsed_us: duration_us(o.elapsed_ns), observation: copy_process_io(o, o.elapsed_ns) }
}

/// The process I/O observation a recording replays.
pub fn process_io_from_recorded(r: &RecordedProcessIo) -> (o: ProcessIoObservation)
    ensures
        o.elapsed_ns == micros_as_ns(r.elapsed_us),
        same_process_io(o, r.observation),
{
    copy_process_io(&r.observation, from_micros(r.elapsed_us))
}

/// The recorded form of a memory-context observation.
pub fn record_memory_context(o: &MemoryContextObservation) -> (r: RecordedMemoryContext)
    ensures
        r.elapsed_us == o.elapsed_ns / 1000,
        r.observation.elapsed_ns == o.elapsed_ns,
        same_memory_context(r.observation, *o),
{
    RecordedMemoryContext {
        elapsed_us: duration_us(o.elapsed_ns),
        observation: copy_memory_context(o, o.elapsed_ns),
    }
}

/// The memory-context observation a recording replays.
pub fn memory_context_from_recorded(r: &RecordedMemoryContext) -> (o: MemoryContextObservation)
    ensures
        o.elapsed_ns == micros_as_ns(r.elapsed_us),
        same_memory_context(o, r.observation),
{
    copy_memory_context(&r.observation, from_micros(r.elapsed_us))
}

// ---------------------------------------------------------------------------
// Identifier redaction
// ---------------------------------------------------------------------------

/// `pid-<pid>`.
pub fn process_placeholder(pid: u32) -> (s: String)
    ensures
        s@ == "pid-"@ + decimal(pid as nat),
{
    let mut s = String::new();
    append_str(&mut s, "pid-");
    push_decimal(&mut s, pid as u64);
    s
}

/// `dev-<major>-<minor>`.
pub fn device_placeholder(major: u32, minor: u32) -> (s: String)
    ensures
        s@ == "dev-"@ + decimal(major as nat) + "-"@ + decimal(minor as nat),
{
    let mut s = String::new();
    append_str(&mut s, "dev-");
    push_decimal(&mut s, major as u64);
    append_str(&mut s, "-");
    push_decimal(&mut s, minor as u64);
    s
}

/// A systemd unit candidate keeps only its unit type.
pub open spec fn redacted_unit_spec(candidate: Seq<char>) -> Option<Seq<char>> {
    match rsplit_once(candidate, '.') {
        Some((_, suffix)) => if suffix == "service"@ || suffix == "scope"@ || suffix == "slice"@ {
            Some("redacted."@ + suffix)
        } else {
            None
        },
        None => None,
    }
}

pub fn redacted_unit(candidate: &str) -> (out: Option<String>)
    ensures
        match out {
            Some(s) => redacted_unit_spec(candidate@) == Some(s@),
            None => redacted_unit_spec(candidate@) is None,
        },
{
    let chars = chars_of(candidate);
    match rsplit_once_char(&chars, '.') {
        Some((_, suffix)) => {
            if eq_lit(&suffix, "service") || eq_lit(&suffix, "scope") || eq_lit(&suffix, "slice") {
                let mut s = String::new();
                append_str(&mut s, "redacted.");
                let mut i: usize = 0;
                while i < suffix.len()
                    invariant
                        i <= suffix@.len(),
                        s@ == "redacted."@ + suffix@.take(i as int),
                    decreases suffix.len() - i,
                {
                    push_char(&mut s, suffix[i]);
                    assert(suffix@.take(i + 1) =~= suffix@.take(i as int).push(suffix@[i as int]));
                    i += 1;
                }
                assert(suffix@.take(i as int) =~= suffix@);
                Some(s)
            } else {
                None
            }
        },
        None => None,
    }
}

/// The position of the first `x` in `s` (its length when absent).
pub open spec fn first_index(s: Seq<Seq<char>>, x: Seq<char>) -> int
    decreases s.len(),
{
    if s.len() == 0 {
        0
    } else if s[0] == x {
        0
    } else {
        1 + first_index(s.drop_first(), x)
    }
}

proof fn lemma_first_index(s: Seq<Seq<char>>, x: Seq<char>, i: int)
    requires
        0 <= i < s.len(),
        s[i] == x,
        forall|j: int| 0 <= j < i ==> s[j] != x,
    ensures
        first_index(s, x) == i,
    decreases i,
{
    if i > 0 {
        let t = s.drop_first();
        assert forall|j: int| 0 <= j < i - 1 implies t[j] != x by {
            assert(t[j] == s[j + 1]);
        }
        lemma_first_index(t, x, i - 1);
    }
}

/// Path components seen so far, in first-seen order, and the redacted path
/// built from the given components: each becomes `/c<n>` where `n` is the
/// position at which the component was first seen.
pub open spec fn redact_components(known: Seq<Seq<char>>, parts: Seq<Seq<char>>) -> (
    Seq<Seq<char>>,
    Seq<char>,
)
    decreases parts.len(),
{
    if parts.len() == 0 {
        (known, Seq::empty())
    } else {
        let (k, out) = redact_components(known, parts.drop_last());
        let part = parts.last();
        let k2 = if k.contains(part) {
            k
        } else {
            k.push(part)
        };
        (k2, out + "/c"@ + decimal(first_index(k2, part) as nat))
    }
}

/// Replaces cgroup path components with stable tokens: the same component
/// gets the same token wherever it occurs in one recording.
#[derive(Debug)]
pub struct PathRedactor {
    pub components: Vec<Vec<char>>,
}

impl PathRedactor {
    pub fn new() -> (r: Self)
        ensures
            r.components@.len() == 0,
    {
        PathRedactor { components: Vec::new() }
    }

    pub fn path(&mut self, path: &str) -> (s: String)
        ensures
            path@ == "/"@ ==> s@ == "/"@ && final(self).components@ == old(self).components@,
            path@ != "/"@ ==> {
                let (k, out) = redact_components(
                    seqs_of(old(self).components@),
                    segments(path@, '/'),
                );
                &&& seqs_of(final(self).components@) == k
                &&& s@ == if out.len() == 0 {
                    "/"@
                } else {
                    out
                }
            },
    {
        let chars = chars_of(path);
        if eq_lit(&chars, "/") {
            let mut root = String::new();
            append_str(&mut root, "/");
            return root;
        }
        let parts = split_segments(&chars, '/');
        let ghost ps = seqs_of(parts@);
        let ghost known0 = seqs_of(self.components@);
        let mut out = String::new();
        let mut i: usize = 0;
        while i < parts.len()
            invariant
                i <= parts@.len(),
                ps == seqs_of(parts@),
                known0 == seqs_of(old(self).components@),
                redact_components(known0, ps.take(i as int)) == (seqs_of(self.components@), out@),
                i > 0 ==> out@.len() > 0,
                i == 0 ==> out@.len() == 0,
            decreases parts.len() - i,
        {
            assert(ps.take(i + 1).drop_last() =~= ps.take(i as int));
            assert(ps.take(i + 1).last() == parts@[i as int]@);
            let part = &parts[i];
            let ghost k = seqs_of(self.components@);
            let mut j: usize = 0;
            while j < self.components.len() && !eq_chars(&self.components[j], part)
                invariant
                    j <= self.components@.len(),
                    k == seqs_of(self.components@),
                    forall|m: int| 0 <= m < j ==> k[m] != part@,
                decreases self.components.len() - j,
            {
                j += 1;
            }
            if j == self.components.len() {
                assert(!k.contains(part@)) by {
                    if k.contains(part@) {
                        let m = choose|m: int| 0 <= m < k.len() && k[m] == part@;
                        assert(k[m] != part@);
                    }
                }
                let copy = crate::text::slice_to_vec(part, 0, part.len());
                assert(copy@ =~= part@);
                self.components.push(copy);
                assert(seqs_of(self.components@) =~= k.push(part@));
                proof {
                    lemma_first_index(k.push(part@), part@, j as int);
                }
            } else {
                assert(k[j as int] == part@);
                proof {
                    lemma_first_index(k, part@, j as int);
                }
            }
            append_str(&mut out, "/c");
            push_decimal(&mut out, j as u64);
            i += 1;
        }
        assert(ps.take(i as int) =~= ps);
        assert(ps == segments(path@, '/'));
        if parts.len() == 0 {
            let mut root = String::new();
            append_str(&mut root, "/");
            return root;
        }
        out
    }
}


/// A path as the redactor rewrites it, and the components known afterwards.
pub open spec fn redact_path(known: Seq<Seq<char>>, path: Seq<char>) -> (Seq<Seq<char>>, Seq<char>) {
    if path == "/"@ {
        (known, "/"@)
    } else {
        let (k, out) = redact_components(known, segments(path, '/'));
        (
            k,
            if out.len() == 0 {
                "/"@
            } else {
                out
            },
        )
    }
}

/// Paths rewritten in turn, each with the components the earlier ones left.
pub open spec fn redact_paths(known: Seq<Seq<char>>, paths: Seq<Seq<char>>) -> (Seq<Seq<char>>, Seq<Seq<char>>)
    decreases paths.len(),
{
    if paths.len() == 0 {
        (known, Seq::empty())
    } else {
        let (k, outs) = redact_paths(known, paths.drop_last());
        let (k2, out) = redact_path(k, paths.last());
        (k2, outs.push(out))
    }
}

proof fn lemma_redact_paths_len(known: Seq<Seq<char>>, paths: Seq<Seq<char>>)
    ensures
        redact_paths(known, paths).1.len() == paths.len(),
    decreases paths.len(),
{
    if paths.len() > 0 {
        lemma_redact_paths_len(known, paths.drop_last());
    }
}

pub open spec fn group_paths(groups: Seq<RecordedCgroupInterval>) -> Seq<Seq<char>> {
    groups.map_values(|g: RecordedCgroupInterval| g.path@)
}

pub open spec fn member_paths(members: Seq<CgroupProcessMember>) -> Seq<Seq<char>> {
    members.map_values(|m: CgroupProcessMember| m.cgroup_path@)
}

/// `a` is `b` with each device name replaced by `dev-<major>-<minor>`.
pub open spec fn disk_names_redacted(a: DiskstatsObservation, b: DiskstatsObservation) -> bool {
        &&& a.elapsed_ns == b.elapsed_ns
        &&& a.capability == b.capability
        &&& a.issues == b.issues
        &&& a.devices@.len() == b.devices@.len()
        &&& forall|i: int|
            0 <= i < a.devices@.len() ==> {
                let (a, b) = (#[trigger] a.devices@[i], b.devices@[i]);
                &&& a.name@ == "dev-"@ + decimal(b.key.major as nat) + "-"@ + decimal(
                    b.key.minor as nat,
                )
                &&& a.key == b.key && a.reads_completed == b.reads_completed
                &&& a.sectors_read_512 == b.sectors_read_512
                &&& a.writes_completed == b.writes_completed
                &&& a.sectors_written_512 == b.sectors_written_512
                &&& a.io_ticks_ms == b.io_ticks_ms
                &&& a.weighted_io_ticks_ms == b.weighted_io_ticks_ms
                &&& a.end_in_flight == b.end_in_flight
            }
}

/// Device names become `dev-<major>-<minor>`; nothing else changes.
pub fn redact_diskstats_names(observation: &mut DiskstatsObservation)
    ensures
        disk_names_redacted(*final(observation), *old(observation)),
{
    let ghost before = observation.devices@;
    let mut i: usize = 0;
    while i < observation.devices.len()
        invariant
            i <= observation.devices@.len(),
            observation.devices@.len() == before.len(),
            observation.elapsed_ns == old(observation).elapsed_ns,
            observation.capability == old(observation).capability,
            observation.issues == old(observation).issues,
            before == old(observation).devices@,
            forall|j: int|
                i <= j < before.len() ==> #[trigger] observation.devices@[j] == before[j],
            forall|j: int|
                0 <= j < i ==> {
                    let (a, b) = (#[trigger] observation.devices@[j], before[j]);
                    &&& a.name@ == "dev-"@ + decimal(b.key.major as nat) + "-"@ + decimal(
                        b.key.minor as nat,
                    )
                    &&& a.key == b.key && a.reads_completed == b.reads_completed
                    &&& a.sectors_read_512 == b.sectors_read_512
                    &&& a.writes_completed == b.writes_completed
                    &&& a.sectors_written_512 == b.sectors_written_512
                    &&& a.io_ticks_ms == b.io_ticks_ms
                    &&& a.weighted_io_ticks_ms == b.weighted_io_ticks_ms
                    &&& a.end_in_flight == b.end_in_flight
                },
        decreases before.len() - i,
    {
        let d = &observation.devices[i];
        let renamed = crate::io::DiskstatsInterval {
            key: d.key,
            name: device_placeholder(d.key.major, d.key.minor),
            reads_completed: d.reads_completed,
            sectors_read_512: d.sectors_read_512,
            writes_completed: d.writes_completed,
            sectors_written_512: d.sectors_written_512,
            io_ticks_ms: d.io_ticks_ms,
            weighted_io_ticks_ms: d.weighted_io_ticks_ms,
            end_in_flight: d.end_in_flight,
        };
        observation.devices.set(i, renamed);
        i += 1;
    }
}

/// `a` is `b` with each process name replaced by `pid-<pid>`.
pub open spec fn process_names_redacted(a: ProcessIoObservation, b: ProcessIoObservation) -> bool {
        &&& a.elapsed_ns == b.elapsed_ns
        &&& a.capability == b.capability
        &&& a.issues == b.issues
        &&& a.regressed == b.regressed
        &&& a.processes@.len() == b.processes@.len()
        &&& forall|i: int|
            0 <= i < a.processes@.len() ==> {
                let (a, b) = (#[trigger] a.processes@[i], b.processes@[i]);
                &&& a.name@ == "pid-"@ + decimal(b.key.pid as nat)
                &&& a.key == b.key && a.read_bytes == b.read_bytes && a.write_bytes == b.write_bytes
                &&& a.cancelled_write_bytes == b.cancelled_write_bytes
                &&& a.rchar == b.rchar && a.wchar == b.wchar
            }
}

/// Process names become `pid-<pid>`; nothing else changes.
pub fn redact_process_io_names(observation: &mut ProcessIoObservation)
    ensures
        process_names_redacted(*final(observation), *old(observation)),
{
    let ghost before = observation.processes@;
    let mut i: usize = 0;
    while i < observation.processes.len()
        invariant
            i <= observation.processes@.len(),
            observation.processes@.len() == before.len(),
            observation.elapsed_ns == old(observation).elapsed_ns,
            observation.capability == old(observation).capability,
            observation.issues == old(observation).issues,
            observation.regressed == old(observation).regressed,
            before == old(observation).processes@,
            forall|j: int|
                i <= j < before.len() ==> #[trigger] observation.processes@[j] == before[j],
            forall|j: int|
                0 <= j < i ==> {
                    let (a, b) = (#[trigger] observation.processes@[j], before[j]);
                    &&& a.name@ == "pid-"@ + decimal(b.key.pid as nat)
                    &&& a.key == b.key && a.read_bytes == b.read_bytes && a.write_bytes
                        == b.write_bytes
                    &&& a.cancelled_write_bytes == b.cancelled_write_bytes
                    &&& a.rchar == b.rchar && a.wchar == b.wchar
                },
        decreases before.len() - i,
    {
        let p = &observation.processes[i];
        let renamed = crate::io::ProcessIoInterval {
            key: p.key,
            name: process_placeholder(p.key.pid),
            read_bytes: p.read_bytes,
            write_bytes: p.write_bytes,
            cancelled_write_bytes: p.cancelled_write_bytes,
            rchar: p.rchar,
            wchar: p.wchar,
        };
        observation.processes.set(i, renamed);
        i += 1;
    }
}

/// A recorded cgroup group with its path rewritten and its unit candidate
/// reduced to the unit type; everything else is kept.
pub open spec fn group_redacted(a: RecordedCgroupInterval, b: RecordedCgroupInterval, path: Seq<char>) -> bool {
    &&& a.path@ == path
    &&& match a.systemd_unit_candidate {
        Some(u) => b.systemd_unit_candidate matches Some(v) && redacted_unit_spec(v@) == Some(u@),
        None => b.systemd_unit_candidate matches Some(v) ==> redacted_unit_spec(v@) is None,
    }
    &&& a.cpu == b.cpu && a.memory_current_end == b.memory_current_end
    &&& a.memory_events == b.memory_events && a.memory_stat == b.memory_stat
    &&& a.io.state == b.io.state && match (a.io.value, b.io.value) {
        (Some(x), Some(y)) => x@ == y@,
        (None, None) => true,
        _ => false,
    }
    &&& a.cpu_pressure == b.cpu_pressure && a.memory_pressure == b.memory_pressure
    &&& a.io_pressure == b.io_pressure
}

/// `a` is `b` with its cgroup identifiers replaced, starting from the
/// components in `known`: group paths, then member paths, rewritten in turn
/// by one redactor; unit candidates reduced to their type; member names
/// become `pid-<pid>`.
pub open spec fn cgroup_redaction_holds(a: RecordedCgroup, b: RecordedCgroup, known: Seq<Seq<char>>) -> bool {
    let (k, gs) = redact_paths(known, group_paths(b.groups@));
    let (k2, ms) = redact_paths(k, member_paths(b.members@));
    &&& a.elapsed_us == b.elapsed_us
    &&& a.issues == b.issues
    &&& a.groups@.len() == b.groups@.len()
    &&& a.members@.len() == b.members@.len()
    &&& forall|i: int| 0 <= i < a.groups@.len() ==> group_redacted(#[trigger] a.groups@[i], b.groups@[i], gs[i])
    &&& forall|i: int|
        0 <= i < a.members@.len() ==> {
            let (x, y) = (#[trigger] a.members@[i], b.members@[i]);
            &&& x.key == y.key
            &&& x.name@ == "pid-"@ + decimal(y.key.pid as nat)
            &&& x.cgroup_path@ == ms[i]
        }
}

/// Cgroup identifiers of a recording are replaced: group paths, then member
/// paths, are rewritten in that order by one redactor, so a component keeps
/// its token throughout; unit candidates keep only their type and member
/// names become `pid-<pid>`.
pub fn redact_recorded_cgroup(cgroup: &mut RecordedCgroup, paths: &mut PathRedactor)
    ensures
        cgroup_redaction_holds(*final(cgroup), *old(cgroup), seqs_of(old(paths).components@)),
        seqs_of(final(paths).components@) == redact_paths(
            redact_paths(seqs_of(old(paths).components@), group_paths(old(cgroup).groups@)).0,
            member_paths(old(cgroup).members@),
        ).0,
{
    let ghost groups0 = cgroup.groups@;
    let ghost members0 = cgroup.members@;
    let ghost known0 = seqs_of(paths.components@);
    let mut i: usize = 0;
    while i < cgroup.groups.len()
        invariant
            i <= groups0.len(),
            cgroup.groups@.len() == groups0.len(),
            cgroup.members@ == members0,
            cgroup.elapsed_us == old(cgroup).elapsed_us,
            cgroup.issues == old(cgroup).issues,
            groups0 == old(cgroup).groups@,
            members0 == old(cgroup).members@,
            known0 == seqs_of(old(paths).components@),
            seqs_of(paths.components@) == redact_paths(known0, group_paths(groups0).take(i as int)).0,
            forall|j: int| i <= j < groups0.len() ==> #[trigger] cgroup.groups@[j] == groups0[j],
            forall|j: int|
                0 <= j < i ==> group_redacted(
                    #[trigger] cgroup.groups@[j],
                    groups0[j],
                    redact_paths(known0, group_paths(groups0).take(i as int)).1[j],
                ),
        decreases groups0.len() - i,
    {
        let ghost gp = group_paths(groups0);
        let ghost prev = redact_paths(known0, gp.take(i as int));
        assert(gp.take(i + 1).drop_last() =~= gp.take(i as int));
        assert(gp.take(i + 1).last() == groups0[i as int].path@);
        let g = &cgroup.groups[i];
        let path = paths.path(g.path.as_str());
        let unit = match &g.systemd_unit_candidate {
            Some(u) => redacted_unit(u.as_str()),
            None => None,
        };
        let renamed = RecordedCgroupInterval {
            path,
            cpu: g.cpu,
            memory_current_end: g.memory_current_end,
            memory_events: g.memory_events,
            memory_stat: g.memory_stat,
            io: copy_io(&g.io),
            cpu_pressure: g.cpu_pressure,
            memory_pressure: g.memory_pressure,
            io_pressure: g.io_pressure,
            systemd_unit_candidate: unit,
        };
        cgroup.groups.set(i, renamed);
        proof {
            lemma_redact_paths_len(known0, gp.take(i as int));
            let next = redact_paths(known0, gp.take(i + 1));
            assert(next.1 == prev.1.push(redact_path(prev.0, groups0[i as int].path@).1));
            assert forall|j: int| 0 <= j < i + 1 implies group_redacted(
                #[trigger] cgroup.groups@[j],
                groups0[j],
                next.1[j],
            ) by {
                if j < i {
                    assert(next.1[j] == prev.1[j]);
                }
            }
        }
        i += 1;
    }
    assert(group_paths(groups0).take(groups0.len() as int) =~= group_paths(groups0));
    let ghost known1 = seqs_of(paths.components@);
    let ghost final_groups = cgroup.groups@;
    let mut m: usize = 0;
    while m < cgroup.members.len()
        invariant
            m <= members0.len(),
            cgroup.members@.len() == members0.len(),
            cgroup.groups@ == final_groups,
            cgroup.elapsed_us == old(cgroup).elapsed_us,
            cgroup.issues == old(cgroup).issues,
            members0 == old(cgroup).members@,
            seqs_of(paths.components@) == redact_paths(known1, member_paths(members0).take(m as int)).0,
            forall|j: int| m <= j < members0.len() ==> #[trigger] cgroup.members@[j] == members0[j],
            forall|j: int|
                0 <= j < m ==> {
                    let (a, b) = (#[trigger] cgroup.members@[j], members0[j]);
                    &&& a.key == b.key
                    &&& a.name@ == "pid-"@ + decimal(b.key.pid as nat)
                    &&& a.cgroup_path@ == redact_paths(known1, member_paths(members0).take(m as int)).1[j]
                },
        decreases members0.len() - m,
    {
        let ghost mp = member_paths(members0);
        let ghost prev = redact_paths(known1, mp.take(m as int));
        assert(mp.take(m + 1).drop_last() =~= mp.take(m as int));
        assert(mp.take(m + 1).last() == members0[m as int].cgroup_path@);
        let member = &cgroup.members[m];
        let renamed = CgroupProcessMember {
            key: member.key,
            name: process_placeholder(member.key.pid),
            cgroup_path: paths.path(member.cgroup_path.as_str()),
        };
        cgroup.members.set(m, renamed);
        proof {
            lemma_redact_paths_len(known1, mp.take(m as int));
            let next = redact_paths(known1, mp.take(m + 1));
            assert(next.1 == prev.1.push(redact_path(prev.0, members0[m as int].cgroup_path@).1));
            assert forall|j: int| 0 <= j < m + 1 implies ({
                let (a, b) = (#[trigger] cgroup.members@[j], members0[j]);
                &&& a.key == b.key
                &&& a.name@ == "pid-"@ + decimal(b.key.pid as nat)
                &&& a.cgroup_path@ == next.1[j]
            }) by {
                if j < m {
                    assert(next.1[j] == prev.1[j]);
                }
            }
        }
        m += 1;
    }
    assert(member_paths(members0).take(members0.len() as int) =~= member_paths(members0));
}

// ---------------------------------------------------------------------------
// Whole recordings
// ---------------------------------------------------------------------------

/// The recorded memory part of a hunt.
#[derive(Debug, Clone, PartialEq, Eq)]
pub struct RecordedMemoryHunt {
    pub psi: Option<StallEvidence>,
    pub context: Collected<RecordedMemoryContext, MemoryContextError>,
}

/// The recorded I/O part of a hunt.
#[derive(Debug, Clone, PartialEq, Eq)]
pub struct RecordedIoHunt {
    pub psi: Option<StallEvidence>,
    pub diskstats: Collected<RecordedDiskstats, DiskstatsError>,
    pub processes: Collected<RecordedProcessIo, DiskstatsError>,
}

/// The recorded observations of one hunt; the CPU pressure observation is
/// kept as the caller's `C`.
#[derive(Debug, Clone, PartialEq)]
pub struct RecordedHunt<C> {
    pub cpu_psi: Collected<C, CpuPsiError>,
    pub memory: RecordedMemoryHunt,
    pub io: RecordedIoHunt,
    pub cgroup: Collected<RecordedCgroup, CgroupError>,
}

/// A versioned recording: its header and the recorded observations.
#[derive(Debug, Clone, PartialEq)]
pub struct Recording<C> {
    pub kind: String,
    pub schema_version: u32,
    pub tool_version: String,
    pub recorded_at_unix_ms: Option<u64>,
    pub redaction: Redaction,
    pub requested_duration_ms: u64,
    pub observation: RecordedHunt<C>,
}

pub open spec fn collected_of<T, E>(r: Result<T, E>) -> Collected<T, E> {
    match r {
        Ok(value) => Collected::Observed { value },
        Err(error) => Collected::Unavailable { error },
    }
}

pub open spec fn result_of<T, E>(c: Collected<T, E>) -> Result<T, E> {
    match c {
        Collected::Observed { value } => Ok(value),
        Collected::Unavailable { error } => Err(error),
    }
}

/// `r` records `o`: its elapsed time in whole microseconds beside the same
/// observation; or the same error.
pub open spec fn memory_context_recorded(
    r: Collected<RecordedMemoryContext, MemoryContextError>,
    o: Result<MemoryContextObservation, MemoryContextError>,
) -> bool {
    match (o, r) {
        (Ok(m), Collected::Observed { value }) => value.elapsed_us == m.elapsed_ns / 1000
            && value.observation.elapsed_ns == m.elapsed_ns && same_memory_context(value.observation, m),
        (Err(e), Collected::Unavailable { error }) => error == e,
        _ => false,
    }
}

pub open spec fn diskstats_recorded(
    r: Collected<RecordedDiskstats, DiskstatsError>,
    o: Result<DiskstatsObservation, DiskstatsError>,
) -> bool {
    match (o, r) {
        (Ok(m), Collected::Observed { value }) => value.elapsed_us == m.elapsed_ns / 1000
            && value.observation.elapsed_ns == m.elapsed_ns && same_diskstats(value.observation, m),
        (Err(e), Collected::Unavailable { error }) => error == e,
        _ => false,
    }
}

pub open spec fn process_io_recorded(
    r: Collected<RecordedProcessIo, DiskstatsError>,
    o: Result<ProcessIoObservation, DiskstatsError>,
) -> bool {
    match (o, r) {
        (Ok(m), Collected::Observed { value }) => value.elapsed_us == m.elapsed_ns / 1000
            && value.observation.elapsed_ns == m.elapsed_ns && same_process_io(value.observation, m),
        (Err(e), Collected::Unavailable { error }) => error == e,
        _ => false,
    }
}

/// `o` replays `r`: the recorded observation timed by the recorded
/// microseconds; or the recorded error.
pub open spec fn memory_context_replayed(
    o: Result<MemoryContextObservation, MemoryContextError>,
    r: Collected<RecordedMemoryContext, MemoryContextError>,
) -> bool {
    match (r, o) {
        (Collected::Observed { value }, Ok(m)) => m.elapsed_ns == micros_as_ns(value.elapsed_us)
            && same_memory_context(m, value.observation),
        (Collected::Unavailable { error }, Err(e)) => e == error,
        _ => false,
    }
}

pub open spec fn diskstats_replayed(
    o: Result<DiskstatsObservation, DiskstatsError>,
    r: Collected<RecordedDiskstats, DiskstatsError>,
) -> bool {
    match (r, o) {
        (Collected::Observed { value }, Ok(m)) => m.elapsed_ns == micros_as_ns(value.elapsed_us)
            && same_diskstats(m, value.observation),
        (Collected::Unavailable { error }, Err(e)) => e == error,
        _ => false,
    }
}

pub open spec fn process_io_replayed(
    o: Result<ProcessIoObservation, DiskstatsError>,
    r: Collected<RecordedProcessIo, DiskstatsError>,
) -> bool {
    match (r, o) {
        (Collected::Observed { value }, Ok(m)) => m.elapsed_ns == micros_as_ns(value.elapsed_us)
            && same_process_io(m, value.observation),
        (Collected::Unavailable { error }, Err(e)) => e == error,
        _ => false,
    }
}

/// `r` records every part of the hunt `o`.
pub open spec fn hunt_recorded<C>(r: RecordedHunt<C>, o: HuntObservation<C>) -> bool {
    &&& r.cpu_psi == collected_of(o.psi)
    &&& r.memory.psi == o.memory.psi
    &&& memory_context_recorded(r.memory.context, o.memory.context)
    &&& r.io.psi == o.io.psi
    &&& diskstats_recorded(r.io.diskstats, o.io.diskstats)
    &&& process_io_recorded(r.io.processes, o.io.processes)
    &&& cgroup_recorded(r.cgroup, o.cgroup)
}

/// `o` replays every part of the recorded hunt `r`.
pub open spec fn hunt_replayed<C>(o: HuntObservation<C>, r: RecordedHunt<C>) -> bool {
    &&& o.psi == result_of(r.cpu_psi)
    &&& o.memory.psi == r.memory.psi
    &&& memory_context_replayed(o.memory.context, r.memory.context)
    &&& o.io.psi == r.io.psi
    &&& diskstats_replayed(o.io.diskstats, r.io.diskstats)
    &&& process_io_replayed(o.io.processes, r.io.processes)
    &&& cgroup_replayed(o.cgroup, r.cgroup)
}

/// `a` is the recorded hunt `b` with its identifiers replaced: device and
/// process names, cgroup paths (by one redactor starting empty), unit
/// candidates and member names; every measurement is kept.
pub open spec fn hunt_redacted<C>(a: RecordedHunt<C>, b: RecordedHunt<C>) -> bool {
    &&& a.cpu_psi == b.cpu_psi
    &&& a.memory == b.memory
    &&& a.io.psi == b.io.psi
    &&& match (a.io.diskstats, b.io.diskstats) {
        (Collected::Observed { value: x }, Collected::Observed { value: y }) => x.elapsed_us == y.elapsed_us
            && disk_names_redacted(x.observation, y.observation),
        (Collected::Unavailable { error: x }, Collected::Unavailable { error: y }) => x == y,
        _ => false,
    }
    &&& match (a.io.processes, b.io.processes) {
        (Collected::Observed { value: x }, Collected::Observed { value: y }) => x.elapsed_us == y.elapsed_us
            && process_names_redacted(x.observation, y.observation),
        (Collected::Unavailable { error: x }, Collected::Unavailable { error: y }) => x == y,
        _ => false,
    }
    &&& match (a.cgroup, b.cgroup) {
        (Collected::Observed { value: x }, Collected::Observed { value: y }) => cgroup_redaction_holds(
            x,
            y,
            Seq::empty(),
        ),
        (Collected::Unavailable { error: x }, Collected::Unavailable { error: y }) => x == y,
        _ => false,
    }
}

/// The recording is of this kind and schema version.
pub open spec fn header_ok<C>(r: Recording<C>) -> bool {
    r.kind@ == RECORDING_KIND@ && r.schema_version == RECORDING_SCHEMA_VERSION
}

/// Why a recording's header is refused: its kind first, then its version.
pub open spec fn header_error<C>(r: Recording<C>) -> Seq<char> {
    if r.kind@ != RECORDING_KIND@ {
        "unsupported recording kind '"@ + r.kind@ + "'; expected '"@ + RECORDING_KIND@ + "'"@
    } else {
        "unsupported recording schema_version "@ + decimal(r.schema_version as nat)
            + "; this tool reads version "@ + decimal(RECORDING_SCHEMA_VERSION as nat)
    }
}

/// Accepts only recordings of this kind and schema version; earlier schema
/// versions are refused rather than partly read.
pub fn validate_header<C>(recording: &Recording<C>) -> (res: Result<(), RecordError>)
    ensures
        res is Ok <==> header_ok(*recording),
        res matches Err(e) ==> e.message@ == header_error(*recording),
{
    let kind = chars_of(recording.kind.as_str());
    if !eq_lit(&kind, RECORDING_KIND) {
        let mut message = String::new();
        append_str(&mut message, "unsupported recording kind '");
        append_str(&mut message, recording.kind.as_str());
        append_str(&mut message, "'; expected '");
        append_str(&mut message, RECORDING_KIND);
        append_str(&mut message, "'");
        return Err(RecordError { message });
    }
    if recording.schema_version != RECORDING_SCHEMA_VERSION {
        let mut message = String::new();
        append_str(&mut message, "unsupported recording schema_version ");
        push_decimal(&mut message, recording.schema_version as u64);
        append_str(&mut message, "; this tool reads version ");
        push_decimal(&mut message, RECORDING_SCHEMA_VERSION as u64);
        return Err(RecordError { message });
    }
    Ok(())
}

/// A recording's text fits the decode limit.
pub fn within_decode_limit(len: u64) -> (b: bool)
    ensures
        b == (len <= MAX_RECORDING_BYTES),
{
    len <= MAX_RECORDING_BYTES
}

fn record_memory_context_part(c: &Result<MemoryContextObservation, MemoryContextError>) -> (r: Collected<
    RecordedMemoryContext,
    MemoryContextError,
>)
    ensures
        memory_context_recorded(r, *c),
{
    match c {
        Ok(m) => Collected::Observed { value: record_memory_context(m) },
        Err(e) => Collected::Unavailable { error: *e },
    }
}

fn record_diskstats_part(c: &Result<DiskstatsObservation, DiskstatsError>) -> (r: Collected<
    RecordedDiskstats,
    DiskstatsError,
>)
    ensures
        diskstats_recorded(r, *c),
{
    match c {
        Ok(m) => Collected::Observed { value: record_diskstats(m) },
        Err(e) => Collected::Unavailable { error: *e },
    }
}

fn record_process_io_part(c: &Result<ProcessIoObservation, DiskstatsError>) -> (r: Collected<
    RecordedProcessIo,
    DiskstatsError,
>)
    ensures
        process_io_recorded(r, *c),
{
    match c {
        Ok(m) => Collected::Observed { value: record_process_io(m) },
        Err(e) => Collected::Unavailable { error: *e },
    }
}

/// The recorded form of a hunt's memory part.
pub fn record_memory(memory: &MemoryHuntObservation) -> (r: RecordedMemoryHunt)
    ensures
        r.psi == memory.psi,
        memory_context_recorded(r.context, memory.context),
{
    RecordedMemoryHunt { psi: memory.psi, context: record_memory_context_part(&memory.context) }
}

/// The recorded form of a hunt's I/O part.
pub fn record_io(io: &IoHuntObservation) -> (r: RecordedIoHunt)
    ensures
        r.psi == io.psi,
        diskstats_recorded(r.diskstats, io.diskstats),
        process_io_recorded(r.processes, io.processes),
{
    RecordedIoHunt {
        psi: io.psi,
        diskstats: record_diskstats_part(&io.diskstats),
        processes: record_process_io_part(&io.processes),
    }
}

/// The memory part a recording replays.
pub fn memory_from_recorded(memory: &RecordedMemoryHunt) -> (m: MemoryHuntObservation)
    ensures
        m.psi == memory.psi,
        memory_context_replayed(m.context, memory.context),
{
    MemoryHuntObservation {
        psi: memory.psi,
        context: match &memory.context {
            Collected::Observed { value } => Ok(memory_context_from_recorded(value)),
            Collected::Unavailable { error } => Err(*error),
        },
    }
}

/// The I/O part a recording replays.
pub fn io_from_recorded(io: &RecordedIoHunt) -> (m: IoHuntObservation)
    ensures
        m.psi == io.psi,
        diskstats_replayed(m.diskstats, io.diskstats),
        process_io_replayed(m.processes, io.processes),
{
    IoHuntObservation {
        psi: io.psi,
        diskstats: match &io.diskstats {
            Collected::Observed { value } => Ok(diskstats_from_recorded(value)),
            Collected::Unavailable { error } => Err(*error),
        },
        processes: match &io.processes {
            Collected::Observed { value } => Ok(process_io_from_recorded(value)),
            Collected::Unavailable { error } => Err(*error),
        },
    }
}

/// The hunt a recording replays, after its header is checked.
pub fn observation_from_recording<C: Copy>(recording: &Recording<C>) -> (res: Result<
    HuntObservation<C>,
    RecordError,
>)
    ensures
        res is Ok <==> header_ok(*recording),
        res matches Ok(o) ==> hunt_replayed(o, recording.observation),
        res matches Err(e) ==> e.message@ == header_error(*recording),
{
    match validate_header(recording) {
        Err(e) => return Err(e),
        Ok(()) => {},
    }
    let hunt = &recording.observation;
    let psi = match &hunt.cpu_psi {
        Collected::Observed { value } => Ok(*value),
        Collected::Unavailable { error } => Err(*error),
    };
    Ok(
        HuntObservation {
            psi,
            memory: memory_from_recorded(&hunt.memory),
            io: io_from_recorded(&hunt.io),
            cgroup: cgroup_from_recorded(&hunt.cgroup),
        },
    )
}

/// Replaces the identifiers of a recording and marks it redacted: device
/// names become `dev-<major>-<minor>`, process and member names
/// `pid-<pid>`, cgroup path components stable `c<n>` tokens, and unit
/// candidates keep only their type.  The header and every measurement are
/// kept.
pub fn redact_recording<C>(recording: &mut Recording<C>)
    ensures
        final(recording).redaction == Redaction::Identifiers,
        final(recording).kind == old(recording).kind,
        final(recording).schema_version == old(recording).schema_version,
        final(recording).tool_version == old(recording).tool_version,
        final(recording).recorded_at_unix_ms == old(recording).recorded_at_unix_ms,
        final(recording).requested_duration_ms == old(recording).requested_duration_ms,
        hunt_redacted(final(recording).observation, old(recording).observation),
{
    recording.redaction = Redaction::Identifiers;
    match &mut recording.observation.io.diskstats {
        Collected::Observed { value } => redact_diskstats_names(&mut value.observation),
        Collected::Unavailable { .. } => {},
    }
    match &mut recording.observation.io.processes {
        Collected::Observed { value } => redact_process_io_names(&mut value.observation),
        Collected::Unavailable { .. } => {},
    }
    let mut paths = PathRedactor::new();
    match &mut recording.observation.cgroup {
        Collected::Observed { value } => {
            assert(seqs_of(paths.components@) =~= Seq::<Seq<char>>::empty());
            redact_recorded_cgroup(value, &mut paths);
        },
        Collected::Unavailable { .. } => {},
    }
}

/// A recording of a hunt: this kind and schema version, the given tool
/// version, time and requested duration, and every part of the hunt in its
/// recorded form, with identifiers replaced when redaction is asked for.
pub fn recording_from_observation<C: Copy>(
    observation: &HuntObservation<C>,
    requested_duration_ms: u64,
    redaction: Redaction,
    tool_version: String,
    recorded_at_unix_ms: Option<u64>,
) -> (res: Result<Recording<C>, RecordError>)
    ensures
        res matches Ok(r) && {
            &&& header_ok(r)
            &&& r.tool_version == tool_version
            &&& r.recorded_at_unix_ms == recorded_at_unix_ms
            &&& r.requested_duration_ms == requested_duration_ms
            &&& r.redaction == redaction
            &&& redaction == Redaction::Unredacted ==> hunt_recorded(r.observation, *observation)
            &&& redaction == Redaction::Identifiers ==> exists|p: RecordedHunt<C>|
                hunt_recorded(p, *observation) && #[trigger] hunt_redacted(r.observation, p)
        },
{
    let mut kind = String::new();
    append_str(&mut kind, RECORDING_KIND);
    let cpu_psi = match &observation.psi {
        Ok(value) => Collected::Observed { value: *value },
        Err(error) => Collected::Unavailable { error: *error },
    };
    let mut recording = Recording {
        kind,
        schema_version: RECORDING_SCHEMA_VERSION,
        tool_version,
        recorded_at_unix_ms,
        redaction: Redaction::Unredacted,
        requested_duration_ms,
        observation: RecordedHunt {
            cpu_psi,
            memory: record_memory(&observation.memory),
            io: record_io(&observation.io),
            cgroup: record_cgroup(&observation.cgroup),
        },
    };
    let ghost recorded = recording.observation;
    if redaction == Redaction::Identifiers {
        redact_recording(&mut recording);
        assert(hunt_redacted(recording.observation, recorded));
    }
    Ok(recording)
}

// ---------------------------------------------------------------------------
// Laws
// ---------------------------------------------------------------------------

/// A pressure interval with its window truncated to whole microseconds, the
/// precision recordings keep.
pub open spec fn truncated_psi(i: CgroupPsiInterval) -> CgroupPsiInterval {
    CgroupPsiInterval {
        elapsed_ns: match i.elapsed_ns {
            Some(ns) => Some(((ns / 1000) * 1000) as u64),
            None => None,
        },
        ..i
    }
}

/// `back` is the cgroup interval `g` with its pressure windows truncated to
/// whole microseconds.
pub open spec fn interval_comes_back(back: CgroupInterval, g: CgroupInterval) -> bool {
    &&& back.path@ == g.path@
    &&& back.cpu == g.cpu
    &&& back.memory_current_end == g.memory_current_end
    &&& back.memory_events == g.memory_events
    &&& back.memory_stat == g.memory_stat
    &&& back.io.state == g.io.state
    &&& match (back.io.value, g.io.value) {
        (Some(a), Some(b)) => a@ == b@,
        (None, None) => true,
        _ => false,
    }
    &&& back.cpu_pressure == map_psi_resource(g.cpu_pressure, |i: CgroupPsiInterval| truncated_psi(i))
    &&& back.memory_pressure == map_psi_resource(g.memory_pressure, |i: CgroupPsiInterval| truncated_psi(i))
    &&& back.io_pressure == map_psi_resource(g.io_pressure, |i: CgroupPsiInterval| truncated_psi(i))
    &&& back.systemd_unit_candidate == g.systemd_unit_candidate
}

/// Replaying a recorded cgroup interval gives back the live interval, except
/// that pressure windows come back truncated to whole microseconds.
pub proof fn lemma_cgroup_interval_round_trip(
    g: CgroupInterval,
    r: RecordedCgroupInterval,
    back: CgroupInterval,
)
    requires
        recorded_interval_holds(r, g),
        replayed_interval_holds(back, r),
    ensures
        interval_comes_back(back, g),
{
    assert forall|i: CgroupPsiInterval| #[trigger] psi_of_recorded(recorded_psi(i)) == truncated_psi(i) by {
        match i.elapsed_ns {
            Some(ns) => {
                assert((ns / 1000) * 1000 <= ns) by (nonlinear_arith);
            },
            None => {},
        }
    }
}

/// Known components keep their tokens: redacting more paths only appends
/// newly seen components.
pub proof fn lemma_redaction_tokens_are_stable(known: Seq<Seq<char>>, parts: Seq<Seq<char>>)
    ensures
        redact_components(known, parts).0.len() >= known.len(),
        redact_components(known, parts).0.take(known.len() as int) == known,
    decreases parts.len(),
{
    if parts.len() > 0 {
        lemma_redaction_tokens_are_stable(known, parts.drop_last());
        let k = redact_components(known, parts.drop_last()).0;
        assert(k.push(parts.last()).take(known.len() as int) =~= k.take(known.len() as int));
    }
}


proof fn lemma_first_index_prefix(s: Seq<Seq<char>>, t: Seq<Seq<char>>, x: Seq<char>)
    requires
        t.len() >= s.len(),
        t.take(s.len() as int) == s,
        s.contains(x),
    ensures
        first_index(t, x) == first_index(s, x),
        first_index(s, x) < s.len(),
    decreases s.len(),
{
    assert(t[0] == t.take(s.len() as int)[0]);
    if s[0] != x {
        let j = choose|j: int| 0 <= j < s.len() && s[j] == x;
        assert(s.drop_first()[j - 1] == x);
        assert(t.drop_first().take(s.drop_first().len() as int) =~= s.drop_first()) by {
            assert forall|k: int| 0 <= k < s.len() - 1 implies t.drop_first()[k] == s.drop_first()[k] by {
                assert(t[k + 1] == t.take(s.len() as int)[k + 1]);
            }
        }
        lemma_first_index_prefix(s.drop_first(), t.drop_first(), x);
    }
}

proof fn lemma_components_repeat(known: Seq<Seq<char>>, parts: Seq<Seq<char>>, k2: Seq<Seq<char>>)
    requires
        k2.len() >= redact_components(known, parts).0.len(),
        k2.take(redact_components(known, parts).0.len() as int) == redact_components(known, parts).0,
    ensures
        redact_components(k2, parts) == (k2, redact_components(known, parts).1),
    decreases parts.len(),
{
    if parts.len() > 0 {
        let (k1, out1) = redact_components(known, parts.drop_last());
        let (k, out) = redact_components(known, parts);
        let part = parts.last();
        assert(k == if k1.contains(part) { k1 } else { k1.push(part) });
        assert(k.take(k1.len() as int) =~= k1);
        assert(k2.take(k1.len() as int) =~= k1) by {
            assert forall|i: int| 0 <= i < k1.len() implies k2.take(k1.len() as int)[i] == k1[i] by {
                assert(k2[i] == k2.take(k.len() as int)[i]);
                assert(k[i] == k.take(k1.len() as int)[i]);
            }
        }
        lemma_components_repeat(known, parts.drop_last(), k2);
        assert(k.contains(part)) by {
            if k1.contains(part) {
            } else {
                assert(k[k.len() - 1] == part);
            }
        }
        assert(k2.contains(part)) by {
            let j = choose|j: int| 0 <= j < k.len() && k[j] == part;
            assert(k2[j] == k2.take(k.len() as int)[j]);
        }
        lemma_first_index_prefix(k, k2, part);
    }
}

proof fn lemma_redact_paths_extends(known: Seq<Seq<char>>, paths: Seq<Seq<char>>)
    ensures
        redact_paths(known, paths).0.len() >= known.len(),
        redact_paths(known, paths).0.take(known.len() as int) == known,
    decreases paths.len(),
{
    if paths.len() > 0 {
        lemma_redact_paths_extends(known, paths.drop_last());
        let k = redact_paths(known, paths.drop_last()).0;
        let p = paths.last();
        if p != "/"@ {
            lemma_redaction_tokens_are_stable(k, segments(p, '/'));
        }
        let k2 = redact_paths(known, paths).0;
        assert(k2.take(known.len() as int) =~= known) by {
            assert forall|i: int| 0 <= i < known.len() implies k2.take(known.len() as int)[i]
                == known[i] by {
                assert(k2[i] == k2.take(k.len() as int)[i]);
                assert(k[i] == k.take(known.len() as int)[i]);
            }
        }
    }
}

/// A path keeps its redacted form throughout a recording: redacting it
/// again, after any further paths, gives the same text and learns no new
/// component.  So a member whose cgroup path equals a group's path still
/// equals it after redaction.
pub proof fn lemma_redacted_path_is_stable(known: Seq<Seq<char>>, path: Seq<char>, later: Seq<Seq<char>>)
    ensures
        ({
            let (k1, out1) = redact_path(known, path);
            let k2 = redact_paths(k1, later).0;
            redact_path(k2, path) == (k2, out1)
        }),
{
    let (k1, out1) = redact_path(known, path);
    let k2 = redact_paths(k1, later).0;
    lemma_redact_paths_extends(k1, later);
    if path != "/"@ {
        lemma_components_repeat(known, segments(path, '/'), k2);
    }
}


/// Replaying a recorded diskstats, process I/O or memory-context observation
/// gives back the live observation, with its elapsed time truncated to whole
/// microseconds.
pub proof fn lemma_observation_round_trip(
    disks: DiskstatsObservation,
    recorded_disks: RecordedDiskstats,
    replayed_disks: DiskstatsObservation,
    processes: ProcessIoObservation,
    recorded_processes: RecordedProcessIo,
    replayed_processes: ProcessIoObservation,
    memory: MemoryContextObservation,
    recorded_memory: RecordedMemoryContext,
    replayed_memory: MemoryContextObservation,
)
    requires
        recorded_disks.elapsed_us == disks.elapsed_ns / 1000,
        same_diskstats(recorded_disks.observation, disks),
        replayed_disks.elapsed_ns == micros_as_ns(recorded_disks.elapsed_us),
        same_diskstats(replayed_disks, recorded_disks.observation),
        recorded_processes.elapsed_us == processes.elapsed_ns / 1000,
        same_process_io(recorded_processes.observation, processes),
        replayed_processes.elapsed_ns == micros_as_ns(recorded_processes.elapsed_us),
        same_process_io(replayed_processes, recorded_processes.observation),
        recorded_memory.elapsed_us == memory.elapsed_ns / 1000,
        same_memory_context(recorded_memory.observation, memory),
        replayed_memory.elapsed_ns == micros_as_ns(recorded_memory.elapsed_us),
        same_memory_context(replayed_memory, recorded_memory.observation),
    ensures
        same_diskstats(replayed_disks, disks),
        replayed_disks.elapsed_ns == (disks.elapsed_ns / 1000) * 1000,
        same_process_io(replayed_processes, processes),
        replayed_processes.elapsed_ns == (processes.elapsed_ns / 1000) * 1000,
        same_memory_context(replayed_memory, memory),
        replayed_memory.elapsed_ns == (memory.elapsed_ns / 1000) * 1000,
{
}


/// No component occurs twice.
pub open spec fn distinct_components(s: Seq<Seq<char>>) -> bool {
    forall|i: int, j: int| 0 <= i < j < s.len() ==> #[trigger] s[i] != #[trigger] s[j]
}

/// A redactor remembers each component once: starting from distinct
/// components (as `PathRedactor::new` does, with none), redacting keeps them
/// distinct, so each component has exactly one token.
pub proof fn lemma_redactor_components_distinct(known: Seq<Seq<char>>, parts: Seq<Seq<char>>)
    requires
        distinct_components(known),
    ensures
        distinct_components(redact_components(known, parts).0),
    decreases parts.len(),
{
    if parts.len() > 0 {
        lemma_redactor_components_distinct(known, parts.drop_last());
        let k = redact_components(known, parts.drop_last()).0;
        let part = parts.last();
        if !k.contains(part) {
            let k2 = k.push(part);
            assert forall|i: int, j: int| 0 <= i < j < k2.len() implies #[trigger] k2[i] != #[trigger] k2[j] by {
                if j == k.len() {
                    assert(k2[i] == k[i]);
                    if k[i] == part {
                        assert(k.contains(part));
                    }
                } else {
                    assert(k2[i] == k[i] && k2[j] == k[j]);
                }
            }
        }
    }
}


/// A time in nanoseconds truncated to whole microseconds.
pub open spec fn truncated_ns(ns: u64) -> u64 {
    ((ns / 1000) * 1000) as u64
}

/// `back` is the hunt `o` with every elapsed time truncated to whole
/// microseconds, the precision recordings keep; nothing else differs.
pub open spec fn hunt_comes_back<C>(back: HuntObservation<C>, o: HuntObservation<C>) -> bool {
    &&& back.psi == o.psi
    &&& back.memory.psi == o.memory.psi
    &&& back.io.psi == o.io.psi
    &&& match (back.memory.context, o.memory.context) {
        (Ok(a), Ok(b)) => a.elapsed_ns == truncated_ns(b.elapsed_ns) && same_memory_context(a, b),
        (Err(a), Err(b)) => a == b,
        _ => false,
    }
    &&& match (back.io.diskstats, o.io.diskstats) {
        (Ok(a), Ok(b)) => a.elapsed_ns == truncated_ns(b.elapsed_ns) && same_diskstats(a, b),
        (Err(a), Err(b)) => a == b,
        _ => false,
    }
    &&& match (back.io.processes, o.io.processes) {
        (Ok(a), Ok(b)) => a.elapsed_ns == truncated_ns(b.elapsed_ns) && same_process_io(a, b),
        (Err(a), Err(b)) => a == b,
        _ => false,
    }
    &&& match (back.cgroup, o.cgroup) {
        (Ok(a), Ok(b)) => {
            &&& a.elapsed_ns == truncated_ns(b.elapsed_ns)
            &&& a.members@ == b.members@
            &&& a.issues == b.issues
            &&& a.groups@.len() == b.groups@.len()
            &&& forall|k: int| 0 <= k < a.groups@.len() ==> interval_comes_back(#[trigger] a.groups@[k], b.groups@[k])
        },
        (Err(a), Err(b)) => a == b,
        _ => false,
    }
}

/// Replaying an unredacted recording of a hunt gives back the hunt, with
/// elapsed times and pressure windows truncated to whole microseconds.
pub proof fn lemma_recording_round_trip<C>(o: HuntObservation<C>, recorded: RecordedHunt<C>, back: HuntObservation<C>)
    requires
        hunt_recorded(recorded, o),
        hunt_replayed(back, recorded),
    ensures
        hunt_comes_back(back, o),
{
    assert forall|ns: u64| #[trigger] micros_as_ns(ns / 1000) == truncated_ns(ns) by {
        assert((ns / 1000) * 1000 <= ns) by (nonlinear_arith);
    }
    match (back.cgroup, o.cgroup, recorded.cgroup) {
        (Ok(a), Ok(b), Collected::Observed { value }) => {
            assert forall|k: int| 0 <= k < a.groups@.len() implies interval_comes_back(#[trigger] a.groups@[k], b.groups@[k]) by {
                lemma_cgroup_interval_round_trip(b.groups@[k], value.groups@[k], a.groups@[k]);
            }
            assert(a.elapsed_ns == micros_as_ns(b.elapsed_ns / 1000));
        },
        _ => {},
    }
    match (back.memory.context, o.memory.context, recorded.memory.context) {
        (Ok(a), Ok(b), Collected::Observed { value }) => {
            assert(a.elapsed_ns == micros_as_ns(b.elapsed_ns / 1000));
        },
        _ => {},
    }
    match (back.io.diskstats, o.io.diskstats, recorded.io.diskstats) {
        (Ok(a), Ok(b), Collected::Observed { value }) => {
            assert(a.elapsed_ns == micros_as_ns(b.elapsed_ns / 1000));
        },
        _ => {},
    }
    match (back.io.processes, o.io.processes, recorded.io.processes) {
        (Ok(a), Ok(b), Collected::Observed { value }) => {
            assert(a.elapsed_ns == micros_as_ns(b.elapsed_ns / 1000));
        },
        _ => {},
    }
}

} // verus!
