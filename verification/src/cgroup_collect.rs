//! The decisions of a bounded cgroup snapshot: the read budget, how each
//! process becomes a stable member, and how failed reads are counted.  The
//! caller performs the reads these functions ask for.

use vstd::prelude::*;
use crate::cgroup::{
    below_root, members_sorted, MAX_CGROUP_PROCESSES, parse_unified_cgroup, unified_cgroup_spec, Cgroup2Mount, CgroupCollectionIssues,
    CgroupError, CgroupFileState, CgroupProcessMember, CgroupResource, MAX_CGROUP_FILE_BYTES,
    MAX_CGROUP_READ_ATTEMPTS, MAX_CGROUP_SNAPSHOT_BYTES, is_below_mount_root,
};
use crate::io::{bump, insert_ascending, keep_lowest_within, ProcessReadError};
use crate::process::{key_less, key_lt, ProcessKey, ProcessStat};
use crate::read_error::ReadErrorKind;
use crate::text::{append_str, chars_of, push_char};

verus! {

/// A `/proc` input larger than this is rejected.
pub const MAX_PROC_INPUT_BYTES: u64 = 65536;

/// The read and byte budget of one snapshot.
#[derive(Debug, Clone, Copy, PartialEq, Eq, Structural)]
pub struct SnapshotBudget {
    pub reads: u32,
    pub bytes: u64,
    pub exhausted: bool,
}

impl SnapshotBudget {
    pub fn new() -> (b: Self)
        ensures
            b == (SnapshotBudget { reads: 0, bytes: 0, exhausted: false }),
    {
        SnapshotBudget { reads: 0, bytes: 0, exhausted: false }
    }

    /// Permits one more read while fewer than `MAX_CGROUP_READ_ATTEMPTS`
    /// were made and one more full file still fits the byte budget;
    /// otherwise marks the budget exhausted.
    pub fn permit(&mut self) -> (ok: bool)
        ensures
            ok == (old(self).reads < MAX_CGROUP_READ_ATTEMPTS && (if old(self).bytes
                + MAX_CGROUP_FILE_BYTES > u64::MAX {
                u64::MAX as int
            } else {
                old(self).bytes + MAX_CGROUP_FILE_BYTES
            }) <= MAX_CGROUP_SNAPSHOT_BYTES),
            ok ==> *final(self) == (SnapshotBudget { reads: (old(self).reads + 1) as u32, ..*old(self) }),
            !ok ==> *final(self) == (SnapshotBudget { exhausted: true, ..*old(self) }),
    {
        if self.reads >= MAX_CGROUP_READ_ATTEMPTS || self.bytes.saturating_add(MAX_CGROUP_FILE_BYTES)
            > MAX_CGROUP_SNAPSHOT_BYTES {
            self.exhausted = true;
            false
        } else {
            self.reads = self.reads + 1;
            true
        }
    }

    /// Charges the bytes of a file that was read.
    pub fn add_bytes(&mut self, bytes: u64)
        ensures
            final(self).bytes == if old(self).bytes + bytes > u64::MAX {
                u64::MAX
            } else {
                (old(self).bytes + bytes) as u64
            },
            final(self).reads == old(self).reads,
            final(self).exhausted == (old(self).exhausted || final(self).bytes
                > MAX_CGROUP_SNAPSHOT_BYTES),
    {
        self.bytes = self.bytes.saturating_add(bytes);
        if self.bytes > MAX_CGROUP_SNAPSHOT_BYTES {
            self.exhausted = true;
        }
    }
}

/// The collection costs and budget outcome recorded in the issues.
pub fn finish_issues(issues: &mut CgroupCollectionIssues, budget: &SnapshotBudget)
    ensures
        *final(issues) == (CgroupCollectionIssues {
            read_attempts: budget.reads,
            bytes_read: budget.bytes,
            budget_exhausted: old(issues).budget_exhausted || budget.exhausted,
            ..*old(issues)
        }),
{
    issues.read_attempts = budget.reads;
    issues.bytes_read = budget.bytes;
    issues.budget_exhausted = issues.budget_exhausted || budget.exhausted;
}

pub fn classify_proc_error(kind: ReadErrorKind) -> (e: ProcessReadError)
    ensures
        e == match kind {
            ReadErrorKind::NotFound => ProcessReadError::Disappeared,
            ReadErrorKind::PermissionDenied => ProcessReadError::PermissionDenied,
            ReadErrorKind::Other => ProcessReadError::Other,
        },
{
    match kind {
        ReadErrorKind::NotFound => ProcessReadError::Disappeared,
        ReadErrorKind::PermissionDenied => ProcessReadError::PermissionDenied,
        ReadErrorKind::Other => ProcessReadError::Other,
    }
}

/// How a failed cgroup2 discovery read is reported.
pub fn classify_error(kind: ReadErrorKind) -> (e: CgroupError)
    ensures
        e == match kind {
            ReadErrorKind::NotFound => CgroupError::Unsupported,
            ReadErrorKind::PermissionDenied => CgroupError::PermissionDenied,
            ReadErrorKind::Other => CgroupError::Unreadable,
        },
{
    match kind {
        ReadErrorKind::NotFound => CgroupError::Unsupported,
        ReadErrorKind::PermissionDenied => CgroupError::PermissionDenied,
        ReadErrorKind::Other => CgroupError::Unreadable,
    }
}

/// How a failed controller-file read is reported.
pub fn classify_file_error(kind: ReadErrorKind) -> (s: CgroupFileState)
    ensures
        s == match kind {
            ReadErrorKind::NotFound => CgroupFileState::Missing,
            ReadErrorKind::PermissionDenied => CgroupFileState::PermissionDenied,
            ReadErrorKind::Other => CgroupFileState::Unreadable,
        },
{
    match kind {
        ReadErrorKind::NotFound => CgroupFileState::Missing,
        ReadErrorKind::PermissionDenied => CgroupFileState::PermissionDenied,
        ReadErrorKind::Other => CgroupFileState::Unreadable,
    }
}

pub open spec fn process_error_issues(i: CgroupCollectionIssues, e: ProcessReadError) -> CgroupCollectionIssues {
    match e {
        ProcessReadError::Disappeared => CgroupCollectionIssues {
            process_disappeared: bump(i.process_disappeared),
            ..i
        },
        ProcessReadError::PermissionDenied => CgroupCollectionIssues {
            process_permission_denied: bump(i.process_permission_denied),
            ..i
        },
        ProcessReadError::Other => CgroupCollectionIssues {
            process_malformed: bump(i.process_malformed),
            ..i
        },
    }
}

fn bump_exec(v: u32) -> (r: u32)
    ensures
        r == bump(v),
{
    if v == u32::MAX {
        v
    } else {
        v + 1
    }
}

/// Counts a process lost while collecting membership.
pub fn note_process_error(issues: &mut CgroupCollectionIssues, error: ProcessReadError)
    ensures
        *final(issues) == process_error_issues(*old(issues), error),
{
    match error {
        ProcessReadError::Disappeared => issues.process_disappeared = bump_exec(
            issues.process_disappeared,
        ),
        ProcessReadError::PermissionDenied => issues.process_permission_denied = bump_exec(
            issues.process_permission_denied,
        ),
        ProcessReadError::Other => issues.process_malformed = bump_exec(issues.process_malformed),
    }
}

pub open spec fn group_error_issues(i: CgroupCollectionIssues, s: CgroupFileState) -> CgroupCollectionIssues {
    match s {
        CgroupFileState::Missing => CgroupCollectionIssues {
            cgroup_disappeared: bump(i.cgroup_disappeared),
            ..i
        },
        CgroupFileState::PermissionDenied => CgroupCollectionIssues {
            cgroup_permission_denied: bump(i.cgroup_permission_denied),
            ..i
        },
        CgroupFileState::Unreadable => CgroupCollectionIssues {
            cgroup_unreadable: bump(i.cgroup_unreadable),
            ..i
        },
        _ => CgroupCollectionIssues { cgroup_malformed: bump(i.cgroup_malformed), ..i },
    }
}

/// Counts a cgroup directory that could not be collected.
pub fn note_group_error(issues: &mut CgroupCollectionIssues, state: CgroupFileState)
    ensures
        *final(issues) == group_error_issues(*old(issues), state),
{
    match state {
        CgroupFileState::Missing => issues.cgroup_disappeared = bump_exec(issues.cgroup_disappeared),
        CgroupFileState::PermissionDenied => issues.cgroup_permission_denied = bump_exec(
            issues.cgroup_permission_denied,
        ),
        CgroupFileState::Unreadable => issues.cgroup_unreadable = bump_exec(
            issues.cgroup_unreadable,
        ),
        _ => issues.cgroup_malformed = bump_exec(issues.cgroup_malformed),
    }
}

/// A controller file's resource from its read and parse outcome.
pub fn resource_from_read<T>(read: Result<Result<T, CgroupError>, CgroupFileState>) -> (r: CgroupResource<T>)
    ensures
        r == match read {
            Ok(Ok(v)) => CgroupResource { state: CgroupFileState::Available, value: Some(v) },
            Ok(Err(_)) => CgroupResource::<T> { state: CgroupFileState::Malformed, value: None },
            Err(s) => CgroupResource::<T> { state: s, value: None },
        },
{
    match read {
        Ok(Ok(v)) => CgroupResource::available(v),
        Ok(Err(_)) => CgroupResource::failed(CgroupFileState::Malformed),
        Err(s) => CgroupResource::failed(s),
    }
}

/// The part of a cgroup path below the mount root, without leading `/`.
pub open spec fn relative_part(path: Seq<char>, root: Seq<char>) -> Seq<char>
    decreases path.len(),
{
    let rest = if path.len() >= root.len() && path.take(root.len() as int) == root {
        path.skip(root.len() as int)
    } else {
        Seq::empty()
    };
    strip_slashes(rest)
}

pub open spec fn strip_slashes(s: Seq<char>) -> Seq<char>
    decreases s.len(),
{
    if s.len() > 0 && s[0] == '/' {
        strip_slashes(s.drop_first())
    } else {
        s
    }
}

/// The directory of a cgroup under the mount point, joined as paths join: a
/// separator is added unless the mount point already ends with one.
pub open spec fn directory_of(mount_point: Seq<char>, relative: Seq<char>) -> Seq<char> {
    if relative.len() == 0 {
        mount_point
    } else if mount_point.len() > 0 && mount_point.last() == '/' {
        mount_point + relative
    } else {
        mount_point + seq!['/'] + relative
    }
}

/// Where a cgroup's files live; a path outside the mount root is malformed.
pub fn cgroup_directory(mount: &Cgroup2Mount, path: &str) -> (out: Result<String, CgroupError>)
    ensures
        match out {
            Ok(d) => below_root(path@, mount.root@) && d@ == directory_of(
                mount.mount_point@,
                relative_part(path@, mount.root@),
            ),
            Err(e) => !below_root(path@, mount.root@) && e == CgroupError::Malformed,
        },
{
    if !is_below_mount_root(path, mount.root.as_str()) {
        return Err(CgroupError::Malformed);
    }
    let p = chars_of(path);
    let r = chars_of(mount.root.as_str());
    let mut start: usize = 0;
    if p.len() >= r.len() {
        let prefix = crate::text::slice_to_vec(&p, 0, r.len());
        assert(p@.take(r@.len() as int) =~= prefix@);
        if crate::text::eq_chars(&prefix, &r) {
            start = r.len();
        } else {
            start = p.len();
        }
    } else {
        start = p.len();
    }
    proof {
        if !(p@.len() >= r@.len() && p@.take(r@.len() as int) == r@) {
            assert(p@.skip(p@.len() as int) =~= Seq::<char>::empty());
        }
    }
    let ghost rest = p@.skip(start as int);
    assert(rest == if p@.len() >= r@.len() && p@.take(r@.len() as int) == r@ {
        p@.skip(r@.len() as int)
    } else {
        Seq::<char>::empty()
    });
    while start < p.len() && p[start] == '/'
        invariant
            start <= p@.len(),
            strip_slashes(rest) == strip_slashes(p@.skip(start as int)),
        decreases p.len() - start,
    {
        assert(p@.skip(start as int).drop_first() =~= p@.skip(start + 1));
        start += 1;
    }
    let ghost rel = p@.skip(start as int);
    assert(strip_slashes(p@.skip(start as int)) == rel) by {
        if start < p@.len() {
            assert(p@.skip(start as int)[0] == p@[start as int]);
        }
    }
    let mut out = String::new();
    append_str(&mut out, mount.mount_point.as_str());
    if start < p.len() {
        let mp = chars_of(mount.mount_point.as_str());
        if !(mp.len() > 0 && mp[mp.len() - 1] == '/') {
            push_char(&mut out, '/');
        }
        let mut i = start;
        while i < p.len()
            invariant
                start <= i <= p@.len(),
                out@ == (if mount.mount_point@.len() > 0 && mount.mount_point@.last() == '/' {
                    mount.mount_point@
                } else {
                    mount.mount_point@ + seq!['/']
                }) + p@.subrange(start as int, i as int),
            decreases p.len() - i,
        {
            push_char(&mut out, p[i]);
            assert(p@.subrange(start as int, i + 1) =~= p@.subrange(start as int, i as int).push(
                p@[i as int],
            ));
            i += 1;
        }
        assert(p@.subrange(start as int, p@.len() as int) =~= rel);
    } else {
        assert(rel =~= Seq::<char>::empty());
    }
    assert(p@ == path@);
    assert(r@ == mount.root@);
    Ok(out)
}

/// Inserts a member in key order, replacing one with the same key.
pub open spec fn insert_member(
    s: Seq<CgroupProcessMember>,
    m: CgroupProcessMember,
) -> Seq<CgroupProcessMember>
    decreases s.len(),
{
    if s.len() == 0 {
        seq![m]
    } else if key_lt(m.key, s[0].key) {
        seq![m] + s
    } else if m.key == s[0].key {
        seq![m] + s.drop_first()
    } else {
        seq![s[0]] + insert_member(s.drop_first(), m)
    }
}

proof fn lemma_insert_member_at(s: Seq<CgroupProcessMember>, m: CgroupProcessMember, p: int)
    requires
        0 <= p <= s.len(),
        forall|k: int| 0 <= k < p ==> key_lt(#[trigger] s[k].key, m.key),
        p < s.len() ==> !key_lt(s[p].key, m.key),
    ensures
        p < s.len() && s[p].key == m.key ==> insert_member(s, m) == s.update(p, m),
        !(p < s.len() && s[p].key == m.key) ==> insert_member(s, m) == s.insert(p, m),
    decreases p,
{
    if p == 0 {
        if s.len() == 0 {
            assert(insert_member(s, m) =~= s.insert(0, m));
        } else if s[0].key == m.key {
            assert(insert_member(s, m) =~= s.update(0, m));
        } else {
            assert(key_lt(m.key, s[0].key));
            assert(insert_member(s, m) =~= s.insert(0, m));
        }
    } else {
        let t = s.drop_first();
        assert(key_lt(s[0].key, m.key));
        assert forall|k: int| 0 <= k < p - 1 implies key_lt(#[trigger] t[k].key, m.key) by {
            assert(t[k] == s[k + 1]);
        }
        lemma_insert_member_at(t, m, p - 1);
        if p < s.len() && s[p].key == m.key {
            assert(insert_member(s, m) =~= s.update(p, m));
        } else {
            assert(insert_member(s, m) =~= s.insert(p, m));
        }
    }
}

fn store_member(members: &mut Vec<CgroupProcessMember>, m: CgroupProcessMember)
    ensures
        final(members)@ == insert_member(old(members)@, m),
{
    let ghost before = members@;
    let ghost mm = m;
    let mut p: usize = 0;
    while p < members.len() && key_less(members[p].key, m.key)
        invariant
            p <= members.len(),
            members@ == before,
            mm == m,
            forall|k: int| 0 <= k < p ==> key_lt(#[trigger] before[k].key, mm.key),
        decreases members.len() - p,
    {
        p += 1;
    }
    proof {
        lemma_insert_member_at(before, mm, p as int);
    }
    if p < members.len() && members[p].key == m.key {
        members.set(p, m);
    } else {
        members.insert(p, m);
    }
}

/// Where collecting one process's membership stands; the step names the
/// file to read next.
#[derive(Debug, Clone, PartialEq, Eq)]
pub enum MemberStep {
    /// Read the process's stat file.
    FirstStat,
    /// Read its cgroup file.
    Cgroup { first: ProcessKey },
    /// Read stat again to confirm the identity the path belongs to.
    SecondStat { first: ProcessKey, path: String },
    /// This process is done.
    Done,
    /// The read budget ran out: stop collecting processes.
    Stop,
}

/// The outcome of the read a step asked for, or a refused budget.
#[derive(Debug)]
pub enum MemberEvent {
    Stat(Result<ProcessStat, ProcessReadError>),
    Cgroup(Result<String, ProcessReadError>),
    NoBudget,
}

pub open spec fn member_event_fits(step: MemberStep, event: MemberEvent) -> bool {
    match step {
        MemberStep::Done | MemberStep::Stop => false,
        MemberStep::Cgroup { .. } => event is Cgroup || event is NoBudget,
        _ => event is Stat || event is NoBudget,
    }
}

/// One transition of membership collection: the next step, the issues, and
/// the members, which gain a member once its identity was confirmed around
/// the cgroup read.
pub open spec fn member_step_holds(
    step: MemberStep,
    event: MemberEvent,
    i: CgroupCollectionIssues,
    members: Seq<CgroupProcessMember>,
    next: MemberStep,
    i2: CgroupCollectionIssues,
    members2: Seq<CgroupProcessMember>,
) -> bool {
    match (step, event) {
        (_, MemberEvent::NoBudget) => next == MemberStep::Stop && i2 == (CgroupCollectionIssues {
            budget_exhausted: true,
            ..i
        }) && members2 == members,
        (MemberStep::FirstStat, MemberEvent::Stat(Ok(s))) => next == (MemberStep::Cgroup {
            first: s.key,
        }) && i2 == i && members2 == members,
        (MemberStep::FirstStat, MemberEvent::Stat(Err(e))) => next == MemberStep::Done && i2
            == process_error_issues(i, e) && members2 == members,
        (MemberStep::Cgroup { first }, MemberEvent::Cgroup(Ok(text))) => members2 == members
            && match unified_cgroup_spec(text@) {
            Ok(p) => i2 == i && match next {
                MemberStep::SecondStat { first: f, path } => f == first && path@ == p,
                _ => false,
            },
            Err(_) => next == MemberStep::Done && i2 == (CgroupCollectionIssues {
                process_malformed: bump(i.process_malformed),
                ..i
            }),
        },
        (MemberStep::Cgroup { .. }, MemberEvent::Cgroup(Err(e))) => next == MemberStep::Done && i2
            == process_error_issues(i, e) && members2 == members,
        (MemberStep::SecondStat { first, path }, MemberEvent::Stat(Ok(s))) => next
            == MemberStep::Done && if s.key == first {
            i2 == i && members2 == insert_member(
                members,
                CgroupProcessMember { key: s.key, name: s.comm, cgroup_path: path },
            )
        } else {
            i2 == (CgroupCollectionIssues {
                process_identity_changed: bump(i.process_identity_changed),
                ..i
            }) && members2 == members
        },
        (MemberStep::SecondStat { .. }, MemberEvent::Stat(Err(e))) => next == MemberStep::Done
            && i2 == process_error_issues(i, e) && members2 == members,
        _ => next == MemberStep::Done && i2 == i && members2 == members,
    }
}

/// Advances the membership collection of one process by the outcome of the
/// read its step asked for.  The identity is read before and after the
/// cgroup file, so a path is never attributed to a reused PID.
pub fn member_step(
    step: MemberStep,
    event: MemberEvent,
    issues: &mut CgroupCollectionIssues,
    members: &mut Vec<CgroupProcessMember>,
) -> (next: MemberStep)
    requires
        member_event_fits(step, event),
    ensures
        member_step_holds(step, event, *old(issues), old(members)@, next, *final(issues), final(members)@),
{
    match (step, event) {
        (_, MemberEvent::NoBudget) => {
            issues.budget_exhausted = true;
            MemberStep::Stop
        },
        (MemberStep::FirstStat, MemberEvent::Stat(Ok(s))) => MemberStep::Cgroup { first: s.key },
        (MemberStep::FirstStat, MemberEvent::Stat(Err(e))) => {
            note_process_error(issues, e);
            MemberStep::Done
        },
        (MemberStep::Cgroup { first }, MemberEvent::Cgroup(Ok(text))) => {
            match parse_unified_cgroup(text.as_str()) {
                Ok(path) => MemberStep::SecondStat { first, path },
                Err(_) => {
                    issues.process_malformed = bump_exec(issues.process_malformed);
                    MemberStep::Done
                },
            }
        },
        (MemberStep::Cgroup { .. }, MemberEvent::Cgroup(Err(e))) => {
            note_process_error(issues, e);
            MemberStep::Done
        },
        (MemberStep::SecondStat { first, path }, MemberEvent::Stat(Ok(s))) => {
            if s.key == first {
                store_member(members, CgroupProcessMember { key: s.key, name: s.comm, cgroup_path: path });
            } else {
                issues.process_identity_changed = bump_exec(issues.process_identity_changed);
            }
            MemberStep::Done
        },
        (MemberStep::SecondStat { .. }, MemberEvent::Stat(Err(e))) => {
            note_process_error(issues, e);
            MemberStep::Done
        },
        _ => MemberStep::Done,
    }
}


// ---------------------------------------------------------------------------
// The walk over the active cgroups
// ---------------------------------------------------------------------------

/// A snapshot walks up to the mount root, so it needs a root to stop at: an
/// empty hierarchy root is malformed.
pub fn check_mount_root(mount: &Cgroup2Mount) -> (r: Result<(), CgroupError>)
    ensures
        r is Err <==> mount.root@.len() == 0,
        r matches Err(e) ==> e == CgroupError::Malformed,
{
    if chars_of(mount.root.as_str()).len() == 0 {
        Err(CgroupError::Malformed)
    } else {
        Ok(())
    }
}

/// What to do with the next active cgroup path.
#[derive(Debug, Clone, PartialEq, Eq)]
pub enum GroupPlan {
    /// Read the group's files under this directory.
    Read { directory: String },
    /// The path lies outside the mount root: counted and skipped.
    Skip,
    /// The budget is spent: the walk stops here.
    Stop,
}

/// Decides the next step of the walk over the active paths: a path outside
/// the mount root is counted as rejected and skipped; otherwise, once the
/// budget is exhausted, the walk stops and records it; otherwise the group
/// is read from its directory.
pub fn plan_group(
    mount: &Cgroup2Mount,
    path: &str,
    budget: &SnapshotBudget,
    issues: &mut CgroupCollectionIssues,
) -> (p: GroupPlan)
    ensures
        !below_root(path@, mount.root@) ==> p == GroupPlan::Skip && *final(issues) == (
        CgroupCollectionIssues { path_rejected: bump(old(issues).path_rejected), ..*old(issues) }),
        below_root(path@, mount.root@) && budget.exhausted ==> p == GroupPlan::Stop && *final(issues)
            == (CgroupCollectionIssues { budget_exhausted: true, ..*old(issues) }),
        below_root(path@, mount.root@) && !budget.exhausted ==> (p matches GroupPlan::Read {
            directory,
        } && directory@ == directory_of(mount.mount_point@, relative_part(path@, mount.root@)))
            && *final(issues) == *old(issues),
{
    match cgroup_directory(mount, path) {
        Err(_) => {
            issues.path_rejected = if issues.path_rejected == u32::MAX {
                issues.path_rejected
            } else {
                issues.path_rejected + 1
            };
            GroupPlan::Skip
        },
        Ok(directory) => if budget.exhausted {
            issues.budget_exhausted = true;
            GroupPlan::Stop
        } else {
            GroupPlan::Read { directory }
        },
    }
}

/// The budget bounds a snapshot: a read is permitted only while fewer than
/// `MAX_CGROUP_READ_ATTEMPTS` were made and one more whole file still fits
/// `MAX_CGROUP_SNAPSHOT_BYTES`, so a budget that starts empty and is charged
/// at most `MAX_CGROUP_FILE_BYTES` per permitted read never exceeds either
/// bound.
pub proof fn lemma_budget_bounds(b: SnapshotBudget, bytes: u64)
    requires
        b.reads <= MAX_CGROUP_READ_ATTEMPTS,
        b.bytes <= MAX_CGROUP_SNAPSHOT_BYTES,
        b.reads < MAX_CGROUP_READ_ATTEMPTS && b.bytes + MAX_CGROUP_FILE_BYTES <= MAX_CGROUP_SNAPSHOT_BYTES,
        bytes <= MAX_CGROUP_FILE_BYTES,
    ensures
        b.reads + 1 <= MAX_CGROUP_READ_ATTEMPTS,
        b.bytes + bytes <= MAX_CGROUP_SNAPSHOT_BYTES,
{
}

/// A snapshot's members come from at most `MAX_CGROUP_PROCESSES` processes:
/// keeping the lowest PIDs never holds more than the bound.
pub proof fn lemma_member_pids_bounded(s: Seq<u32>, pid: u32)
    requires
        s.len() <= MAX_CGROUP_PROCESSES,
    ensures
        keep_lowest_within(s, pid, MAX_CGROUP_PROCESSES as nat).0.len() <= MAX_CGROUP_PROCESSES,
{
    lemma_insert_ascending_len(s, pid);
    if s.len() > 0 {
        lemma_insert_ascending_len(s.drop_last(), pid);
    }
}


proof fn lemma_insert_ascending_len(s: Seq<u32>, x: u32)
    ensures
        insert_ascending(s, x).len() == s.len() + 1,
    decreases s.len(),
{
    if s.len() > 0 {
        lemma_insert_ascending_len(s.drop_first(), x);
    }
}



/// Storing a member keeps the members strictly ordered by key: starting from
/// none, as a snapshot does, no process is ever a member twice.  The stored
/// member is present afterwards, and every other member was present before.
pub proof fn lemma_insert_member_keeps_order(s: Seq<CgroupProcessMember>, m: CgroupProcessMember)
    requires
        members_sorted(s),
    ensures
        members_sorted(insert_member(s, m)),
        insert_member(s, m).contains(m),
        forall|x: CgroupProcessMember| #[trigger] insert_member(s, m).contains(x) ==> x == m || s.contains(x),
    decreases s.len(),
{
    let r = insert_member(s, m);
    if s.len() == 0 {
        assert(r[0] == m);
        assert forall|x: CgroupProcessMember| #[trigger] r.contains(x) implies x == m || s.contains(x) by {
            let i = choose|i: int| 0 <= i < r.len() && r[i] == x;
            assert(i == 0);
        }
    } else if key_lt(m.key, s[0].key) {
        assert(r =~= seq![m] + s);
        assert(r[0] == m);
        assert forall|i: int, j: int| 0 <= i < j < r.len() implies key_lt(#[trigger] r[i].key, #[trigger] r[j].key) by {
            if i == 0 {
                assert(r[j] == s[j - 1]);
                if j - 1 > 0 {
                    assert(key_lt(s[0].key, s[j - 1].key));
                }
            } else {
                assert(r[i] == s[i - 1] && r[j] == s[j - 1]);
            }
        }
        assert forall|x: CgroupProcessMember| #[trigger] r.contains(x) implies x == m || s.contains(x) by {
            let i = choose|i: int| 0 <= i < r.len() && r[i] == x;
            if i > 0 {
                assert(s[i - 1] == x);
            }
        }
    } else if m.key == s[0].key {
        assert(r =~= seq![m] + s.drop_first());
        assert(r[0] == m);
        assert forall|i: int, j: int| 0 <= i < j < r.len() implies key_lt(#[trigger] r[i].key, #[trigger] r[j].key) by {
            if i == 0 {
                assert(r[j] == s[j]);
            } else {
                assert(r[i] == s[i] && r[j] == s[j]);
            }
        }
        assert forall|x: CgroupProcessMember| #[trigger] r.contains(x) implies x == m || s.contains(x) by {
            let i = choose|i: int| 0 <= i < r.len() && r[i] == x;
            if i > 0 {
                assert(s[i] == x);
            }
        }
    } else {
        let t = s.drop_first();
        assert forall|i: int, j: int| 0 <= i < j < t.len() implies key_lt(#[trigger] t[i].key, #[trigger] t[j].key) by {
            assert(t[i] == s[i + 1] && t[j] == s[j + 1]);
        }
        lemma_insert_member_keeps_order(t, m);
        let rt = insert_member(t, m);
        assert(r =~= seq![s[0]] + rt);
        assert(key_lt(s[0].key, m.key));
        assert forall|i: int, j: int| 0 <= i < j < r.len() implies key_lt(#[trigger] r[i].key, #[trigger] r[j].key) by {
            if i == 0 {
                let y = rt[j - 1];
                assert(r[j] == y);
                assert(rt.contains(y));
                if y != m {
                    assert(t.contains(y));
                    let q = choose|q: int| 0 <= q < t.len() && t[q] == y;
                    assert(s[q + 1] == y);
                }
            } else {
                assert(r[i] == rt[i - 1] && r[j] == rt[j - 1]);
            }
        }
        let q = choose|q: int| 0 <= q < rt.len() && rt[q] == m;
        assert(r[q + 1] == m);
        assert forall|x: CgroupProcessMember| #[trigger] r.contains(x) implies x == m || s.contains(x) by {
            let i = choose|i: int| 0 <= i < r.len() && r[i] == x;
            if i == 0 {
                assert(s[0] == x);
            } else {
                assert(rt[i - 1] == x);
                assert(rt.contains(x));
                if x != m {
                    let q2 = choose|q2: int| 0 <= q2 < t.len() && t[q2] == x;
                    assert(s[q2 + 1] == x);
                }
            }
        }
    }
}

} // verus!
