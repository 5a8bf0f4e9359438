//! Bounded procfs block-I/O context.  This is raw activity context, not an
//! I/O bottleneck verdict or a causal attribution model.

use vstd::prelude::*;
use crate::process::{key_less, key_lt, parse_process_stat, process_stat_spec, ProcessKey, ProcessStat};
use crate::ranking::{insert_ranked, lemma_insert_ranked_at, ranked_by};
use crate::read_error::ReadErrorKind;
use crate::text::{
    all_digits, blank, chars_of, eq_lit, fields_of, is_blank, lines_of, parse_u32,
    parse_u32_chars, parse_u64, parse_u64_chars, seqs_of, split_fields, split_lines, split_once,
    split_once_char, trim, trim_chars, selected_lines_valid, selected_values, slot_value,
    lemma_selected_values_are_slot_values,
};

verus! {

/// Each endpoint selects at most this many processes.
pub const MAX_PROCESSES: usize = 1024;

/// At most this many block devices are kept, the lowest identities first.
pub const MAX_DEVICES: usize = 4096;

/// `/proc/diskstats` larger than this is rejected as malformed.
pub const MAX_DISKSTATS_BYTES: u64 = 1048576;

/// A block device's stable identity.
#[derive(Debug, Clone, Copy, PartialEq, Eq, Structural, PartialOrd, Ord, Hash)]
pub struct BlockDeviceKey {
    pub major: u32,
    pub minor: u32,
}

/// The order of device identities: by major, then minor number.
pub open spec fn dkey_lt(a: BlockDeviceKey, b: BlockDeviceKey) -> bool {
    a.major < b.major || (a.major == b.major && a.minor < b.minor)
}

fn dkey_less(a: BlockDeviceKey, b: BlockDeviceKey) -> (r: bool)
    ensures
        r == dkey_lt(a, b),
{
    a.major < b.major || (a.major == b.major && a.minor < b.minor)
}

#[derive(Debug, Clone, PartialEq, Eq)]
pub struct DiskstatsRaw {
    pub key: BlockDeviceKey,
    /// Presentation metadata only; major/minor is the stable identity.
    pub name: String,
    pub reads_completed: u64,
    /// Kernel diskstats sectors: raw 512-byte sector units, not bytes.
    pub sectors_read_512: u64,
    pub writes_completed: u64,
    /// Kernel diskstats sectors: raw 512-byte sector units, not bytes.
    pub sectors_written_512: u64,
    pub io_ticks_ms: u64,
    pub weighted_io_ticks_ms: u64,
    /// Endpoint gauge, not an interval counter.
    pub in_flight: u64,
}

/// A device record as plain values: identity, name, then reads completed,
/// sectors read, writes completed, sectors written, I/O ticks, weighted I/O
/// ticks and requests in flight.
pub type DiskEntry = (BlockDeviceKey, Seq<char>, Seq<u64>);

pub open spec fn disk_entry(r: DiskstatsRaw) -> DiskEntry {
    (
        r.key,
        r.name@,
        seq![
            r.reads_completed,
            r.sectors_read_512,
            r.writes_completed,
            r.sectors_written_512,
            r.io_ticks_ms,
            r.weighted_io_ticks_ms,
            r.in_flight,
        ],
    )
}

pub open spec fn disk_entries(s: Seq<DiskstatsRaw>) -> Seq<DiskEntry> {
    s.map_values(|r: DiskstatsRaw| disk_entry(r))
}

#[derive(Debug, Clone, Copy, Default, PartialEq, Eq, Structural)]
pub struct DiskstatsCollectionIssues {
    pub limit_reached: bool,
}

/// The devices of one diskstats read, ordered by identity without repeats.
#[derive(Debug, Clone, PartialEq, Eq)]
pub struct DiskstatsSnapshot {
    pub devices: Vec<DiskstatsRaw>,
    pub issues: DiskstatsCollectionIssues,
}

#[derive(Debug, Clone, Copy, PartialEq, Eq, Structural)]
pub enum IoCapability {
    Available,
    Partial,
    Unsupported,
    PermissionDenied,
    Failed,
}

pub open spec fn io_capability_name(c: IoCapability) -> &'static str {
    match c {
        IoCapability::Available => "available",
        IoCapability::Partial => "partial",
        IoCapability::Unsupported => "unsupported",
        IoCapability::PermissionDenied => "permission_denied",
        IoCapability::Failed => "failed",
    }
}

impl IoCapability {
    pub fn as_str(self) -> (s: &'static str)
        ensures
            s == io_capability_name(self),
    {
        match self {
            IoCapability::Available => "available",
            IoCapability::Partial => "partial",
            IoCapability::Unsupported => "unsupported",
            IoCapability::PermissionDenied => "permission_denied",
            IoCapability::Failed => "failed",
        }
    }
}

#[derive(Debug, Clone, Copy, PartialEq, Eq, Structural)]
pub struct IoCapabilities {
    pub diskstats: IoCapability,
    pub process_io: IoCapability,
}

#[derive(Debug, Clone, Copy, PartialEq, Eq, Structural)]
pub enum DiskstatsError {
    Unsupported,
    PermissionDenied,
    Unreadable,
    Malformed,
    EmptyInterval,
}

pub open spec fn disk_error_capability(e: DiskstatsError) -> IoCapability {
    match e {
        DiskstatsError::Unsupported => IoCapability::Unsupported,
        DiskstatsError::PermissionDenied => IoCapability::PermissionDenied,
        _ => IoCapability::Failed,
    }
}

impl DiskstatsError {
    pub fn capability(self) -> (c: IoCapability)
        ensures
            c == disk_error_capability(self),
    {
        match self {
            DiskstatsError::Unsupported => IoCapability::Unsupported,
            DiskstatsError::PermissionDenied => IoCapability::PermissionDenied,
            _ => IoCapability::Failed,
        }
    }
}

/// How a failed diskstats open is reported.
pub fn classify_diskstats_error(kind: ReadErrorKind) -> (e: DiskstatsError)
    ensures
        e == match kind {
            ReadErrorKind::NotFound => DiskstatsError::Unsupported,
            ReadErrorKind::PermissionDenied => DiskstatsError::PermissionDenied,
            ReadErrorKind::Other => DiskstatsError::Unreadable,
        },
{
    match kind {
        ReadErrorKind::NotFound => DiskstatsError::Unsupported,
        ReadErrorKind::PermissionDenied => DiskstatsError::PermissionDenied,
        ReadErrorKind::Other => DiskstatsError::Unreadable,
    }
}

/// What a diskstats read says about the capability: a read that hit the
/// device bound is partial, another successful read available, and a failed
/// read reports its error's capability.
pub fn diskstats_probe_capability(read: &Result<DiskstatsSnapshot, DiskstatsError>) -> (c: IoCapability)
    ensures
        c == match read {
            Ok(s) => if s.issues.limit_reached {
                IoCapability::Partial
            } else {
                IoCapability::Available
            },
            Err(e) => disk_error_capability(*e),
        },
{
    match read {
        Ok(s) => if s.issues.limit_reached {
            IoCapability::Partial
        } else {
            IoCapability::Available
        },
        Err(e) => e.capability(),
    }
}

/// A count clamped to `u32`.
pub open spec fn count_clamped(n: nat) -> u32 {
    if n > u32::MAX {
        u32::MAX
    } else {
        n as u32
    }
}

pub fn count_u32(value: usize) -> (r: u32)
    ensures
        r == count_clamped(value as nat),
{
    if value > 4294967295usize {
        u32::MAX
    } else {
        value as u32
    }
}

// ---------------------------------------------------------------------------
// Parsing /proc/diskstats
// ---------------------------------------------------------------------------

/// Devices strictly ordered by identity.
pub open spec fn keys_sorted(s: Seq<DiskEntry>) -> bool {
    forall|i: int, j: int| 0 <= i < j < s.len() ==> dkey_lt(#[trigger] s[i].0, #[trigger] s[j].0)
}

pub open spec fn has_disk_key(s: Seq<DiskEntry>, k: BlockDeviceKey) -> bool {
    exists|i: int| 0 <= i < s.len() && #[trigger] s[i].0 == k
}

/// Inserts `d` in identity order, replacing an entry with the same identity.
pub open spec fn sorted_insert(s: Seq<DiskEntry>, d: DiskEntry) -> Seq<DiskEntry>
    decreases s.len(),
{
    if s.len() == 0 {
        seq![d]
    } else if dkey_lt(d.0, s[0].0) {
        seq![d] + s
    } else if d.0 == s[0].0 {
        seq![d] + s.drop_first()
    } else {
        seq![s[0]] + sorted_insert(s.drop_first(), d)
    }
}

/// Keeps the `MAX_DEVICES` lowest identities: below the bound `d` is added;
/// at the bound it displaces the highest identity if it is lower, otherwise
/// it is dropped.  The flag tells whether the bound was met.
pub open spec fn insert_lowest(s: Seq<DiskEntry>, d: DiskEntry) -> (Seq<DiskEntry>, bool) {
    if s.len() < MAX_DEVICES {
        (sorted_insert(s, d), false)
    } else if s.len() > 0 && dkey_lt(d.0, s.last().0) {
        (sorted_insert(s.drop_last(), d), true)
    } else {
        (s, true)
    }
}

/// The fields of a diskstats line that this crate keeps, when the line has a
/// numeric identity, a name and at least the eleven historic counters.
pub open spec fn disk_fields(line: Seq<char>) -> Option<DiskEntry> {
    let f = fields_of(line);
    if f.len() >= 14 && parse_u32(f[0]) is Some && parse_u32(f[1]) is Some && f[2].len() > 0
        && forall|j: int| 3 <= j < 14 ==> #[trigger] parse_u64(f[j]) is Some {
        Some(
            (
                BlockDeviceKey { major: parse_u32(f[0])->0, minor: parse_u32(f[1])->0 },
                f[2],
                seq![
                    parse_u64(f[3])->0,
                    parse_u64(f[5])->0,
                    parse_u64(f[7])->0,
                    parse_u64(f[9])->0,
                    parse_u64(f[12])->0,
                    parse_u64(f[13])->0,
                    parse_u64(f[11])->0,
                ],
            ),
        )
    } else {
        None
    }
}

/// The devices and limit flag after the given lines; `None` once a line is
/// malformed or repeats a kept identity.
pub open spec fn diskstats_state(lines: Seq<Seq<char>>) -> Option<(Seq<DiskEntry>, bool)>
    decreases lines.len(),
{
    if lines.len() == 0 {
        Some((Seq::empty(), false))
    } else {
        match diskstats_state(lines.drop_last()) {
            None => None,
            Some((devs, limited)) => {
                let line = lines.last();
                if is_blank(line) {
                    Some((devs, limited))
                } else {
                    match disk_fields(line) {
                        None => None,
                        Some(d) => if has_disk_key(devs, d.0) {
                            None
                        } else {
                            let (next, hit) = insert_lowest(devs, d);
                            Some((next, limited || hit))
                        },
                    }
                }
            },
        }
    }
}

proof fn lemma_diskstats_stay_none(lines: Seq<Seq<char>>, k: int)
    requires
        0 <= k <= lines.len(),
        diskstats_state(lines.take(k)) is None,
    ensures
        diskstats_state(lines) is None,
    decreases lines.len() - k,
{
    if k == lines.len() {
        assert(lines.take(k) =~= lines);
    } else {
        assert(lines.take(k + 1).drop_last() =~= lines.take(k));
        lemma_diskstats_stay_none(lines, k + 1);
    }
}

/// `/proc/diskstats` as this crate reads it: the kept devices and whether the
/// device bound was met; `None` when malformed or when no device was listed.
pub open spec fn diskstats_spec(input: Seq<char>) -> Option<(Seq<DiskEntry>, bool)> {
    match diskstats_state(lines_of(input)) {
        Some((devs, limited)) => if devs.len() > 0 {
            Some((devs, limited))
        } else {
            None
        },
        None => None,
    }
}

proof fn lemma_sorted_insert_at(s: Seq<DiskEntry>, d: DiskEntry, p: int)
    requires
        keys_sorted(s),
        0 <= p <= s.len(),
        forall|k: int| 0 <= k < p ==> dkey_lt(#[trigger] s[k].0, d.0),
        p < s.len() ==> !dkey_lt(s[p].0, d.0),
    ensures
        p < s.len() && s[p].0 == d.0 ==> sorted_insert(s, d) == s.update(p, d),
        !(p < s.len() && s[p].0 == d.0) ==> sorted_insert(s, d) == s.insert(p, d),
    decreases p,
{
    if p == 0 {
        if s.len() == 0 {
            assert(sorted_insert(s, d) =~= s.insert(0, d));
        } else if s[0].0 == d.0 {
            assert(sorted_insert(s, d) =~= s.update(0, d));
        } else {
            assert(dkey_lt(d.0, s[0].0));
            assert(sorted_insert(s, d) =~= s.insert(0, d));
        }
    } else {
        assert(dkey_lt(s[0].0, d.0));
        let t = s.drop_first();
        assert forall|i: int, j: int| 0 <= i < j < t.len() implies dkey_lt(
            #[trigger] t[i].0,
            #[trigger] t[j].0,
        ) by {
            assert(t[i] == s[i + 1] && t[j] == s[j + 1]);
        }
        assert forall|k: int| 0 <= k < p - 1 implies dkey_lt(#[trigger] t[k].0, d.0) by {
            assert(t[k] == s[k + 1]);
        }
        lemma_sorted_insert_at(t, d, p - 1);
        if p < s.len() && s[p].0 == d.0 {
            assert(sorted_insert(s, d) =~= s.update(p, d));
        } else {
            assert(sorted_insert(s, d) =~= s.insert(p, d));
        }
    }
}

fn raw_of(key: BlockDeviceKey, name: &[char], nums: &Vec<u64>) -> (r: DiskstatsRaw)
    requires
        nums@.len() == 11,
    ensures
        disk_entry(r) == (
            key,
            name@,
            seq![nums@[0], nums@[2], nums@[4], nums@[6], nums@[9], nums@[10], nums@[8]],
        ),
{
    let r = DiskstatsRaw {
        key,
        name: crate::text::string_of(name),
        reads_completed: nums[0],
        sectors_read_512: nums[2],
        writes_completed: nums[4],
        sectors_written_512: nums[6],
        io_ticks_ms: nums[9],
        weighted_io_ticks_ms: nums[10],
        in_flight: nums[8],
    };
    assert(disk_entry(r).2 =~= seq![nums@[0], nums@[2], nums@[4], nums@[6], nums@[9], nums@[10], nums@[8]]);
    r
}

fn disk_fields_of(line: &[char]) -> (out: Option<DiskstatsRaw>)
    ensures
        match out {
            Some(r) => disk_fields(line@) == Some(disk_entry(r)),
            None => disk_fields(line@) is None,
        },
{
    let f = split_fields(line);
    let ghost fs = seqs_of(f@);
    assert(fs == fields_of(line@));
    if f.len() < 14 {
        return None;
    }
    let major = match parse_u32_chars(&f[0]) {
        Some(v) => v,
        None => return None,
    };
    let minor = match parse_u32_chars(&f[1]) {
        Some(v) => v,
        None => return None,
    };
    if f[2].len() == 0 {
        return None;
    }
    let mut nums: Vec<u64> = Vec::new();
    let mut j: usize = 3;
    while j < 14
        invariant
            3 <= j <= 14,
            f@.len() >= 14,
            fs == seqs_of(f@),
            fs == fields_of(line@),
            nums@.len() == j - 3,
            forall|k: int| 3 <= k < j ==> #[trigger] parse_u64(fs[k]) == Some(nums@[k - 3]),
        decreases 14 - j,
    {
        match parse_u64_chars(&f[j]) {
            Some(v) => {
                nums.push(v);
            },
            None => {
                assert(parse_u64(fs[j as int]) is None);
                return None;
            },
        }
        j += 1;
    }
    let key = BlockDeviceKey { major, minor };
    let r = raw_of(key, &f[2], &nums);
    assert(parse_u64(fs[3]) == Some(nums@[0]));
    assert(parse_u64(fs[5]) == Some(nums@[2]));
    assert(parse_u64(fs[7]) == Some(nums@[4]));
    assert(parse_u64(fs[9]) == Some(nums@[6]));
    assert(parse_u64(fs[11]) == Some(nums@[8]));
    assert(parse_u64(fs[12]) == Some(nums@[9]));
    assert(parse_u64(fs[13]) == Some(nums@[10]));
    Some(r)
}

fn find_disk(devices: &Vec<DiskstatsRaw>, k: BlockDeviceKey) -> (out: Option<usize>)
    ensures
        match out {
            Some(i) => i < devices@.len() && devices@[i as int].key == k,
            None => !has_disk_key(disk_entries(devices@), k),
        },
{
    let mut i: usize = 0;
    while i < devices.len()
        invariant
            i <= devices.len(),
            forall|j: int| 0 <= j < i ==> devices@[j].key != k,
        decreases devices.len() - i,
    {
        if devices[i].key == k {
            return Some(i);
        }
        i += 1;
    }
    assert(!has_disk_key(disk_entries(devices@), k)) by {
        if has_disk_key(disk_entries(devices@), k) {
            let j = choose|j: int| 0 <= j < devices@.len() && #[trigger] disk_entries(devices@)[j].0 == k;
            assert(devices@[j].key == k);
        }
    }
    None
}

/// Inserts a device in identity order, replacing one with the same identity.
fn insert_sorted_device(devices: &mut Vec<DiskstatsRaw>, raw: DiskstatsRaw)
    requires
        keys_sorted(disk_entries(old(devices)@)),
    ensures
        disk_entries(final(devices)@) == sorted_insert(disk_entries(old(devices)@), disk_entry(raw)),
{
    let ghost before = disk_entries(devices@);
    let ghost d = disk_entry(raw);
    let mut p: usize = 0;
    while p < devices.len() && dkey_less(devices[p].key, raw.key)
        invariant
            p <= devices.len(),
            disk_entries(devices@) == before,
            d == disk_entry(raw),
            forall|k: int| 0 <= k < p ==> dkey_lt(#[trigger] before[k].0, d.0),
        decreases devices.len() - p,
    {
        assert(before[p as int].0 == devices@[p as int].key);
        p += 1;
    }
    proof {
        if p < before.len() {
            assert(before[p as int].0 == devices@[p as int].key);
        }
        lemma_sorted_insert_at(before, d, p as int);
    }
    if p < devices.len() && devices[p].key == raw.key {
        let ghost old_v = devices@;
        devices.set(p, raw);
        assert(disk_entries(devices@) =~= before.update(p as int, d));
    } else {
        let ghost old_v = devices@;
        devices.insert(p, raw);
        assert(disk_entries(devices@) =~= before.insert(p as int, d));
    }
}

proof fn lemma_sorted_insert_sorted(s: Seq<DiskEntry>, d: DiskEntry)
    requires
        keys_sorted(s),
    ensures
        keys_sorted(sorted_insert(s, d)),
        forall|k: BlockDeviceKey| #[trigger] has_disk_key(sorted_insert(s, d), k) <==> (has_disk_key(s, k) || k == d.0),
        sorted_insert(s, d).len() == if has_disk_key(s, d.0) { s.len() } else { s.len() + 1 },
    decreases s.len(),
{
    if s.len() == 0 {
        let r = sorted_insert(s, d);
        assert forall|k: BlockDeviceKey| #[trigger] has_disk_key(r, k) <==> (has_disk_key(s, k) || k == d.0) by {
            if k == d.0 {
                assert(r[0].0 == k);
            }
        }
    } else {
        let t = s.drop_first();
        assert forall|i: int, j: int| 0 <= i < j < t.len() implies dkey_lt(
            #[trigger] t[i].0,
            #[trigger] t[j].0,
        ) by {
            assert(t[i] == s[i + 1] && t[j] == s[j + 1]);
        }
        lemma_sorted_insert_sorted(t, d);
        let r = sorted_insert(s, d);
        assert forall|k: BlockDeviceKey| has_disk_key(s, k) <==> (k == s[0].0 || has_disk_key(t, k)) by {
            if has_disk_key(s, k) {
                let i = choose|i: int| 0 <= i < s.len() && #[trigger] s[i].0 == k;
                if i > 0 {
                    assert(t[i - 1].0 == k);
                }
            }
            if has_disk_key(t, k) {
                let i = choose|i: int| 0 <= i < t.len() && #[trigger] t[i].0 == k;
                assert(s[i + 1].0 == k);
            }
            if k == s[0].0 {
                assert(s[0].0 == k);
            }
        }
        if dkey_lt(d.0, s[0].0) {
            assert(!has_disk_key(s, d.0)) by {
                if has_disk_key(s, d.0) {
                    let i = choose|i: int| 0 <= i < s.len() && #[trigger] s[i].0 == d.0;
                    if i > 0 {
                        assert(dkey_lt(s[0].0, s[i].0));
                    }
                }
            }
            assert forall|i: int, j: int| 0 <= i < j < r.len() implies dkey_lt(
                #[trigger] r[i].0,
                #[trigger] r[j].0,
            ) by {
                if i == 0 {
                    assert(r[j] == s[j - 1]);
                    if j - 1 > 0 {
                        assert(dkey_lt(s[0].0, s[j - 1].0));
                    }
                } else {
                    assert(r[i] == s[i - 1] && r[j] == s[j - 1]);
                }
            }
            assert forall|k: BlockDeviceKey| #[trigger] has_disk_key(r, k) <==> (has_disk_key(s, k) || k == d.0) by {
                if has_disk_key(r, k) {
                    let i = choose|i: int| 0 <= i < r.len() && #[trigger] r[i].0 == k;
                    if i > 0 {
                        assert(s[i - 1].0 == k);
                    }
                }
                if has_disk_key(s, k) {
                    let i = choose|i: int| 0 <= i < s.len() && #[trigger] s[i].0 == k;
                    assert(r[i + 1].0 == k);
                }
                if k == d.0 {
                    assert(r[0].0 == k);
                }
            }
        } else if d.0 == s[0].0 {
            assert forall|i: int, j: int| 0 <= i < j < r.len() implies dkey_lt(
                #[trigger] r[i].0,
                #[trigger] r[j].0,
            ) by {
                if i == 0 {
                    assert(r[j] == s[j]);
                    assert(dkey_lt(s[0].0, s[j].0));
                } else {
                    assert(r[i] == s[i] && r[j] == s[j]);
                }
            }
            assert forall|k: BlockDeviceKey| #[trigger] has_disk_key(r, k) <==> (has_disk_key(s, k) || k == d.0) by {
                if has_disk_key(r, k) {
                    let i = choose|i: int| 0 <= i < r.len() && #[trigger] r[i].0 == k;
                    if i > 0 {
                        assert(s[i].0 == k);
                    }
                }
                if has_disk_key(s, k) {
                    let i = choose|i: int| 0 <= i < s.len() && #[trigger] s[i].0 == k;
                    if i > 0 {
                        assert(r[i].0 == k);
                    } else {
                        assert(r[0].0 == k);
                    }
                }
                if k == d.0 {
                    assert(r[0].0 == k);
                }
            }
        } else {
            let rt = sorted_insert(t, d);
            assert(r =~= seq![s[0]] + rt);
            assert(has_disk_key(t, d.0) <==> has_disk_key(s, d.0));
            assert forall|i: int, j: int| 0 <= i < j < r.len() implies dkey_lt(
                #[trigger] r[i].0,
                #[trigger] r[j].0,
            ) by {
                if i == 0 {
                    assert(r[j] == rt[j - 1]);
                    assert(has_disk_key(rt, rt[j - 1].0));
                    if rt[j - 1].0 != d.0 {
                        assert(has_disk_key(t, rt[j - 1].0));
                        let m = choose|m: int| 0 <= m < t.len() && #[trigger] t[m].0 == rt[j - 1].0;
                        assert(s[m + 1] == t[m]);
                    } else {
                        assert(dkey_lt(s[0].0, d.0) || s[0].0 == d.0 || dkey_lt(d.0, s[0].0));
                    }
                } else {
                    assert(r[i] == rt[i - 1] && r[j] == rt[j - 1]);
                }
            }
            assert forall|k: BlockDeviceKey| #[trigger] has_disk_key(r, k) <==> (has_disk_key(s, k) || k == d.0) by {
                if has_disk_key(r, k) {
                    let i = choose|i: int| 0 <= i < r.len() && #[trigger] r[i].0 == k;
                    if i > 0 {
                        assert(rt[i - 1].0 == k);
                        assert(has_disk_key(rt, k));
                    }
                }
                if has_disk_key(rt, k) {
                    let i = choose|i: int| 0 <= i < rt.len() && #[trigger] rt[i].0 == k;
                    assert(r[i + 1].0 == k);
                }
                if k == s[0].0 {
                    assert(r[0].0 == k);
                }
            }
        }
    }
}


/// Keeps the `MAX_DEVICES` lowest device identities: below the bound the
/// device is added (replacing one with the same identity); at the bound it
/// displaces the highest identity when lower, otherwise it is dropped.  Either
/// way at the bound the limit is recorded.
pub fn insert_lowest_device(
    devices: &mut Vec<DiskstatsRaw>,
    raw: DiskstatsRaw,
    issues: &mut DiskstatsCollectionIssues,
)
    requires
        keys_sorted(disk_entries(old(devices)@)),
    ensures
        keys_sorted(disk_entries(final(devices)@)),
        disk_entries(final(devices)@) == insert_lowest(
            disk_entries(old(devices)@),
            disk_entry(raw),
        ).0,
        final(issues).limit_reached == (old(issues).limit_reached || insert_lowest(
            disk_entries(old(devices)@),
            disk_entry(raw),
        ).1),
        old(devices)@.len() <= MAX_DEVICES ==> final(devices)@.len() <= MAX_DEVICES,
{
    let ghost before = disk_entries(devices@);
    let ghost d = disk_entry(raw);
    proof {
        if before.len() <= MAX_DEVICES {
            lemma_insert_lowest_bounded(before, d);
        }
    }
    if devices.len() < MAX_DEVICES {
        proof {
            lemma_sorted_insert_sorted(before, d);
        }
        insert_sorted_device(devices, raw);
    } else if devices.len() > 0 && dkey_less(raw.key, devices[devices.len() - 1].key) {
        let _ = devices.pop();
        assert(disk_entries(devices@) =~= before.drop_last());
        proof {
            lemma_sorted_insert_sorted(before.drop_last(), d);
        }
        insert_sorted_device(devices, raw);
        issues.limit_reached = true;
    } else {
        issues.limit_reached = true;
    }
}

/// Parses `/proc/diskstats`.  Every non-blank line needs a numeric identity,
/// a name and at least the eleven historic counters (later fields are
/// ignored); a repeated identity or an empty listing is malformed.  Sector
/// counts stay in raw 512-byte units.
pub fn parse_diskstats(input: &str) -> (out: Result<DiskstatsSnapshot, DiskstatsError>)
    ensures
        match out {
            Ok(s) => diskstats_spec(input@) == Some(
                (disk_entries(s.devices@), s.issues.limit_reached),
            ) && diskstats_wf(s) && 0 < s.devices@.len() <= MAX_DEVICES,
            Err(e) => e == DiskstatsError::Malformed && diskstats_spec(input@) is None,
        },
{
    let chars = chars_of(input);
    let lines = split_lines(&chars);
    let ghost ls = seqs_of(lines@);
    assert(ls == lines_of(input@));
    let mut devices: Vec<DiskstatsRaw> = Vec::new();
    let mut issues = DiskstatsCollectionIssues { limit_reached: false };
    assert(disk_entries(devices@) =~= Seq::<DiskEntry>::empty());
    let mut i: usize = 0;
    while i < lines.len()
        invariant
            i <= lines.len(),
            ls == seqs_of(lines@),
            ls == lines_of(input@),
            keys_sorted(disk_entries(devices@)),
            devices@.len() <= MAX_DEVICES,
            diskstats_state(ls.take(i as int)) == Some(
                (disk_entries(devices@), issues.limit_reached),
            ),
        decreases lines.len() - i,
    {
        assert(ls.take(i + 1).drop_last() =~= ls.take(i as int));
        assert(ls.take(i + 1).last() == lines@[i as int]@);
        let line = &lines[i];
        if !blank(line) {
            match disk_fields_of(line) {
                None => {
                    proof {
                        lemma_diskstats_stay_none(ls, i + 1);
                    }
                    return Err(DiskstatsError::Malformed);
                },
                Some(raw) => {
                    if find_disk(&devices, raw.key).is_some() {
                        proof {
                            let idx = choose|idx: int| 0 <= idx < devices@.len() && devices@[idx].key == raw.key;
                            assert(disk_entries(devices@)[idx].0 == raw.key);
                            lemma_diskstats_stay_none(ls, i + 1);
                        }
                        return Err(DiskstatsError::Malformed);
                    }
                    insert_lowest_device(&mut devices, raw, &mut issues);
                },
            }
        }
        i += 1;
    }
    assert(ls.take(i as int) =~= ls);
    if devices.len() == 0 {
        return Err(DiskstatsError::Malformed);
    }
    Ok(DiskstatsSnapshot { devices, issues })
}


// ---------------------------------------------------------------------------
// Diskstats intervals
// ---------------------------------------------------------------------------

#[derive(Debug, Clone, PartialEq, Eq)]
pub struct DiskstatsInterval {
    pub key: BlockDeviceKey,
    pub name: String,
    pub reads_completed: Option<u64>,
    pub sectors_read_512: Option<u64>,
    pub writes_completed: Option<u64>,
    pub sectors_written_512: Option<u64>,
    pub io_ticks_ms: Option<u64>,
    pub weighted_io_ticks_ms: Option<u64>,
    pub end_in_flight: u64,
}

#[derive(Debug, Clone, Copy, PartialEq, Eq, Structural, PartialOrd, Ord, Hash)]
pub enum DiskstatsCounter {
    ReadsCompleted,
    SectorsRead512,
    WritesCompleted,
    SectorsWritten512,
    IoTicksMs,
    WeightedIoTicksMs,
}

#[derive(Debug, Clone, Copy, PartialEq, Eq, Structural)]
pub struct DiskstatsCounterRegression {
    pub key: BlockDeviceKey,
    pub counter: DiskstatsCounter,
}

#[derive(Debug, Clone, PartialEq, Eq)]
pub struct DiskstatsIntervalIssues {
    pub start_error: Option<DiskstatsError>,
    pub end_error: Option<DiskstatsError>,
    pub appeared: Vec<BlockDeviceKey>,
    pub exited: Vec<BlockDeviceKey>,
    pub identity_changed: Vec<BlockDeviceKey>,
    pub regressed: Vec<DiskstatsCounterRegression>,
    pub limit_reached: bool,
}

/// Block-device activity over an interval of `elapsed_ns` nanoseconds.
#[derive(Debug, Clone, PartialEq, Eq)]
pub struct DiskstatsObservation {
    pub elapsed_ns: u64,
    pub capability: IoCapability,
    pub devices: Vec<DiskstatsInterval>,
    pub issues: DiskstatsIntervalIssues,
}

/// The first device of `s` with identity `k`.
pub open spec fn disk_with_key(s: Seq<DiskstatsRaw>, k: BlockDeviceKey) -> Option<DiskstatsRaw>
    decreases s.len(),
{
    if s.len() == 0 {
        None
    } else if s[0].key == k {
        Some(s[0])
    } else {
        disk_with_key(s.drop_first(), k)
    }
}

/// A regression of one counter, when it decreased.
pub open spec fn regression_if(
    key: BlockDeviceKey,
    counter: DiskstatsCounter,
    start: u64,
    end: u64,
) -> Seq<DiskstatsCounterRegression> {
    if end < start {
        seq![DiskstatsCounterRegression { key, counter }]
    } else {
        Seq::empty()
    }
}

/// The counters of one device that decreased, in counter order.
pub open spec fn disk_regressions(b: DiskstatsRaw, f: DiskstatsRaw) -> Seq<DiskstatsCounterRegression> {
    regression_if(f.key, DiskstatsCounter::ReadsCompleted, b.reads_completed, f.reads_completed)
        + regression_if(f.key, DiskstatsCounter::SectorsRead512, b.sectors_read_512, f.sectors_read_512)
        + regression_if(f.key, DiskstatsCounter::WritesCompleted, b.writes_completed, f.writes_completed)
        + regression_if(
        f.key,
        DiskstatsCounter::SectorsWritten512,
        b.sectors_written_512,
        f.sectors_written_512,
    ) + regression_if(f.key, DiskstatsCounter::IoTicksMs, b.io_ticks_ms, f.io_ticks_ms)
        + regression_if(
        f.key,
        DiskstatsCounter::WeightedIoTicksMs,
        b.weighted_io_ticks_ms,
        f.weighted_io_ticks_ms,
    )
}

/// At least one counter of the device did not decrease.
pub open spec fn any_disk_delta(b: DiskstatsRaw, f: DiskstatsRaw) -> bool {
    b.reads_completed <= f.reads_completed || b.sectors_read_512 <= f.sectors_read_512
        || b.writes_completed <= f.writes_completed || b.sectors_written_512
        <= f.sectors_written_512 || b.io_ticks_ms <= f.io_ticks_ms || b.weighted_io_ticks_ms
        <= f.weighted_io_ticks_ms
}

/// The pass over the end devices: the (start, end) pairs reported, and the
/// appeared, renamed and regressed devices, each in end order.
pub open spec fn disk_pass(start: Seq<DiskstatsRaw>, end: Seq<DiskstatsRaw>) -> (
    Seq<(DiskstatsRaw, DiskstatsRaw)>,
    Seq<BlockDeviceKey>,
    Seq<BlockDeviceKey>,
    Seq<DiskstatsCounterRegression>,
)
    decreases end.len(),
{
    if end.len() == 0 {
        (Seq::empty(), Seq::empty(), Seq::empty(), Seq::empty())
    } else {
        let (pairs, appeared, renamed, regressed) = disk_pass(start, end.drop_last());
        let f = end.last();
        match disk_with_key(start, f.key) {
            None => (pairs, appeared.push(f.key), renamed, regressed),
            Some(b) => if b.name@ != f.name@ {
                (pairs, appeared, renamed.push(f.key), regressed)
            } else {
                (
                    if any_disk_delta(b, f) {
                        pairs.push((b, f))
                    } else {
                        pairs
                    },
                    appeared,
                    renamed,
                    regressed + disk_regressions(b, f),
                )
            },
        }
    }
}

/// The start devices absent at the end, in start order.
pub open spec fn disks_exited(start: Seq<DiskstatsRaw>, end: Seq<DiskstatsRaw>) -> Seq<BlockDeviceKey>
    decreases start.len(),
{
    if start.len() == 0 {
        Seq::empty()
    } else {
        let p = disks_exited(start.drop_last(), end);
        if disk_with_key(end, start.last().key) is None {
            p.push(start.last().key)
        } else {
            p
        }
    }
}

/// `i` reports the checked deltas of one device read as `b` and later `f`.
pub open spec fn disk_interval_is(i: DiskstatsInterval, b: DiskstatsRaw, f: DiskstatsRaw) -> bool {
    &&& i.key == f.key
    &&& i.name@ == f.name@
    &&& i.reads_completed == f.reads_completed.checked_sub(b.reads_completed)
    &&& i.sectors_read_512 == f.sectors_read_512.checked_sub(b.sectors_read_512)
    &&& i.writes_completed == f.writes_completed.checked_sub(b.writes_completed)
    &&& i.sectors_written_512 == f.sectors_written_512.checked_sub(b.sectors_written_512)
    &&& i.io_ticks_ms == f.io_ticks_ms.checked_sub(b.io_ticks_ms)
    &&& i.weighted_io_ticks_ms == f.weighted_io_ticks_ms.checked_sub(b.weighted_io_ticks_ms)
    &&& i.end_in_flight == f.in_flight
}

/// Issues that record only endpoint errors and a limit flag.
pub open spec fn issues_only(
    i: DiskstatsIntervalIssues,
    start_error: Option<DiskstatsError>,
    end_error: Option<DiskstatsError>,
) -> bool {
    &&& i.start_error == start_error
    &&& i.end_error == end_error
    &&& i.appeared@.len() == 0
    &&& i.exited@.len() == 0
    &&& i.identity_changed@.len() == 0
    &&& i.regressed@.len() == 0
    &&& !i.limit_reached
}

/// What a diskstats interval reports for two endpoint reads.
pub open spec fn disk_observation_holds(
    o: DiskstatsObservation,
    start: Result<DiskstatsSnapshot, DiskstatsError>,
    end: Result<DiskstatsSnapshot, DiskstatsError>,
) -> bool {
    match (start, end) {
        (Ok(s), Ok(e)) => {
            let (pairs, appeared, renamed, regressed) = disk_pass(s.devices@, e.devices@);
            let exited = disks_exited(s.devices@, e.devices@);
            let limited = s.issues.limit_reached || e.issues.limit_reached;
            &&& o.devices@.len() == pairs.len()
            &&& forall|k: int|
                0 <= k < pairs.len() ==> disk_interval_is(
                    #[trigger] o.devices@[k],
                    pairs[k].0,
                    pairs[k].1,
                )
            &&& o.issues.start_error is None
            &&& o.issues.end_error is None
            &&& o.issues.appeared@ == appeared
            &&& o.issues.exited@ == exited
            &&& o.issues.identity_changed@ == renamed
            &&& o.issues.regressed@ == regressed
            &&& o.issues.limit_reached == limited
            &&& o.capability == if appeared.len() == 0 && exited.len() == 0 && renamed.len() == 0
                && regressed.len() == 0 && !limited {
                IoCapability::Available
            } else {
                IoCapability::Partial
            }
        },
        (Ok(_), Err(x)) => o.capability == IoCapability::Partial && o.devices@.len() == 0
            && issues_only(o.issues, None, Some(x)),
        (Err(x), Ok(_)) => o.capability == IoCapability::Partial && o.devices@.len() == 0
            && issues_only(o.issues, Some(x), None),
        (Err(x), Err(y)) => o.capability == (if x == y {
            disk_error_capability(x)
        } else {
            IoCapability::Failed
        }) && o.devices@.len() == 0 && issues_only(o.issues, Some(x), Some(y)),
    }
}

fn checked_disk_delta(
    key: BlockDeviceKey,
    counter: DiskstatsCounter,
    start: u64,
    end: u64,
    regressed: &mut Vec<DiskstatsCounterRegression>,
) -> (r: Option<u64>)
    ensures
        r == end.checked_sub(start),
        final(regressed)@ == old(regressed)@ + regression_if(key, counter, start, end),
{
    match end.checked_sub(start) {
        Some(v) => {
            assert(old(regressed)@ + regression_if(key, counter, start, end) =~= old(regressed)@);
            Some(v)
        },
        None => {
            regressed.push(DiskstatsCounterRegression { key, counter });
            assert(final(regressed)@ =~= old(regressed)@ + regression_if(key, counter, start, end)) by {
                assert(regressed@ =~= old(regressed)@ + regression_if(key, counter, start, end));
            }
            None
        },
    }
}

fn find_disk_raw(s: &Vec<DiskstatsRaw>, k: BlockDeviceKey) -> (out: Option<usize>)
    ensures
        match out {
            Some(i) => i < s@.len() && disk_with_key(s@, k) == Some(s@[i as int]),
            None => disk_with_key(s@, k) is None,
        },
{
    let mut i: usize = 0;
    assert(s@.skip(0) =~= s@);
    while i < s.len()
        invariant
            i <= s.len(),
            disk_with_key(s@, k) == disk_with_key(s@.skip(i as int), k),
        decreases s.len() - i,
    {
        assert(s@.skip(i as int).drop_first() =~= s@.skip(i + 1));
        assert(s@.skip(i as int)[0] == s@[i as int]);
        if s[i].key == k {
            return Some(i);
        }
        i += 1;
    }
    None
}

fn empty_disk_issues(
    start_error: Option<DiskstatsError>,
    end_error: Option<DiskstatsError>,
) -> (i: DiskstatsIntervalIssues)
    ensures
        issues_only(i, start_error, end_error),
{
    DiskstatsIntervalIssues {
        start_error,
        end_error,
        appeared: Vec::new(),
        exited: Vec::new(),
        identity_changed: Vec::new(),
        regressed: Vec::new(),
        limit_reached: false,
    }
}

/// Checked per-device deltas between two diskstats reads.  Devices are
/// matched by identity and a renamed identity is never merged; a decreased
/// counter is omitted and recorded, never turned into a delta.  A failed
/// endpoint keeps its error.
pub fn diskstats_interval_from_snapshots(
    start: Result<DiskstatsSnapshot, DiskstatsError>,
    end: Result<DiskstatsSnapshot, DiskstatsError>,
    elapsed_ns: u64,
) -> (r: Result<DiskstatsObservation, DiskstatsError>)
    ensures
        elapsed_ns == 0 ==> r == Err::<DiskstatsObservation, DiskstatsError>(
            DiskstatsError::EmptyInterval,
        ),
        elapsed_ns != 0 ==> match r {
            Ok(o) => o.elapsed_ns == elapsed_ns && disk_observation_holds(o, start, end),
            Err(_) => false,
        },
{
    if elapsed_ns == 0 {
        return Err(DiskstatsError::EmptyInterval);
    }
    let (start, end) = match (start, end) {
        (Ok(s), Ok(e)) => (s, e),
        (Ok(_), Err(x)) => {
            return Ok(
                DiskstatsObservation {
                    elapsed_ns,
                    capability: IoCapability::Partial,
                    devices: Vec::new(),
                    issues: empty_disk_issues(None, Some(x)),
                },
            );
        },
        (Err(x), Ok(_)) => {
            return Ok(
                DiskstatsObservation {
                    elapsed_ns,
                    capability: IoCapability::Partial,
                    devices: Vec::new(),
                    issues: empty_disk_issues(Some(x), None),
                },
            );
        },
        (Err(x), Err(y)) => {
            let capability = if x == y {
                x.capability()
            } else {
                IoCapability::Failed
            };
            return Ok(
                DiskstatsObservation {
                    elapsed_ns,
                    capability,
                    devices: Vec::new(),
                    issues: empty_disk_issues(Some(x), Some(y)),
                },
            );
        },
    };
    let ghost sd = start.devices@;
    let ghost ed = end.devices@;
    let mut devices: Vec<DiskstatsInterval> = Vec::new();
    let mut appeared: Vec<BlockDeviceKey> = Vec::new();
    let mut renamed: Vec<BlockDeviceKey> = Vec::new();
    let mut regressed: Vec<DiskstatsCounterRegression> = Vec::new();
    let mut i: usize = 0;
    while i < end.devices.len()
        invariant
            i <= ed.len(),
            sd == start.devices@,
            ed == end.devices@,
            ({
                let (pairs, app, ren, reg) = disk_pass(sd, ed.take(i as int));
                &&& devices@.len() == pairs.len()
                &&& forall|k: int|
                    0 <= k < pairs.len() ==> disk_interval_is(
                        #[trigger] devices@[k],
                        pairs[k].0,
                        pairs[k].1,
                    )
                &&& appeared@ == app
                &&& renamed@ == ren
                &&& regressed@ == reg
            }),
        decreases ed.len() - i,
    {
        assert(ed.take(i + 1).drop_last() =~= ed.take(i as int));
        assert(ed.take(i + 1).last() == ed[i as int]);
        let f = &end.devices[i];
        match find_disk_raw(&start.devices, f.key) {
            None => {
                appeared.push(f.key);
            },
            Some(j) => {
                let b = &start.devices[j];
                if b.name != f.name {
                    renamed.push(f.key);
                } else {
                    let ghost reg0 = regressed@;
                    let reads_completed = checked_disk_delta(
                        f.key,
                        DiskstatsCounter::ReadsCompleted,
                        b.reads_completed,
                        f.reads_completed,
                        &mut regressed,
                    );
                    let sectors_read_512 = checked_disk_delta(
                        f.key,
                        DiskstatsCounter::SectorsRead512,
                        b.sectors_read_512,
                        f.sectors_read_512,
                        &mut regressed,
                    );
                    let writes_completed = checked_disk_delta(
                        f.key,
                        DiskstatsCounter::WritesCompleted,
                        b.writes_completed,
                        f.writes_completed,
                        &mut regressed,
                    );
                    let sectors_written_512 = checked_disk_delta(
                        f.key,
                        DiskstatsCounter::SectorsWritten512,
                        b.sectors_written_512,
                        f.sectors_written_512,
                        &mut regressed,
                    );
                    let io_ticks_ms = checked_disk_delta(
                        f.key,
                        DiskstatsCounter::IoTicksMs,
                        b.io_ticks_ms,
                        f.io_ticks_ms,
                        &mut regressed,
                    );
                    let weighted_io_ticks_ms = checked_disk_delta(
                        f.key,
                        DiskstatsCounter::WeightedIoTicksMs,
                        b.weighted_io_ticks_ms,
                        f.weighted_io_ticks_ms,
                        &mut regressed,
                    );
                    assert(regressed@ =~= reg0 + disk_regressions(*b, *f));
                    if reads_completed.is_some() || sectors_read_512.is_some()
                        || writes_completed.is_some() || sectors_written_512.is_some()
                        || io_ticks_ms.is_some() || weighted_io_ticks_ms.is_some() {
                        devices.push(
                            DiskstatsInterval {
                                key: f.key,
                                name: f.name.clone(),
                                reads_completed,
                                sectors_read_512,
                                writes_completed,
                                sectors_written_512,
                                io_ticks_ms,
                                weighted_io_ticks_ms,
                                end_in_flight: f.in_flight,
                            },
                        );
                    }
                }
            },
        }
        i += 1;
    }
    assert(ed.take(i as int) =~= ed);
    let mut exited: Vec<BlockDeviceKey> = Vec::new();
    let mut k: usize = 0;
    while k < start.devices.len()
        invariant
            k <= sd.len(),
            sd == start.devices@,
            ed == end.devices@,
            exited@ == disks_exited(sd.take(k as int), ed),
        decreases sd.len() - k,
    {
        assert(sd.take(k + 1).drop_last() =~= sd.take(k as int));
        assert(sd.take(k + 1).last() == sd[k as int]);
        if find_disk_raw(&end.devices, start.devices[k].key).is_none() {
            exited.push(start.devices[k].key);
        }
        k += 1;
    }
    assert(sd.take(k as int) =~= sd);
    let limit_reached = start.issues.limit_reached || end.issues.limit_reached;
    let capability = if appeared.len() == 0 && exited.len() == 0 && renamed.len() == 0
        && regressed.len() == 0 && !limit_reached {
        IoCapability::Available
    } else {
        IoCapability::Partial
    };
    Ok(
        DiskstatsObservation {
            elapsed_ns,
            capability,
            devices,
            issues: DiskstatsIntervalIssues {
                start_error: None,
                end_error: None,
                appeared,
                exited,
                identity_changed: renamed,
                regressed,
                limit_reached,
            },
        },
    )
}


// ---------------------------------------------------------------------------
// Process I/O
// ---------------------------------------------------------------------------

#[derive(Debug, Clone, Copy, PartialEq, Eq, Structural)]
pub struct ProcessIoRaw {
    pub read_bytes: u64,
    /// Bytes charged at page-dirtying time, not proof they reached storage.
    pub write_bytes: u64,
    /// Dirty-byte charges cancelled by truncation; this may cancel I/O charged
    /// to another task, so it is not a safe per-process subtraction.
    pub cancelled_write_bytes: Option<u64>,
    /// Logical bytes read context; not a backing-storage attribution signal.
    pub rchar: Option<u64>,
    /// Logical bytes written context; not a backing-storage attribution signal.
    pub wchar: Option<u64>,
}

#[derive(Debug, Clone, PartialEq, Eq)]
pub struct ProcessIoSample {
    pub name: String,
    pub counters: ProcessIoRaw,
}

#[derive(Debug, Clone, Copy, Default, PartialEq, Eq, Structural)]
pub struct ProcessIoCollectionIssues {
    /// `/proc/<pid>/io` 64-bit counters may tear on 32-bit kernels/userspace.
    pub counter_width_unsupported: bool,
    pub enumeration_failed: bool,
    pub enumeration_errors: u32,
    pub disappeared: u32,
    pub identity_changed: u32,
    pub permission_denied: u32,
    pub unsupported: u32,
    pub unreadable: u32,
    pub malformed: u32,
    pub limit_reached: bool,
    pub appeared: u32,
    pub exited: u32,
    pub reused: u32,
    pub counter_regressed: u32,
}

/// The processes sampled at one endpoint, ordered by process key without
/// repeats.
#[derive(Debug, Clone, PartialEq, Eq)]
pub struct ProcessIoSnapshot {
    pub processes: Vec<(ProcessKey, ProcessIoSample)>,
    pub issues: ProcessIoCollectionIssues,
}

#[derive(Debug, Clone, Copy, PartialEq, Eq, Structural, PartialOrd, Ord, Hash)]
pub enum ProcessIoCounter {
    ReadBytes,
    WriteBytes,
    CancelledWriteBytes,
    Rchar,
    Wchar,
}

#[derive(Debug, Clone, Copy, PartialEq, Eq, Structural)]
pub struct ProcessIoCounterRegression {
    pub key: ProcessKey,
    pub counter: ProcessIoCounter,
}

#[derive(Debug, Clone, PartialEq, Eq)]
pub struct ProcessIoInterval {
    pub key: ProcessKey,
    pub name: String,
    /// Individually available checked deltas.  A regressed field is omitted
    /// without discarding other stable process I/O evidence.
    pub read_bytes: Option<u64>,
    pub write_bytes: Option<u64>,
    pub cancelled_write_bytes: Option<u64>,
    pub rchar: Option<u64>,
    pub wchar: Option<u64>,
}

/// Per-process I/O over an interval of `elapsed_ns` nanoseconds.
#[derive(Debug, Clone, PartialEq, Eq)]
pub struct ProcessIoObservation {
    pub elapsed_ns: u64,
    pub capability: IoCapability,
    pub processes: Vec<ProcessIoInterval>,
    pub issues: ProcessIoCollectionIssues,
    pub regressed: Vec<ProcessIoCounterRegression>,
}

/// Slot of a selected `/proc/<pid>/io` field.
pub open spec fn io_field_slot(name: Seq<char>) -> Option<int> {
    if name == "read_bytes"@ {
        Some(0)
    } else if name == "write_bytes"@ {
        Some(1)
    } else if name == "cancelled_write_bytes"@ {
        Some(2)
    } else if name == "rchar"@ {
        Some(3)
    } else if name == "wchar"@ {
        Some(4)
    } else {
        None
    }
}

/// A selected field's value: after trimming, one or more ASCII digits whose
/// value fits in 64 bits.
pub open spec fn io_value(rest: Seq<char>) -> Option<u64> {
    let v = trim(rest);
    if v.len() > 0 && all_digits(v) {
        parse_u64(v)
    } else {
        None
    }
}

/// Selected values after the given lines; `None` once a non-blank line has no
/// `:`, or a selected field repeats or carries a bad value.
pub open spec fn process_io_slots(lines: Seq<Seq<char>>) -> Option<Seq<Option<u64>>>
    decreases lines.len(),
{
    if lines.len() == 0 {
        Some(Seq::new(5, |i: int| None::<u64>))
    } else {
        match process_io_slots(lines.drop_last()) {
            None => None,
            Some(slots) => {
                let line = lines.last();
                if is_blank(line) {
                    Some(slots)
                } else {
                    match split_once(line, ':') {
                        None => None,
                        Some((name, rest)) => match io_field_slot(name) {
                            None => Some(slots),
                            Some(k) => if slots[k] is Some {
                                None
                            } else {
                                match io_value(rest) {
                                    Some(v) => Some(slots.update(k, Some(v))),
                                    None => None,
                                }
                            },
                        },
                    }
                }
            },
        }
    }
}

proof fn lemma_process_io_stay_none(lines: Seq<Seq<char>>, k: int)
    requires
        0 <= k <= lines.len(),
        process_io_slots(lines.take(k)) is None,
    ensures
        process_io_slots(lines) is None,
    decreases lines.len() - k,
{
    if k == lines.len() {
        assert(lines.take(k) =~= lines);
    } else {
        assert(lines.take(k + 1).drop_last() =~= lines.take(k));
        lemma_process_io_stay_none(lines, k + 1);
    }
}

/// `/proc/<pid>/io` as this crate reads it: `read_bytes` and `write_bytes`
/// are required, the other three selected fields optional.
pub open spec fn process_io_spec(input: Seq<char>) -> Result<ProcessIoRaw, DiskstatsError> {
    match process_io_slots(lines_of(input)) {
        None => Err(DiskstatsError::Malformed),
        Some(v) => if v[0] is None || v[1] is None {
            Err(DiskstatsError::Malformed)
        } else {
            Ok(
                ProcessIoRaw {
                    read_bytes: v[0]->0,
                    write_bytes: v[1]->0,
                    cancelled_write_bytes: v[2],
                    rchar: v[3],
                    wchar: v[4],
                },
            )
        },
    }
}

fn io_field_slot_of(name: &[char]) -> (out: Option<usize>)
    ensures
        match out {
            Some(k) => io_field_slot(name@) == Some(k as int),
            None => io_field_slot(name@) is None,
        },
{
    if eq_lit(name, "read_bytes") {
        Some(0)
    } else if eq_lit(name, "write_bytes") {
        Some(1)
    } else if eq_lit(name, "cancelled_write_bytes") {
        Some(2)
    } else if eq_lit(name, "rchar") {
        Some(3)
    } else if eq_lit(name, "wchar") {
        Some(4)
    } else {
        None
    }
}

fn digits_only(s: &[char]) -> (b: bool)
    ensures
        b == all_digits(s@),
{
    let mut i: usize = 0;
    while i < s.len()
        invariant
            i <= s.len(),
            forall|j: int| 0 <= j < i ==> #[trigger] crate::text::is_digit(s@[j]),
        decreases s.len() - i,
    {
        let v = s[i] as u32;
        if v < 0x30 || v > 0x39 {
            assert(!crate::text::is_digit(s@[i as int]));
            return false;
        }
        i += 1;
    }
    true
}

fn io_value_of(rest: &[char]) -> (out: Option<u64>)
    ensures
        out == io_value(rest@),
{
    let v = trim_chars(rest);
    if v.len() == 0 || !digits_only(&v) {
        return None;
    }
    parse_u64_chars(&v)
}

/// Parses `/proc/<pid>/io`.  `read_bytes` and `write_bytes` must each appear
/// once; every selected value must be plain decimal digits.
pub fn parse_process_io(input: &str) -> (out: Result<ProcessIoRaw, DiskstatsError>)
    ensures
        out == process_io_spec(input@),
{
    let chars = chars_of(input);
    let lines = split_lines(&chars);
    let ghost ls = seqs_of(lines@);
    assert(ls == lines_of(input@));
    let mut slots: Vec<Option<u64>> = vec![None, None, None, None, None];
    assert(slots@ =~= Seq::new(5, |i: int| None::<u64>));
    let mut i: usize = 0;
    while i < lines.len()
        invariant
            i <= lines.len(),
            ls == seqs_of(lines@),
            ls == lines_of(input@),
            process_io_slots(ls.take(i as int)) == Some(slots@),
            slots@.len() == 5,
        decreases lines.len() - i,
    {
        assert(ls.take(i + 1).drop_last() =~= ls.take(i as int));
        assert(ls.take(i + 1).last() == lines@[i as int]@);
        let line = &lines[i];
        if !blank(line) {
            match split_once_char(line, ':') {
                None => {
                    proof {
                        lemma_process_io_stay_none(ls, i + 1);
                    }
                    return Err(DiskstatsError::Malformed);
                },
                Some((name, rest)) => {
                    match io_field_slot_of(&name) {
                        None => {},
                        Some(k) => {
                            if slots[k].is_some() {
                                proof {
                                    lemma_process_io_stay_none(ls, i + 1);
                                }
                                return Err(DiskstatsError::Malformed);
                            }
                            match io_value_of(&rest) {
                                Some(v) => {
                                    slots.set(k, Some(v));
                                },
                                None => {
                                    proof {
                                        lemma_process_io_stay_none(ls, i + 1);
                                    }
                                    return Err(DiskstatsError::Malformed);
                                },
                            }
                        },
                    }
                },
            }
        }
        i += 1;
    }
    assert(ls.take(i as int) =~= ls);
    let read_bytes = match slots[0] {
        Some(v) => v,
        None => return Err(DiskstatsError::Malformed),
    };
    let write_bytes = match slots[1] {
        Some(v) => v,
        None => return Err(DiskstatsError::Malformed),
    };
    Ok(
        ProcessIoRaw {
            read_bytes,
            write_bytes,
            cancelled_write_bytes: slots[2],
            rchar: slots[3],
            wchar: slots[4],
        },
    )
}

/// Some collection problem makes the per-process view incomplete.
pub open spec fn process_issues_partial(i: ProcessIoCollectionIssues) -> bool {
    i.enumeration_errors != 0 || i.disappeared != 0 || i.identity_changed != 0
        || i.permission_denied != 0 || i.unsupported != 0 || i.unreadable != 0 || i.malformed
        != 0 || i.limit_reached || i.appeared != 0 || i.exited != 0 || i.reused != 0
        || i.counter_regressed != 0
}

pub open spec fn process_capability(i: ProcessIoCollectionIssues, any_valid: bool) -> IoCapability {
    if i.counter_width_unsupported {
        IoCapability::Unsupported
    } else if i.enumeration_failed {
        IoCapability::Failed
    } else if any_valid && process_issues_partial(i) {
        IoCapability::Partial
    } else if any_valid {
        IoCapability::Available
    } else if i.permission_denied != 0 {
        IoCapability::PermissionDenied
    } else if i.unsupported != 0 {
        IoCapability::Unsupported
    } else {
        IoCapability::Failed
    }
}

/// The capability of process I/O collection: torn counters make it
/// unsupported outright; otherwise it is partial when some process was read
/// but collection was lossy, and it names the dominant failure when none was.
pub fn process_io_capability(issues: &ProcessIoCollectionIssues, any_valid: bool) -> (c:
    IoCapability)
    ensures
        c == process_capability(*issues, any_valid),
{
    if issues.counter_width_unsupported {
        IoCapability::Unsupported
    } else if issues.enumeration_failed {
        IoCapability::Failed
    } else if any_valid && (issues.enumeration_errors != 0 || issues.disappeared != 0
        || issues.identity_changed != 0 || issues.permission_denied != 0 || issues.unsupported
        != 0 || issues.unreadable != 0 || issues.malformed != 0 || issues.limit_reached
        || issues.appeared != 0 || issues.exited != 0 || issues.reused != 0
        || issues.counter_regressed != 0) {
        IoCapability::Partial
    } else if any_valid {
        IoCapability::Available
    } else if issues.permission_denied != 0 {
        IoCapability::PermissionDenied
    } else if issues.unsupported != 0 {
        IoCapability::Unsupported
    } else {
        IoCapability::Failed
    }
}

pub open spec fn sat_add(a: u32, b: u32) -> u32 {
    if a + b > u32::MAX {
        u32::MAX
    } else {
        (a + b) as u32
    }
}

/// Both endpoints' collection problems, counts saturating; the interval's own
/// membership and regression counts start at zero.
pub open spec fn merged_process_issues(
    start: ProcessIoCollectionIssues,
    end: ProcessIoCollectionIssues,
) -> ProcessIoCollectionIssues {
    ProcessIoCollectionIssues {
        counter_width_unsupported: start.counter_width_unsupported || end.counter_width_unsupported,
        enumeration_failed: start.enumeration_failed || end.enumeration_failed,
        enumeration_errors: sat_add(start.enumeration_errors, end.enumeration_errors),
        disappeared: sat_add(start.disappeared, end.disappeared),
        identity_changed: sat_add(start.identity_changed, end.identity_changed),
        permission_denied: sat_add(start.permission_denied, end.permission_denied),
        unsupported: sat_add(start.unsupported, end.unsupported),
        unreadable: sat_add(start.unreadable, end.unreadable),
        malformed: sat_add(start.malformed, end.malformed),
        limit_reached: start.limit_reached || end.limit_reached,
        appeared: 0,
        exited: 0,
        reused: 0,
        counter_regressed: 0,
    }
}

pub fn merge_process_issues(start: ProcessIoCollectionIssues, end: ProcessIoCollectionIssues) -> (r:
    ProcessIoCollectionIssues)
    ensures
        r == merged_process_issues(start, end),
{
    ProcessIoCollectionIssues {
        counter_width_unsupported: start.counter_width_unsupported || end.counter_width_unsupported,
        enumeration_failed: start.enumeration_failed || end.enumeration_failed,
        enumeration_errors: start.enumeration_errors.saturating_add(end.enumeration_errors),
        disappeared: start.disappeared.saturating_add(end.disappeared),
        identity_changed: start.identity_changed.saturating_add(end.identity_changed),
        permission_denied: start.permission_denied.saturating_add(end.permission_denied),
        unsupported: start.unsupported.saturating_add(end.unsupported),
        unreadable: start.unreadable.saturating_add(end.unreadable),
        malformed: start.malformed.saturating_add(end.malformed),
        limit_reached: start.limit_reached || end.limit_reached,
        appeared: 0,
        exited: 0,
        reused: 0,
        counter_regressed: 0,
    }
}


/// The first sample of `s` with key `k`.
pub open spec fn sample_with_key(s: Seq<(ProcessKey, ProcessIoSample)>, k: ProcessKey) -> Option<
    ProcessIoSample,
>
    decreases s.len(),
{
    if s.len() == 0 {
        None
    } else if s[0].0 == k {
        Some(s[0].1)
    } else {
        sample_with_key(s.drop_first(), k)
    }
}

/// Some sample of `s` has the PID of `k` under another start time.
pub open spec fn pid_taken(s: Seq<(ProcessKey, ProcessIoSample)>, k: ProcessKey) -> bool
    decreases s.len(),
{
    if s.len() == 0 {
        false
    } else {
        (s[0].0.pid == k.pid && s[0].0 != k) || pid_taken(s.drop_first(), k)
    }
}

/// How many samples of `from` have no sample with the same key in `other`.
pub open spec fn count_missing(
    from: Seq<(ProcessKey, ProcessIoSample)>,
    other: Seq<(ProcessKey, ProcessIoSample)>,
) -> nat
    decreases from.len(),
{
    if from.len() == 0 {
        0
    } else {
        count_missing(from.drop_last(), other) + if sample_with_key(other, from.last().0) is None {
            1nat
        } else {
            0nat
        }
    }
}

/// How many end samples reuse the PID of a different start process.
pub open spec fn count_pid_reused(
    start: Seq<(ProcessKey, ProcessIoSample)>,
    end: Seq<(ProcessKey, ProcessIoSample)>,
) -> nat
    decreases end.len(),
{
    if end.len() == 0 {
        0
    } else {
        count_pid_reused(start, end.drop_last()) + if pid_taken(start, end.last().0) {
            1nat
        } else {
            0nat
        }
    }
}

pub open spec fn process_regression_if(
    key: ProcessKey,
    counter: ProcessIoCounter,
    start: u64,
    end: u64,
) -> Seq<ProcessIoCounterRegression> {
    if end < start {
        seq![ProcessIoCounterRegression { key, counter }]
    } else {
        Seq::empty()
    }
}

/// An optional counter regresses only when present at both ends.
pub open spec fn optional_regression_if(
    key: ProcessKey,
    counter: ProcessIoCounter,
    start: Option<u64>,
    end: Option<u64>,
) -> Seq<ProcessIoCounterRegression> {
    match (start, end) {
        (Some(a), Some(b)) => process_regression_if(key, counter, a, b),
        _ => Seq::empty(),
    }
}

pub open spec fn optional_delta(start: Option<u64>, end: Option<u64>) -> Option<u64> {
    match (start, end) {
        (Some(a), Some(b)) => b.checked_sub(a),
        _ => None,
    }
}

/// The counters of one process that decreased, in counter order.
pub open spec fn process_regressions(k: ProcessKey, b: ProcessIoRaw, f: ProcessIoRaw) -> Seq<
    ProcessIoCounterRegression,
> {
    process_regression_if(k, ProcessIoCounter::ReadBytes, b.read_bytes, f.read_bytes)
        + process_regression_if(k, ProcessIoCounter::WriteBytes, b.write_bytes, f.write_bytes)
        + optional_regression_if(
        k,
        ProcessIoCounter::CancelledWriteBytes,
        b.cancelled_write_bytes,
        f.cancelled_write_bytes,
    ) + optional_regression_if(k, ProcessIoCounter::Rchar, b.rchar, f.rchar)
        + optional_regression_if(k, ProcessIoCounter::Wchar, b.wchar, f.wchar)
}

/// The interval of one process read as `b` and later as `f`.
pub open spec fn process_interval(k: ProcessKey, b: ProcessIoSample, f: ProcessIoSample) -> ProcessIoInterval {
    ProcessIoInterval {
        key: k,
        name: f.name,
        read_bytes: f.counters.read_bytes.checked_sub(b.counters.read_bytes),
        write_bytes: f.counters.write_bytes.checked_sub(b.counters.write_bytes),
        cancelled_write_bytes: optional_delta(
            b.counters.cancelled_write_bytes,
            f.counters.cancelled_write_bytes,
        ),
        rchar: optional_delta(b.counters.rchar, f.counters.rchar),
        wchar: optional_delta(b.counters.wchar, f.counters.wchar),
    }
}

pub open spec fn has_some_delta(i: ProcessIoInterval) -> bool {
    i.read_bytes is Some || i.write_bytes is Some || i.cancelled_write_bytes is Some
        || i.rchar is Some || i.wchar is Some
}

/// The pass over the end samples: the intervals with some delta and the
/// regressions, both in end order.
pub open spec fn process_pass(
    start: Seq<(ProcessKey, ProcessIoSample)>,
    end: Seq<(ProcessKey, ProcessIoSample)>,
) -> (Seq<ProcessIoInterval>, Seq<ProcessIoCounterRegression>)
    decreases end.len(),
{
    if end.len() == 0 {
        (Seq::empty(), Seq::empty())
    } else {
        let (intervals, regressed) = process_pass(start, end.drop_last());
        let (k, f) = end.last();
        match sample_with_key(start, k) {
            None => (intervals, regressed),
            Some(b) => {
                let i = process_interval(k, b, f);
                (
                    if has_some_delta(i) {
                        intervals.push(i)
                    } else {
                        intervals
                    },
                    regressed + process_regressions(k, b.counters, f.counters),
                )
            },
        }
    }
}

pub open spec fn or_zero(v: Option<u64>) -> u64 {
    match v {
        Some(x) => x,
        None => 0,
    }
}

/// Read plus write bytes, saturating.
pub open spec fn interval_weight(i: ProcessIoInterval) -> u64 {
    if or_zero(i.read_bytes) + or_zero(i.write_bytes) > u64::MAX {
        u64::MAX
    } else {
        (or_zero(i.read_bytes) + or_zero(i.write_bytes)) as u64
    }
}

/// Heavier I/O first; equal weights by process key.
pub open spec fn ranks_before(a: ProcessIoInterval, b: ProcessIoInterval) -> bool {
    interval_weight(a) > interval_weight(b) || (interval_weight(a) == interval_weight(b) && key_lt(
        a.key,
        b.key,
    ))
}

pub open spec fn process_order() -> spec_fn(ProcessIoInterval, ProcessIoInterval) -> bool {
    |a: ProcessIoInterval, b: ProcessIoInterval| ranks_before(a, b)
}

/// The issues of a process I/O interval.
pub open spec fn process_interval_issues(start: ProcessIoSnapshot, end: ProcessIoSnapshot) -> ProcessIoCollectionIssues {
    ProcessIoCollectionIssues {
        appeared: count_clamped(count_missing(end.processes@, start.processes@)),
        exited: count_clamped(count_missing(start.processes@, end.processes@)),
        reused: count_clamped(count_pid_reused(start.processes@, end.processes@)),
        counter_regressed: count_clamped(process_pass(start.processes@, end.processes@).1.len()),
        ..merged_process_issues(start.issues, end.issues)
    }
}

/// `o` compares `start` with `end`: the intervals of the keys held by both
/// reads that have some delta, ranked; the decreased counters in end order;
/// the issues; and the capability they give.
pub open spec fn process_observation_holds(o: ProcessIoObservation, start: ProcessIoSnapshot, end: ProcessIoSnapshot) -> bool {
    let (intervals, regressed) = process_pass(start.processes@, end.processes@);
    &&& o.processes@ == ranked_by(intervals, process_order())
    &&& o.regressed@ == regressed
    &&& o.issues == process_interval_issues(start, end)
    &&& o.capability == process_capability(o.issues, intervals.len() > 0)
}

fn weight_of(i: &ProcessIoInterval) -> (w: u64)
    ensures
        w == interval_weight(*i),
{
    let r = match i.read_bytes {
        Some(v) => v,
        None => 0,
    };
    let w = match i.write_bytes {
        Some(v) => v,
        None => 0,
    };
    r.saturating_add(w)
}

fn ranks_before_exec(a: &ProcessIoInterval, b: &ProcessIoInterval) -> (r: bool)
    ensures
        r == ranks_before(*a, *b),
{
    let wa = weight_of(a);
    let wb = weight_of(b);
    wa > wb || (wa == wb && key_less(a.key, b.key))
}

fn insert_by_rank(out: &mut Vec<ProcessIoInterval>, x: ProcessIoInterval)
    ensures
        final(out)@ == insert_ranked(old(out)@, x, process_order()),
{
    let ghost before = out@;
    let mut p: usize = 0;
    while p < out.len() && !ranks_before_exec(&x, &out[p])
        invariant
            p <= out.len(),
            out@ == before,
            forall|k: int| 0 <= k < p ==> !(process_order())(x, #[trigger] before[k]),
        decreases out.len() - p,
    {
        p += 1;
    }
    proof {
        lemma_insert_ranked_at(before, x, process_order(), p as int);
    }
    out.insert(p, x);
}

fn find_sample(s: &Vec<(ProcessKey, ProcessIoSample)>, k: ProcessKey) -> (out: Option<usize>)
    ensures
        match out {
            Some(i) => i < s@.len() && sample_with_key(s@, k) == Some(s@[i as int].1),
            None => sample_with_key(s@, k) is None,
        },
{
    let mut i: usize = 0;
    assert(s@.skip(0) =~= s@);
    while i < s.len()
        invariant
            i <= s.len(),
            sample_with_key(s@, k) == sample_with_key(s@.skip(i as int), k),
        decreases s.len() - i,
    {
        assert(s@.skip(i as int).drop_first() =~= s@.skip(i + 1));
        assert(s@.skip(i as int)[0] == s@[i as int]);
        if s[i].0 == k {
            return Some(i);
        }
        i += 1;
    }
    None
}

fn pid_taken_in(s: &Vec<(ProcessKey, ProcessIoSample)>, k: ProcessKey) -> (b: bool)
    ensures
        b == pid_taken(s@, k),
{
    let mut i: usize = 0;
    assert(s@.skip(0) =~= s@);
    while i < s.len()
        invariant
            i <= s.len(),
            pid_taken(s@, k) == pid_taken(s@.skip(i as int), k),
        decreases s.len() - i,
    {
        assert(s@.skip(i as int).drop_first() =~= s@.skip(i + 1));
        assert(s@.skip(i as int)[0] == s@[i as int]);
        if s[i].0.pid == k.pid && s[i].0 != k {
            return true;
        }
        i += 1;
    }
    false
}

fn count_missing_in(
    from: &Vec<(ProcessKey, ProcessIoSample)>,
    other: &Vec<(ProcessKey, ProcessIoSample)>,
) -> (n: usize)
    ensures
        n == count_missing(from@, other@),
{
    let mut n: usize = 0;
    let mut i: usize = 0;
    while i < from.len()
        invariant
            i <= from.len(),
            n == count_missing(from@.take(i as int), other@),
            n <= i,
        decreases from.len() - i,
    {
        assert(from@.take(i + 1).drop_last() =~= from@.take(i as int));
        assert(from@.take(i + 1).last() == from@[i as int]);
        if find_sample(other, from[i].0).is_none() {
            n += 1;
        }
        i += 1;
    }
    assert(from@.take(i as int) =~= from@);
    n
}

fn count_pid_reused_in(
    start: &Vec<(ProcessKey, ProcessIoSample)>,
    end: &Vec<(ProcessKey, ProcessIoSample)>,
) -> (n: usize)
    ensures
        n == count_pid_reused(start@, end@),
{
    let mut n: usize = 0;
    let mut i: usize = 0;
    while i < end.len()
        invariant
            i <= end.len(),
            n == count_pid_reused(start@, end@.take(i as int)),
            n <= i,
        decreases end.len() - i,
    {
        assert(end@.take(i + 1).drop_last() =~= end@.take(i as int));
        assert(end@.take(i + 1).last() == end@[i as int]);
        if pid_taken_in(start, end[i].0) {
            n += 1;
        }
        i += 1;
    }
    assert(end@.take(i as int) =~= end@);
    n
}

fn checked_process_delta(
    key: ProcessKey,
    counter: ProcessIoCounter,
    start: u64,
    end: u64,
    regressed: &mut Vec<ProcessIoCounterRegression>,
) -> (r: Option<u64>)
    ensures
        r == end.checked_sub(start),
        final(regressed)@ == old(regressed)@ + process_regression_if(key, counter, start, end),
{
    match end.checked_sub(start) {
        Some(v) => {
            assert(old(regressed)@ + process_regression_if(key, counter, start, end) =~= old(
                regressed,
            )@);
            Some(v)
        },
        None => {
            regressed.push(ProcessIoCounterRegression { key, counter });
            assert(regressed@ =~= old(regressed)@ + process_regression_if(
                key,
                counter,
                start,
                end,
            ));
            None
        },
    }
}

fn optional_process_delta(
    key: ProcessKey,
    counter: ProcessIoCounter,
    start: Option<u64>,
    end: Option<u64>,
    regressed: &mut Vec<ProcessIoCounterRegression>,
) -> (r: Option<u64>)
    ensures
        r == optional_delta(start, end),
        final(regressed)@ == old(regressed)@ + optional_regression_if(key, counter, start, end),
{
    match (start, end) {
        (Some(a), Some(b)) => checked_process_delta(key, counter, a, b, regressed),
        _ => {
            assert(old(regressed)@ + optional_regression_if(key, counter, start, end) =~= old(
                regressed,
            )@);
            None
        },
    }
}

/// Checked per-process deltas between two samples, heaviest read plus write
/// first.  Processes are matched by key (PID and start time), so a reused PID
/// is never merged; each decreased counter is omitted and recorded without
/// discarding the process's other deltas.
pub fn process_io_interval_from_snapshots(
    start: ProcessIoSnapshot,
    end: ProcessIoSnapshot,
    elapsed_ns: u64,
) -> (r: Result<ProcessIoObservation, DiskstatsError>)
    ensures
        elapsed_ns == 0 ==> r == Err::<ProcessIoObservation, DiskstatsError>(
            DiskstatsError::EmptyInterval,
        ),
        elapsed_ns != 0 ==> match r {
            Ok(o) => o.elapsed_ns == elapsed_ns && process_observation_holds(o, start, end),
            Err(_) => false,
        },
{
    if elapsed_ns == 0 {
        return Err(DiskstatsError::EmptyInterval);
    }
    let mut issues = merge_process_issues(start.issues, end.issues);
    issues.appeared = count_u32(count_missing_in(&end.processes, &start.processes));
    issues.exited = count_u32(count_missing_in(&start.processes, &end.processes));
    issues.reused = count_u32(count_pid_reused_in(&start.processes, &end.processes));
    let ghost sp = start.processes@;
    let ghost ep = end.processes@;
    let mut processes: Vec<ProcessIoInterval> = Vec::new();
    let mut regressed: Vec<ProcessIoCounterRegression> = Vec::new();
    let mut any: bool = false;
    let mut i: usize = 0;
    while i < end.processes.len()
        invariant
            i <= ep.len(),
            sp == start.processes@,
            ep == end.processes@,
            processes@ == ranked_by(process_pass(sp, ep.take(i as int)).0, process_order()),
            regressed@ == process_pass(sp, ep.take(i as int)).1,
            any == (process_pass(sp, ep.take(i as int)).0.len() > 0),
        decreases ep.len() - i,
    {
        assert(ep.take(i + 1).drop_last() =~= ep.take(i as int));
        assert(ep.take(i + 1).last() == ep[i as int]);
        let key = end.processes[i].0;
        let f = &end.processes[i].1;
        match find_sample(&start.processes, key) {
            None => {},
            Some(j) => {
                let b = &start.processes[j].1;
                let ghost reg0 = regressed@;
                let read_bytes = checked_process_delta(
                    key,
                    ProcessIoCounter::ReadBytes,
                    b.counters.read_bytes,
                    f.counters.read_bytes,
                    &mut regressed,
                );
                let write_bytes = checked_process_delta(
                    key,
                    ProcessIoCounter::WriteBytes,
                    b.counters.write_bytes,
                    f.counters.write_bytes,
                    &mut regressed,
                );
                let cancelled_write_bytes = optional_process_delta(
                    key,
                    ProcessIoCounter::CancelledWriteBytes,
                    b.counters.cancelled_write_bytes,
                    f.counters.cancelled_write_bytes,
                    &mut regressed,
                );
                let rchar = optional_process_delta(
                    key,
                    ProcessIoCounter::Rchar,
                    b.counters.rchar,
                    f.counters.rchar,
                    &mut regressed,
                );
                let wchar = optional_process_delta(
                    key,
                    ProcessIoCounter::Wchar,
                    b.counters.wchar,
                    f.counters.wchar,
                    &mut regressed,
                );
                assert(regressed@ =~= reg0 + process_regressions(key, b.counters, f.counters));
                if read_bytes.is_some() || write_bytes.is_some() || cancelled_write_bytes.is_some()
                    || rchar.is_some() || wchar.is_some() {
                    let interval = ProcessIoInterval {
                        key,
                        name: f.name.clone(),
                        read_bytes,
                        write_bytes,
                        cancelled_write_bytes,
                        rchar,
                        wchar,
                    };
                    assert(interval == process_interval(key, *b, *f));
                    let ghost before_pass = process_pass(sp, ep.take(i as int)).0;
                    let ghost after_pass = before_pass.push(interval);
                    assert(after_pass.drop_last() =~= before_pass);
                    assert(ranked_by(after_pass, process_order()) == insert_ranked(
                        ranked_by(before_pass, process_order()),
                        interval,
                        process_order(),
                    ));
                    insert_by_rank(&mut processes, interval);
                    any = true;
                }
            },
        }
        i += 1;
    }
    assert(ep.take(i as int) =~= ep);
    issues.counter_regressed = count_u32(regressed.len());
    let capability = process_io_capability(&issues, any);
    Ok(ProcessIoObservation { elapsed_ns, capability, processes, issues, regressed })
}


// ---------------------------------------------------------------------------
// Laws
// ---------------------------------------------------------------------------

proof fn lemma_disk_with_own_key(s: Seq<DiskstatsRaw>, i: int)
    requires
        keys_sorted(disk_entries(s)),
        0 <= i < s.len(),
    ensures
        disk_with_key(s, s[i].key) == Some(s[i]),
    decreases i,
{
    if i > 0 {
        let t = s.drop_first();
        assert(disk_entries(s)[0].0 == s[0].key && disk_entries(s)[i].0 == s[i].key);
        assert(dkey_lt(disk_entries(s)[0].0, disk_entries(s)[i].0));
        assert forall|a: int, b: int| 0 <= a < b < t.len() implies dkey_lt(
            #[trigger] disk_entries(t)[a].0,
            #[trigger] disk_entries(t)[b].0,
        ) by {
            assert(disk_entries(t)[a] == disk_entries(s)[a + 1]);
            assert(disk_entries(t)[b] == disk_entries(s)[b + 1]);
        }
        lemma_disk_with_own_key(t, i - 1);
        assert(t[i - 1] == s[i]);
    }
}

proof fn lemma_identical_prefix(s: Seq<DiskstatsRaw>, k: int)
    requires
        keys_sorted(disk_entries(s)),
        0 <= k <= s.len(),
    ensures
        disk_pass(s, s.take(k)).0 == s.take(k).map_values(|d: DiskstatsRaw| (d, d)),
        disk_pass(s, s.take(k)).1.len() == 0,
        disk_pass(s, s.take(k)).2.len() == 0,
        disk_pass(s, s.take(k)).3.len() == 0,
        disks_exited(s.take(k), s).len() == 0,
    decreases k,
{
    if k == 0 {
        assert(s.take(0).map_values(|d: DiskstatsRaw| (d, d)) =~= Seq::<
            (DiskstatsRaw, DiskstatsRaw),
        >::empty());
    } else {
        lemma_identical_prefix(s, k - 1);
        let t = s.take(k);
        assert(t.drop_last() =~= s.take(k - 1));
        assert(t.last() == s[k - 1]);
        lemma_disk_with_own_key(s, k - 1);
        assert(disk_regressions(s[k - 1], s[k - 1]) =~= Seq::<DiskstatsCounterRegression>::empty());
        assert(t.map_values(|d: DiskstatsRaw| (d, d)) =~= s.take(k - 1).map_values(
            |d: DiskstatsRaw| (d, d),
        ).push((s[k - 1], s[k - 1])));
    }
}

/// Two identical diskstats reads report every device, in order, with zero
/// deltas, and no appeared, exited, renamed or regressed device.
pub proof fn lemma_identical_diskstats_reads(s: Seq<DiskstatsRaw>)
    requires
        keys_sorted(disk_entries(s)),
    ensures
        disk_pass(s, s).0 == s.map_values(|d: DiskstatsRaw| (d, d)),
        disk_pass(s, s).1.len() == 0,
        disk_pass(s, s).2.len() == 0,
        disk_pass(s, s).3.len() == 0,
        disks_exited(s, s).len() == 0,
{
    lemma_identical_prefix(s, s.len() as int);
    assert(s.take(s.len() as int) =~= s);
}

/// Device selection never keeps more than `MAX_DEVICES` devices and keeps
/// them strictly ordered by identity.
pub proof fn lemma_insert_lowest_bounded(s: Seq<DiskEntry>, d: DiskEntry)
    requires
        keys_sorted(s),
        s.len() <= MAX_DEVICES,
    ensures
        keys_sorted(insert_lowest(s, d).0),
        insert_lowest(s, d).0.len() <= MAX_DEVICES,
        s.len() == MAX_DEVICES ==> insert_lowest(s, d).1,
{
    if s.len() < MAX_DEVICES {
        lemma_sorted_insert_sorted(s, d);
    } else if s.len() > 0 && dkey_lt(d.0, s.last().0) {
        let t = s.drop_last();
        assert forall|i: int, j: int| 0 <= i < j < t.len() implies dkey_lt(
            #[trigger] t[i].0,
            #[trigger] t[j].0,
        ) by {
            assert(t[i] == s[i] && t[j] == s[j]);
        }
        lemma_sorted_insert_sorted(t, d);
    }
}


/// Process intervals come heaviest read plus write first, ties by process
/// key, and the ranking keeps exactly the intervals it was given.
pub proof fn lemma_process_intervals_ranked(intervals: Seq<ProcessIoInterval>)
    ensures
        crate::ranking::sorted_by(ranked_by(intervals, process_order()), process_order()),
        ranked_by(intervals, process_order()).to_multiset() == intervals.to_multiset(),
{
    assert forall|a: ProcessIoInterval| !#[trigger] (process_order())(a, a) by {}
    assert forall|a: ProcessIoInterval, b: ProcessIoInterval, c: ProcessIoInterval|
        #[trigger] (process_order())(a, b) && #[trigger] (process_order())(b, c) implies (
    process_order())(a, c) by {
        assert(ranks_before(a, b) && ranks_before(b, c));
    }
    crate::ranking::lemma_ranked_sorted(intervals, process_order());
}


// ---------------------------------------------------------------------------
// Process I/O collection
// ---------------------------------------------------------------------------

/// Inserts `x` into an ascending list, after any equal values.
pub open spec fn insert_ascending(s: Seq<u32>, x: u32) -> Seq<u32>
    decreases s.len(),
{
    if s.len() == 0 {
        seq![x]
    } else if x < s[0] {
        seq![x] + s
    } else {
        seq![s[0]] + insert_ascending(s.drop_first(), x)
    }
}

/// Keeps the `cap` lowest PIDs: below the bound `pid` is added; at the bound
/// it displaces the highest when lower; the flag tells whether the bound was
/// met.
pub open spec fn keep_lowest_within(s: Seq<u32>, pid: u32, cap: nat) -> (Seq<u32>, bool) {
    if s.len() < cap {
        (insert_ascending(s, pid), false)
    } else if s.len() > 0 && pid < s.last() {
        (insert_ascending(s.drop_last(), pid), true)
    } else {
        (s, true)
    }
}

pub open spec fn ascending(s: Seq<u32>) -> bool {
    forall|i: int, j: int| 0 <= i < j < s.len() ==> s[i] <= s[j]
}

proof fn lemma_insert_ascending_at(s: Seq<u32>, x: u32, p: int)
    requires
        0 <= p <= s.len(),
        forall|k: int| 0 <= k < p ==> !(x < #[trigger] s[k]),
        p < s.len() ==> x < s[p],
    ensures
        insert_ascending(s, x) == s.insert(p, x),
    decreases p,
{
    if p == 0 {
        assert(insert_ascending(s, x) =~= s.insert(0, x));
    } else {
        let t = s.drop_first();
        assert forall|k: int| 0 <= k < p - 1 implies !(x < #[trigger] t[k]) by {
            assert(t[k] == s[k + 1]);
        }
        lemma_insert_ascending_at(t, x, p - 1);
        assert(insert_ascending(s, x) =~= s.insert(p, x));
    }
}

fn insert_pid_ascending(pids: &mut Vec<u32>, pid: u32)
    requires
        ascending(old(pids)@),
    ensures
        final(pids)@ == insert_ascending(old(pids)@, pid),
        ascending(final(pids)@),
{
    let ghost before = pids@;
    let mut p: usize = 0;
    while p < pids.len() && !(pid < pids[p])
        invariant
            p <= pids.len(),
            pids@ == before,
            ascending(before),
            forall|k: int| 0 <= k < p ==> !(pid < #[trigger] before[k]),
        decreases pids.len() - p,
    {
        p += 1;
    }
    proof {
        lemma_insert_ascending_at(before, pid, p as int);
    }
    pids.insert(p, pid);
    assert(pids@ == before.insert(p as int, pid));
    assert forall|i: int, j: int| 0 <= i < j < pids@.len() implies pids@[i] <= pids@[j] by {
        if j < p {
            assert(pids@[i] == before[i] && pids@[j] == before[j]);
        } else if j == p {
            assert(pids@[i] == before[i]);
        } else if i < p {
            assert(pids@[i] == before[i] && pids@[j] == before[j - 1]);
        } else if i == p {
            assert(pids@[j] == before[j - 1]);
        } else {
            assert(pids@[i] == before[i - 1] && pids@[j] == before[j - 1]);
        }
    }
}

/// Keeps the `cap` lowest PIDs in ascending order; returns whether the bound
/// was met.
pub fn keep_lowest(pids: &mut Vec<u32>, pid: u32, cap: usize) -> (limited: bool)
    requires
        ascending(old(pids)@),
    ensures
        ascending(final(pids)@),
        final(pids)@ == keep_lowest_within(old(pids)@, pid, cap as nat).0,
        limited == keep_lowest_within(old(pids)@, pid, cap as nat).1,
{
    if pids.len() < cap {
        insert_pid_ascending(pids, pid);
        false
    } else if pids.len() > 0 && pid < pids[pids.len() - 1] {
        let ghost before = pids@;
        let _ = pids.pop();
        assert(pids@ =~= before.drop_last());
        insert_pid_ascending(pids, pid);
        true
    } else {
        true
    }
}

/// Keeps the `MAX_PROCESSES` lowest PIDs in ascending order; meeting the
/// bound is recorded as a limit.
pub fn insert_lowest_pid(pids: &mut Vec<u32>, pid: u32, issues: &mut ProcessIoCollectionIssues)
    requires
        ascending(old(pids)@),
    ensures
        ascending(final(pids)@),
        final(pids)@ == keep_lowest_within(old(pids)@, pid, MAX_PROCESSES as nat).0,
        *final(issues) == (ProcessIoCollectionIssues {
            limit_reached: old(issues).limit_reached || keep_lowest_within(
                old(pids)@,
                pid,
                MAX_PROCESSES as nat,
            ).1,
            ..*old(issues)
        }),
{
    if keep_lowest(pids, pid, MAX_PROCESSES) {
        issues.limit_reached = true;
    }
}

/// How reading a process's stat file failed.
#[derive(Debug, Clone, Copy, PartialEq, Eq, Structural)]
pub enum ProcessReadError {
    Disappeared,
    PermissionDenied,
    Other,
}

/// A stat read as the collector sees it: a missing file means the process
/// went away; unparsable contents are `Other`.
pub open spec fn stat_outcome(read: Result<Seq<char>, ReadErrorKind>) -> Result<(ProcessKey, Seq<char>), ProcessReadError> {
    match read {
        Err(ReadErrorKind::NotFound) => Err(ProcessReadError::Disappeared),
        Err(ReadErrorKind::PermissionDenied) => Err(ProcessReadError::PermissionDenied),
        Err(ReadErrorKind::Other) => Err(ProcessReadError::Other),
        Ok(text) => match process_stat_spec(text) {
            Some(p) => Ok(p),
            None => Err(ProcessReadError::Other),
        },
    }
}

pub fn stat_event(read: Result<String, ReadErrorKind>) -> (out: Result<ProcessStat, ProcessReadError>)
    ensures
        match (out, read) {
            (Ok(s), Ok(text)) => stat_outcome(Ok(text@)) == Ok::<(ProcessKey, Seq<char>), ProcessReadError>((s.key, s.comm@)),
            (Err(e), Ok(text)) => stat_outcome(Ok(text@)) == Err::<(ProcessKey, Seq<char>), ProcessReadError>(e),
            (Err(e), Err(k)) => stat_outcome(Err(k)) == Err::<(ProcessKey, Seq<char>), ProcessReadError>(e),
            (Ok(_), Err(_)) => false,
        },
{
    match read {
        Err(ReadErrorKind::NotFound) => Err(ProcessReadError::Disappeared),
        Err(ReadErrorKind::PermissionDenied) => Err(ProcessReadError::PermissionDenied),
        Err(ReadErrorKind::Other) => Err(ProcessReadError::Other),
        Ok(text) => match parse_process_stat(text.as_str()) {
            Some(p) => Ok(p),
            None => Err(ProcessReadError::Other),
        },
    }
}

/// Where the sampling of one process stands; the step names the file to
/// read next.
#[derive(Debug, Clone, Copy, PartialEq, Eq, Structural)]
pub enum ProcessIoStep {
    /// Read the stat file of `pid`.
    FirstStat { pid: u32 },
    /// Read the io file of the process first seen as `first`.
    Io { first: ProcessKey },
    /// The io file was absent: read stat again to tell an unsupported io
    /// file from a process that went away.
    Recheck { first: ProcessKey },
    /// Read stat once more to confirm whose counters were read.
    SecondStat { first: ProcessKey, counters: ProcessIoRaw },
    /// Sampling of this process is over.
    Done,
}

/// The outcome of the read a step asked for.
#[derive(Debug)]
pub enum ProcessIoEvent {
    Stat(Result<ProcessStat, ProcessReadError>),
    Io(Result<String, ReadErrorKind>),
}

pub open spec fn bump(v: u32) -> u32 {
    if v == u32::MAX {
        v
    } else {
        (v + 1) as u32
    }
}

/// The issue a failed stat read counts.
pub open spec fn stat_error_issues(i: ProcessIoCollectionIssues, e: ProcessReadError) -> ProcessIoCollectionIssues {
    match e {
        ProcessReadError::Disappeared => ProcessIoCollectionIssues { disappeared: bump(i.disappeared), ..i },
        ProcessReadError::PermissionDenied => ProcessIoCollectionIssues {
            permission_denied: bump(i.permission_denied),
            ..i
        },
        ProcessReadError::Other => ProcessIoCollectionIssues { malformed: bump(i.malformed), ..i },
    }
}

/// The step's read was the one it asked for.
pub open spec fn event_fits(step: ProcessIoStep, event: ProcessIoEvent) -> bool {
    match step {
        ProcessIoStep::Io { .. } => event is Io,
        ProcessIoStep::Done => false,
        _ => event is Stat,
    }
}

/// One transition of process sampling: the next step, the issues, and the
/// sample to keep when the identity was confirmed around the io read.
pub open spec fn process_io_transition(
    step: ProcessIoStep,
    event: ProcessIoEvent,
    i: ProcessIoCollectionIssues,
) -> (ProcessIoStep, ProcessIoCollectionIssues, Option<(ProcessKey, ProcessIoSample)>) {
    match (step, event) {
        (ProcessIoStep::FirstStat { pid }, ProcessIoEvent::Stat(Ok(s))) => if s.key.pid == pid {
            (ProcessIoStep::Io { first: s.key }, i, None)
        } else {
            (
                ProcessIoStep::Done,
                ProcessIoCollectionIssues { identity_changed: bump(i.identity_changed), ..i },
                None,
            )
        },
        (ProcessIoStep::FirstStat { .. }, ProcessIoEvent::Stat(Err(e))) => (
            ProcessIoStep::Done,
            stat_error_issues(i, e),
            None,
        ),
        (ProcessIoStep::Io { first }, ProcessIoEvent::Io(Ok(text))) => match process_io_spec(text@) {
            Ok(raw) => (ProcessIoStep::SecondStat { first, counters: raw }, i, None),
            Err(_) => (
                ProcessIoStep::Done,
                ProcessIoCollectionIssues { malformed: bump(i.malformed), ..i },
                None,
            ),
        },
        (ProcessIoStep::Io { first }, ProcessIoEvent::Io(Err(ReadErrorKind::NotFound))) => (
            ProcessIoStep::Recheck { first },
            i,
            None,
        ),
        (ProcessIoStep::Io { .. }, ProcessIoEvent::Io(Err(ReadErrorKind::PermissionDenied))) => (
            ProcessIoStep::Done,
            ProcessIoCollectionIssues { permission_denied: bump(i.permission_denied), ..i },
            None,
        ),
        (ProcessIoStep::Io { .. }, ProcessIoEvent::Io(Err(ReadErrorKind::Other))) => (
            ProcessIoStep::Done,
            ProcessIoCollectionIssues { unreadable: bump(i.unreadable), ..i },
            None,
        ),
        (ProcessIoStep::Recheck { first }, ProcessIoEvent::Stat(Ok(s))) => if s.key == first {
            (
                ProcessIoStep::Done,
                ProcessIoCollectionIssues { unsupported: bump(i.unsupported), ..i },
                None,
            )
        } else {
            (
                ProcessIoStep::Done,
                ProcessIoCollectionIssues { identity_changed: bump(i.identity_changed), ..i },
                None,
            )
        },
        (ProcessIoStep::Recheck { .. }, ProcessIoEvent::Stat(Err(_))) => (
            ProcessIoStep::Done,
            ProcessIoCollectionIssues { disappeared: bump(i.disappeared), ..i },
            None,
        ),
        (ProcessIoStep::SecondStat { first, counters }, ProcessIoEvent::Stat(Ok(s))) => if s.key
            == first {
            (ProcessIoStep::Done, i, Some((s.key, ProcessIoSample { name: s.comm, counters })))
        } else {
            (
                ProcessIoStep::Done,
                ProcessIoCollectionIssues { identity_changed: bump(i.identity_changed), ..i },
                None,
            )
        },
        (ProcessIoStep::SecondStat { .. }, ProcessIoEvent::Stat(Err(e))) => (
            ProcessIoStep::Done,
            stat_error_issues(i, e),
            None,
        ),
        _ => (ProcessIoStep::Done, i, None),
    }
}

/// Inserts a sample in key order, replacing one with the same key.
pub open spec fn insert_sample(
    s: Seq<(ProcessKey, ProcessIoSample)>,
    k: ProcessKey,
    v: ProcessIoSample,
) -> Seq<(ProcessKey, ProcessIoSample)>
    decreases s.len(),
{
    if s.len() == 0 {
        seq![(k, v)]
    } else if key_lt(k, s[0].0) {
        seq![(k, v)] + s
    } else if k == s[0].0 {
        seq![(k, v)] + s.drop_first()
    } else {
        seq![s[0]] + insert_sample(s.drop_first(), k, v)
    }
}

proof fn lemma_insert_sample_at(
    s: Seq<(ProcessKey, ProcessIoSample)>,
    k: ProcessKey,
    v: ProcessIoSample,
    p: int,
)
    requires
        0 <= p <= s.len(),
        forall|m: int| 0 <= m < p ==> key_lt(#[trigger] s[m].0, k),
        p < s.len() ==> !key_lt(s[p].0, k),
    ensures
        p < s.len() && s[p].0 == k ==> insert_sample(s, k, v) == s.update(p, (k, v)),
        !(p < s.len() && s[p].0 == k) ==> insert_sample(s, k, v) == s.insert(p, (k, v)),
    decreases p,
{
    if p == 0 {
        if s.len() == 0 {
            assert(insert_sample(s, k, v) =~= s.insert(0, (k, v)));
        } else if s[0].0 == k {
            assert(insert_sample(s, k, v) =~= s.update(0, (k, v)));
        } else {
            assert(key_lt(k, s[0].0));
            assert(insert_sample(s, k, v) =~= s.insert(0, (k, v)));
        }
    } else {
        let t = s.drop_first();
        assert(key_lt(s[0].0, k));
        assert forall|m: int| 0 <= m < p - 1 implies key_lt(#[trigger] t[m].0, k) by {
            assert(t[m] == s[m + 1]);
        }
        lemma_insert_sample_at(t, k, v, p - 1);
        if p < s.len() && s[p].0 == k {
            assert(insert_sample(s, k, v) =~= s.update(p, (k, v)));
        } else {
            assert(insert_sample(s, k, v) =~= s.insert(p, (k, v)));
        }
    }
}

fn store_sample(processes: &mut Vec<(ProcessKey, ProcessIoSample)>, k: ProcessKey, v: ProcessIoSample)
    ensures
        final(processes)@ == insert_sample(old(processes)@, k, v),
{
    let ghost before = processes@;
    let ghost vv = v;
    let mut p: usize = 0;
    while p < processes.len() && key_less(processes[p].0, k)
        invariant
            p <= processes.len(),
            processes@ == before,
            forall|m: int| 0 <= m < p ==> key_lt(#[trigger] before[m].0, k),
        decreases processes.len() - p,
    {
        p += 1;
    }
    proof {
        lemma_insert_sample_at(before, k, vv, p as int);
    }
    if p < processes.len() && processes[p].0 == k {
        processes.set(p, (k, v));
    } else {
        processes.insert(p, (k, v));
    }
}

fn bump_exec(v: u32) -> (r: u32)
    ensures
        r == bump(v),
{
    if v == u32::MAX {
        v
    } else {
        v + 1
    }
}

/// Advances the sampling of one process by the outcome of the read its step
/// asked for.  The identity is read before and after the io file so that
/// counters are never attributed to a reused PID; each way of losing the
/// process is counted.
pub fn process_io_step(
    step: ProcessIoStep,
    event: ProcessIoEvent,
    issues: &mut ProcessIoCollectionIssues,
    processes: &mut Vec<(ProcessKey, ProcessIoSample)>,
) -> (next: ProcessIoStep)
    requires
        event_fits(step, event),
    ensures
        next == process_io_transition(step, event, *old(issues)).0,
        *final(issues) == process_io_transition(step, event, *old(issues)).1,
        final(processes)@ == match process_io_transition(step, event, *old(issues)).2 {
            Some((k, v)) => insert_sample(old(processes)@, k, v),
            None => old(processes)@,
        },
{
    match (step, event) {
        (ProcessIoStep::FirstStat { pid }, ProcessIoEvent::Stat(Ok(s))) => {
            if s.key.pid == pid {
                ProcessIoStep::Io { first: s.key }
            } else {
                issues.identity_changed = bump_exec(issues.identity_changed);
                ProcessIoStep::Done
            }
        },
        (ProcessIoStep::FirstStat { .. }, ProcessIoEvent::Stat(Err(e))) => {
            match e {
                ProcessReadError::Disappeared => issues.disappeared = bump_exec(issues.disappeared),
                ProcessReadError::PermissionDenied => issues.permission_denied = bump_exec(
                    issues.permission_denied,
                ),
                ProcessReadError::Other => issues.malformed = bump_exec(issues.malformed),
            }
            ProcessIoStep::Done
        },
        (ProcessIoStep::Io { first }, ProcessIoEvent::Io(Ok(text))) => {
            match parse_process_io(text.as_str()) {
                Ok(raw) => ProcessIoStep::SecondStat { first, counters: raw },
                Err(_) => {
                    issues.malformed = bump_exec(issues.malformed);
                    ProcessIoStep::Done
                },
            }
        },
        (ProcessIoStep::Io { first }, ProcessIoEvent::Io(Err(kind))) => {
            match kind {
                ReadErrorKind::NotFound => ProcessIoStep::Recheck { first },
                ReadErrorKind::PermissionDenied => {
                    issues.permission_denied = bump_exec(issues.permission_denied);
                    ProcessIoStep::Done
                },
                ReadErrorKind::Other => {
                    issues.unreadable = bump_exec(issues.unreadable);
                    ProcessIoStep::Done
                },
            }
        },
        (ProcessIoStep::Recheck { first }, ProcessIoEvent::Stat(Ok(s))) => {
            if s.key == first {
                issues.unsupported = bump_exec(issues.unsupported);
            } else {
                issues.identity_changed = bump_exec(issues.identity_changed);
            }
            ProcessIoStep::Done
        },
        (ProcessIoStep::Recheck { .. }, ProcessIoEvent::Stat(Err(_))) => {
            issues.disappeared = bump_exec(issues.disappeared);
            ProcessIoStep::Done
        },
        (ProcessIoStep::SecondStat { first, counters }, ProcessIoEvent::Stat(Ok(s))) => {
            if s.key == first {
                let key = s.key;
                store_sample(processes, key, ProcessIoSample { name: s.comm, counters });
            } else {
                issues.identity_changed = bump_exec(issues.identity_changed);
            }
            ProcessIoStep::Done
        },
        (ProcessIoStep::SecondStat { .. }, ProcessIoEvent::Stat(Err(e))) => {
            match e {
                ProcessReadError::Disappeared => issues.disappeared = bump_exec(issues.disappeared),
                ProcessReadError::PermissionDenied => issues.permission_denied = bump_exec(
                    issues.permission_denied,
                ),
                ProcessReadError::Other => issues.malformed = bump_exec(issues.malformed),
            }
            ProcessIoStep::Done
        },
        _ => ProcessIoStep::Done,
    }
}


// ---------------------------------------------------------------------------
// Diskstats reads as maps keyed by device identity
// ---------------------------------------------------------------------------

/// A diskstats read is well formed when its devices are strictly ordered by
/// identity, so that no identity occurs twice; `parse_diskstats` gives only
/// well-formed reads.
pub open spec fn diskstats_wf(s: DiskstatsSnapshot) -> bool {
    keys_sorted(disk_entries(s.devices@))
}

/// Some device of `s` has identity `k`.
pub open spec fn has_device(s: Seq<DiskstatsRaw>, k: BlockDeviceKey) -> bool {
    exists|i: int| 0 <= i < s.len() && (#[trigger] s[i]).key == k
}

/// Identities in strictly ascending order.
pub open spec fn keys_ascending(ks: Seq<BlockDeviceKey>) -> bool {
    forall|i: int, j: int| 0 <= i < j < ks.len() ==> dkey_lt(#[trigger] ks[i], #[trigger] ks[j])
}

/// Every identity of `ks` is that of a device of `s`.
pub open spec fn keys_within(ks: Seq<BlockDeviceKey>, s: Seq<DiskstatsRaw>) -> bool {
    forall|i: int| 0 <= i < ks.len() ==> has_device(s, #[trigger] ks[i])
}

/// The identities of the end devices of reported pairs.
pub open spec fn pair_keys(p: Seq<(DiskstatsRaw, DiskstatsRaw)>) -> Seq<BlockDeviceKey> {
    p.map_values(|x: (DiskstatsRaw, DiskstatsRaw)| x.1.key)
}

proof fn lemma_disk_with_key_none(s: Seq<DiskstatsRaw>, k: BlockDeviceKey)
    ensures
        disk_with_key(s, k) is None <==> !has_device(s, k),
        disk_with_key(s, k) matches Some(d) ==> d.key == k,
    decreases s.len(),
{
    if s.len() > 0 {
        lemma_disk_with_key_none(s.drop_first(), k);
        if has_device(s, k) && s[0].key != k {
            let i = choose|i: int| 0 <= i < s.len() && (#[trigger] s[i]).key == k;
            assert(s.drop_first()[i - 1].key == k);
        }
        if has_device(s.drop_first(), k) {
            let i = choose|i: int| 0 <= i < s.drop_first().len() && (#[trigger] s.drop_first()[i]).key == k;
            assert(s[i + 1].key == k);
        }
    }
}

proof fn lemma_sorted_drop_last(s: Seq<DiskstatsRaw>)
    requires
        keys_sorted(disk_entries(s)),
        s.len() > 0,
    ensures
        keys_sorted(disk_entries(s.drop_last())),
        forall|i: int| 0 <= i < s.len() - 1 ==> dkey_lt(#[trigger] s[i].key, s.last().key),
{
    let t = s.drop_last();
    assert forall|a: int, b: int| 0 <= a < b < t.len() implies dkey_lt(
        #[trigger] disk_entries(t)[a].0,
        #[trigger] disk_entries(t)[b].0,
    ) by {
        assert(disk_entries(t)[a] == disk_entries(s)[a] && disk_entries(t)[b] == disk_entries(s)[b]);
    }
    assert forall|i: int| 0 <= i < s.len() - 1 implies dkey_lt(#[trigger] s[i].key, s.last().key) by {
        assert(disk_entries(s)[i].0 == s[i].key);
        assert(disk_entries(s)[s.len() - 1].0 == s.last().key);
    }
}

proof fn lemma_push_ascending(ks: Seq<BlockDeviceKey>, s: Seq<DiskstatsRaw>, k: BlockDeviceKey)
    requires
        keys_ascending(ks),
        keys_within(ks, s),
        forall|i: int| 0 <= i < s.len() ==> dkey_lt(#[trigger] s[i].key, k),
    ensures
        keys_ascending(ks.push(k)),
{
    let r = ks.push(k);
    assert forall|i: int, j: int| 0 <= i < j < r.len() implies dkey_lt(#[trigger] r[i], #[trigger] r[j]) by {
        if j == ks.len() {
            assert(has_device(s, ks[i]));
            let m = choose|m: int| 0 <= m < s.len() && (#[trigger] s[m]).key == ks[i];
            assert(dkey_lt(s[m].key, k));
        } else {
            assert(r[i] == ks[i] && r[j] == ks[j]);
        }
    }
}

proof fn lemma_keys_within_push(ks: Seq<BlockDeviceKey>, s: Seq<DiskstatsRaw>, extra: DiskstatsRaw)
    requires
        keys_within(ks, s.drop_last()),
        s.len() > 0,
        s.last() == extra,
    ensures
        keys_within(ks, s),
        keys_within(ks.push(extra.key), s),
{
    assert forall|i: int| 0 <= i < ks.len() implies has_device(s, #[trigger] ks[i]) by {
        assert(has_device(s.drop_last(), ks[i]));
        let m = choose|m: int| 0 <= m < s.drop_last().len() && (#[trigger] s.drop_last()[m]).key == ks[i];
        assert(s[m].key == ks[i]);
    }
    let r = ks.push(extra.key);
    assert forall|i: int| 0 <= i < r.len() implies has_device(s, #[trigger] r[i]) by {
        if i == ks.len() {
            assert(s[s.len() - 1].key == extra.key);
        } else {
            assert(r[i] == ks[i]);
        }
    }
}

/// With the end read well formed, the pass reports devices, appeared and
/// renamed identities in ascending identity order, each an end identity;
/// an identity appeared exactly when the end read has it and the start read
/// does not.
proof fn lemma_disk_pass_ordered(start: Seq<DiskstatsRaw>, end: Seq<DiskstatsRaw>)
    requires
        keys_sorted(disk_entries(end)),
    ensures
        keys_ascending(pair_keys(disk_pass(start, end).0)),
        keys_within(pair_keys(disk_pass(start, end).0), end),
        keys_ascending(disk_pass(start, end).1),
        keys_within(disk_pass(start, end).1, end),
        keys_ascending(disk_pass(start, end).2),
        keys_within(disk_pass(start, end).2, end),
        forall|k: BlockDeviceKey|
            #[trigger] disk_pass(start, end).1.contains(k) <==> has_device(end, k) && !has_device(start, k),
    decreases end.len(),
{
    let (pairs, appeared, renamed, regressed) = disk_pass(start, end);
    if end.len() == 0 {
        assert(pair_keys(pairs) =~= Seq::<BlockDeviceKey>::empty());
    } else {
        let e = end.drop_last();
        let f = end.last();
        lemma_sorted_drop_last(end);
        lemma_disk_pass_ordered(start, e);
        let (p0, a0, r0, g0) = disk_pass(start, e);
        lemma_disk_with_key_none(start, f.key);
        lemma_keys_within_push(pair_keys(p0), end, f);
        lemma_keys_within_push(a0, end, f);
        lemma_keys_within_push(r0, end, f);
        lemma_push_ascending(pair_keys(p0), e, f.key);
        lemma_push_ascending(a0, e, f.key);
        lemma_push_ascending(r0, e, f.key);
        match disk_with_key(start, f.key) {
            None => {},
            Some(b) => {
                assert(pair_keys(p0.push((b, f))) =~= pair_keys(p0).push(f.key));
            },
        }
        assert forall|k: BlockDeviceKey| #[trigger] appeared.contains(k) <==> has_device(end, k) && !has_device(start, k) by {
            if has_device(end, k) && k != f.key {
                let m = choose|m: int| 0 <= m < end.len() && (#[trigger] end[m]).key == k;
                assert(m < end.len() - 1);
                assert(e[m].key == k);
            }
            if has_device(e, k) {
                let m = choose|m: int| 0 <= m < e.len() && (#[trigger] e[m]).key == k;
                assert(end[m].key == k);
            }
            if appeared.contains(k) && disk_with_key(start, f.key) is None {
                let m = choose|m: int| 0 <= m < appeared.len() && appeared[m] == k;
                if m < a0.len() {
                    assert(a0[m] == k);
                    assert(a0.contains(k));
                }
            }
            if disk_with_key(start, f.key) is None && a0.contains(k) {
                let m = choose|m: int| 0 <= m < a0.len() && a0[m] == k;
                assert(appeared[m] == k);
            }
            if disk_with_key(start, f.key) is None && k == f.key {
                assert(appeared[a0.len() as int] == k);
            }
            assert(end[end.len() - 1].key == f.key);
        }
    }
}

proof fn lemma_disks_exited_ordered(start: Seq<DiskstatsRaw>, end: Seq<DiskstatsRaw>)
    requires
        keys_sorted(disk_entries(start)),
    ensures
        keys_ascending(disks_exited(start, end)),
        keys_within(disks_exited(start, end), start),
        forall|k: BlockDeviceKey|
            #[trigger] disks_exited(start, end).contains(k) <==> has_device(start, k) && !has_device(end, k),
    decreases start.len(),
{
    let x = disks_exited(start, end);
    if start.len() > 0 {
        let s0 = start.drop_last();
        let l = start.last();
        lemma_sorted_drop_last(start);
        lemma_disks_exited_ordered(s0, end);
        let x0 = disks_exited(s0, end);
        lemma_disk_with_key_none(end, l.key);
        lemma_keys_within_push(x0, start, l);
        lemma_push_ascending(x0, s0, l.key);
        assert forall|k: BlockDeviceKey| #[trigger] x.contains(k) <==> has_device(start, k) && !has_device(end, k) by {
            if has_device(start, k) && k != l.key {
                let m = choose|m: int| 0 <= m < start.len() && (#[trigger] start[m]).key == k;
                assert(m < start.len() - 1);
                assert(s0[m].key == k);
            }
            if has_device(s0, k) {
                let m = choose|m: int| 0 <= m < s0.len() && (#[trigger] s0[m]).key == k;
                assert(start[m].key == k);
            }
            if x.contains(k) && disk_with_key(end, l.key) is None {
                let m = choose|m: int| 0 <= m < x.len() && x[m] == k;
                if m < x0.len() {
                    assert(x0[m] == k);
                    assert(x0.contains(k));
                }
            }
            if disk_with_key(end, l.key) is None && x0.contains(k) {
                let m = choose|m: int| 0 <= m < x0.len() && x0[m] == k;
                assert(x[m] == k);
            }
            if disk_with_key(end, l.key) is None && k == l.key {
                assert(x[x0.len() as int] == k);
            }
            assert(start[start.len() - 1].key == l.key);
        }
    }
}

/// For well-formed reads a diskstats interval compares two maps keyed by
/// device identity: the reported devices, the appeared, exited and renamed
/// identities all come in strictly ascending identity order; an identity
/// appeared exactly when only the end read has it, and exited exactly when
/// only the start read has it.
pub proof fn lemma_diskstats_interval_keyed(
    start: DiskstatsSnapshot,
    end: DiskstatsSnapshot,
    o: DiskstatsObservation,
)
    requires
        diskstats_wf(start),
        diskstats_wf(end),
        disk_observation_holds(o, Ok(start), Ok(end)),
    ensures
        forall|i: int, j: int|
            0 <= i < j < o.devices@.len() ==> dkey_lt(#[trigger] o.devices@[i].key, #[trigger] o.devices@[j].key),
        keys_ascending(o.issues.appeared@),
        keys_ascending(o.issues.exited@),
        keys_ascending(o.issues.identity_changed@),
        forall|k: BlockDeviceKey|
            #[trigger] o.issues.appeared@.contains(k) <==> has_device(end.devices@, k) && !has_device(
                start.devices@,
                k,
            ),
        forall|k: BlockDeviceKey|
            #[trigger] o.issues.exited@.contains(k) <==> has_device(start.devices@, k) && !has_device(
                end.devices@,
                k,
            ),
{
    let (pairs, appeared, renamed, regressed) = disk_pass(start.devices@, end.devices@);
    lemma_disk_pass_ordered(start.devices@, end.devices@);
    lemma_disks_exited_ordered(start.devices@, end.devices@);
    let pk = pair_keys(pairs);
    assert forall|i: int, j: int| 0 <= i < j < o.devices@.len() implies dkey_lt(
        #[trigger] o.devices@[i].key,
        #[trigger] o.devices@[j].key,
    ) by {
        assert(disk_interval_is(o.devices@[i], pairs[i].0, pairs[i].1));
        assert(disk_interval_is(o.devices@[j], pairs[j].0, pairs[j].1));
        assert(pk[i] == pairs[i].1.key && pk[j] == pairs[j].1.key);
    }
}


// ---------------------------------------------------------------------------
// Process I/O samples as a map keyed by process identity
// ---------------------------------------------------------------------------

/// Samples strictly ordered by process key, so that no key occurs twice.
pub open spec fn samples_sorted(s: Seq<(ProcessKey, ProcessIoSample)>) -> bool {
    forall|i: int, j: int| 0 <= i < j < s.len() ==> key_lt(#[trigger] s[i].0, #[trigger] s[j].0)
}

/// A process I/O read is well formed when its samples are strictly ordered
/// by key; storing samples one by one with `process_io_step`, starting from
/// none, keeps it so.
pub open spec fn process_io_wf(s: ProcessIoSnapshot) -> bool {
    samples_sorted(s.processes@)
}

proof fn lemma_samples_sorted_tail(s: Seq<(ProcessKey, ProcessIoSample)>)
    requires
        samples_sorted(s),
        s.len() > 0,
    ensures
        samples_sorted(s.drop_first()),
        forall|i: int| 0 < i < s.len() ==> key_lt(s[0].0, #[trigger] s[i].0),
{
    let t = s.drop_first();
    assert forall|i: int, j: int| 0 <= i < j < t.len() implies key_lt(#[trigger] t[i].0, #[trigger] t[j].0) by {
        assert(t[i] == s[i + 1] && t[j] == s[j + 1]);
    }
}

proof fn lemma_key_lt_not_found(s: Seq<(ProcessKey, ProcessIoSample)>, k: ProcessKey)
    requires
        samples_sorted(s),
        s.len() > 0,
        key_lt(k, s[0].0),
    ensures
        sample_with_key(s, k) is None,
    decreases s.len(),
{
    assert(s[0].0 != k);
    assert(sample_with_key(s, k) == sample_with_key(s.drop_first(), k));
    if s.len() > 1 {
        lemma_samples_sorted_tail(s);
        assert(key_lt(s[0].0, s[1].0));
        assert(s.drop_first()[0] == s[1]);
        lemma_key_lt_not_found(s.drop_first(), k);
    }
}

/// Storing a sample is a map update: the samples stay strictly ordered by
/// key, the stored key then finds the new sample, every other key finds what
/// it found before, and the read holds one more sample exactly when the key
/// was new.
pub proof fn lemma_insert_sample_is_map_insert(
    s: Seq<(ProcessKey, ProcessIoSample)>,
    k: ProcessKey,
    v: ProcessIoSample,
)
    requires
        samples_sorted(s),
    ensures
        samples_sorted(insert_sample(s, k, v)),
        sample_with_key(insert_sample(s, k, v), k) == Some(v),
        forall|other: ProcessKey|
            other != k ==> #[trigger] sample_with_key(insert_sample(s, k, v), other) == sample_with_key(
                s,
                other,
            ),
        insert_sample(s, k, v).len() == s.len() + if sample_with_key(s, k) is None {
            1int
        } else {
            0int
        },
    decreases s.len(),
{
    let r = insert_sample(s, k, v);
    if s.len() == 0 {
        assert forall|other: ProcessKey| other != k implies #[trigger] sample_with_key(r, other)
            == sample_with_key(s, other) by {
            assert(r.drop_first() =~= Seq::<(ProcessKey, ProcessIoSample)>::empty());
            assert(sample_with_key(r, other) == sample_with_key(r.drop_first(), other));
        }
    } else if key_lt(k, s[0].0) {
        lemma_key_lt_not_found(s, k);
        assert(r.drop_first() =~= s);
        assert forall|other: ProcessKey| other != k implies #[trigger] sample_with_key(r, other)
            == sample_with_key(s, other) by {
            assert(sample_with_key(r, other) == sample_with_key(r.drop_first(), other));
        }
        assert forall|i: int, j: int| 0 <= i < j < r.len() implies key_lt(#[trigger] r[i].0, #[trigger] r[j].0) by {
            if i == 0 {
                assert(r[j] == s[j - 1]);
                if j - 1 > 0 {
                    assert(key_lt(s[0].0, s[j - 1].0));
                }
            } else {
                assert(r[i] == s[i - 1] && r[j] == s[j - 1]);
            }
        }
    } else if k == s[0].0 {
        let t = s.drop_first();
        lemma_samples_sorted_tail(s);
        assert(r.drop_first() =~= t);
        assert forall|other: ProcessKey| other != k implies #[trigger] sample_with_key(r, other)
            == sample_with_key(s, other) by {
            assert(sample_with_key(r, other) == sample_with_key(r.drop_first(), other));
            assert(sample_with_key(s, other) == sample_with_key(t, other));
        }
        assert forall|i: int, j: int| 0 <= i < j < r.len() implies key_lt(#[trigger] r[i].0, #[trigger] r[j].0) by {
            if i == 0 {
                assert(r[j] == s[j]);
            } else {
                assert(r[i] == s[i] && r[j] == s[j]);
            }
        }
    } else {
        let t = s.drop_first();
        lemma_samples_sorted_tail(s);
        lemma_insert_sample_is_map_insert(t, k, v);
        let rt = insert_sample(t, k, v);
        assert(r =~= seq![s[0]] + rt);
        assert(r.drop_first() =~= rt);
        assert(key_lt(s[0].0, k)) by {
            assert(!key_lt(k, s[0].0) && k != s[0].0);
        }
        assert forall|i: int, j: int| 0 <= i < j < r.len() implies key_lt(#[trigger] r[i].0, #[trigger] r[j].0) by {
            if i == 0 {
                let y = rt[j - 1];
                assert(r[j] == y);
                if y.0 != k {
                    assert(sample_with_key(rt, y.0) is Some) by {
                        lemma_found_at(rt, j - 1);
                    }
                    assert(sample_with_key(t, y.0) is Some);
                    lemma_found_is_after(s, y.0);
                }
            } else {
                assert(r[i] == rt[i - 1] && r[j] == rt[j - 1]);
            }
        }
        assert forall|other: ProcessKey| other != k implies #[trigger] sample_with_key(r, other)
            == sample_with_key(s, other) by {
            if other != s[0].0 {
                assert(sample_with_key(r, other) == sample_with_key(rt, other));
                assert(sample_with_key(s, other) == sample_with_key(t, other));
            }
        }
        assert(sample_with_key(r, k) == sample_with_key(rt, k));
        assert(sample_with_key(s, k) == sample_with_key(t, k));
    }
}

proof fn lemma_found_at(s: Seq<(ProcessKey, ProcessIoSample)>, i: int)
    requires
        0 <= i < s.len(),
    ensures
        sample_with_key(s, s[i].0) is Some,
    decreases i,
{
    if i > 0 && s[0].0 != s[i].0 {
        lemma_found_at(s.drop_first(), i - 1);
        assert(s.drop_first()[i - 1] == s[i]);
    }
}

proof fn lemma_found_is_after(s: Seq<(ProcessKey, ProcessIoSample)>, k: ProcessKey)
    requires
        samples_sorted(s),
        s.len() > 0,
        sample_with_key(s.drop_first(), k) is Some,
    ensures
        key_lt(s[0].0, k),
    decreases s.len(),
{
    let t = s.drop_first();
    lemma_samples_sorted_tail(s);
    assert(t.len() > 0);
    if t[0].0 == k {
        assert(key_lt(s[0].0, s[1].0));
    } else {
        assert(sample_with_key(t, k) == sample_with_key(t.drop_first(), k));
        assert(t.len() > 1);
        lemma_found_is_after(t, k);
        assert(key_lt(s[0].0, s[1].0));
    }
}


/// A sampling step keeps the samples strictly ordered by key.
pub proof fn lemma_process_io_step_keeps_order(
    step: ProcessIoStep,
    event: ProcessIoEvent,
    issues: ProcessIoCollectionIssues,
    before: Seq<(ProcessKey, ProcessIoSample)>,
)
    requires
        samples_sorted(before),
    ensures
        samples_sorted(
            match process_io_transition(step, event, issues).2 {
                Some((k, v)) => insert_sample(before, k, v),
                None => before,
            },
        ),
{
    match process_io_transition(step, event, issues).2 {
        Some((k, v)) => lemma_insert_sample_is_map_insert(before, k, v),
        None => {},
    }
}


proof fn lemma_sample_with_own_key(s: Seq<(ProcessKey, ProcessIoSample)>, i: int)
    requires
        samples_sorted(s),
        0 <= i < s.len(),
    ensures
        sample_with_key(s, s[i].0) == Some(s[i].1),
    decreases i,
{
    if i > 0 {
        lemma_samples_sorted_tail(s);
        assert(key_lt(s[0].0, s[i].0));
        lemma_sample_with_own_key(s.drop_first(), i - 1);
        assert(s.drop_first()[i - 1] == s[i]);
    }
}

/// Each interval of the pass is that of a key of `end`, computed from the
/// start sample found for it and that end sample.
proof fn lemma_process_pass_keyed(start: Seq<(ProcessKey, ProcessIoSample)>, end: Seq<(ProcessKey, ProcessIoSample)>)
    requires
        samples_sorted(end),
    ensures
        forall|i: int, j: int|
            0 <= i < j < process_pass(start, end).0.len() ==> key_lt(
                #[trigger] process_pass(start, end).0[i].key,
                #[trigger] process_pass(start, end).0[j].key,
            ),
        forall|i: int|
            0 <= i < process_pass(start, end).0.len() ==> exists|m: int|
                0 <= m < end.len() && (#[trigger] process_pass(start, end).0[i]).key == end[m].0
                    && sample_with_key(start, end[m].0) is Some && process_pass(start, end).0[i]
                    == process_interval(end[m].0, sample_with_key(start, end[m].0)->0, end[m].1),
    decreases end.len(),
{
    if end.len() > 0 {
        let e = end.drop_last();
        assert forall|i: int, j: int| 0 <= i < j < e.len() implies key_lt(#[trigger] e[i].0, #[trigger] e[j].0) by {
            assert(e[i] == end[i] && e[j] == end[j]);
        }
        lemma_process_pass_keyed(start, e);
        let p = process_pass(start, e).0;
        let r = process_pass(start, end).0;
        let (k, f) = end.last();
        assert(end[end.len() - 1] == end.last());
        assert forall|i: int| 0 <= i < p.len() implies exists|m: int|
            0 <= m < end.len() && (#[trigger] p[i]).key == end[m].0 && sample_with_key(start, end[m].0) is Some
                && p[i] == process_interval(end[m].0, sample_with_key(start, end[m].0)->0, end[m].1) by {
            let m = choose|m: int|
                0 <= m < e.len() && (#[trigger] p[i]).key == e[m].0 && sample_with_key(start, e[m].0) is Some
                    && p[i] == process_interval(e[m].0, sample_with_key(start, e[m].0)->0, e[m].1);
            assert(end[m] == e[m]);
        }
        if r.len() > p.len() {
            assert(r =~= p.push(r[p.len() as int]));
            assert(r[p.len() as int].key == k);
            assert forall|i: int| 0 <= i < r.len() implies exists|m: int|
                0 <= m < end.len() && (#[trigger] r[i]).key == end[m].0 && sample_with_key(start, end[m].0) is Some
                    && r[i] == process_interval(end[m].0, sample_with_key(start, end[m].0)->0, end[m].1) by {
                if i < p.len() {
                    assert(r[i] == p[i]);
                } else {
                    assert(r[i].key == end[end.len() - 1].0);
                }
            }
            assert forall|i: int, j: int| 0 <= i < j < r.len() implies key_lt(#[trigger] r[i].key, #[trigger] r[j].key) by {
                if j == p.len() {
                    assert(r[i] == p[i]);
                    let m = choose|m: int|
                        0 <= m < end.len() && (#[trigger] p[i]).key == end[m].0 && sample_with_key(start, end[m].0) is Some
                            && p[i] == process_interval(end[m].0, sample_with_key(start, end[m].0)->0, end[m].1);
                    if m == end.len() - 1 {
                        assert(false) by {
                            let m2 = choose|m2: int|
                                0 <= m2 < e.len() && (#[trigger] p[i]).key == e[m2].0 && sample_with_key(start, e[m2].0) is Some
                                    && p[i] == process_interval(e[m2].0, sample_with_key(start, e[m2].0)->0, e[m2].1);
                            assert(key_lt(end[m2].0, end[end.len() - 1].0));
                        }
                    }
                    assert(key_lt(end[m].0, end[end.len() - 1].0));
                } else {
                    assert(r[i] == p[i] && r[j] == p[j]);
                }
            }
        } else {
            assert(r =~= p);
        }
    }
}

/// For a well-formed end read, a process I/O interval is keyed: the
/// reported processes have distinct keys, each key is held by both reads,
/// and each interval is computed from the start sample and the end sample of
/// its key.
pub proof fn lemma_process_interval_keyed(start: ProcessIoSnapshot, end: ProcessIoSnapshot)
    requires
        process_io_wf(end),
    ensures
        forall|i: int, j: int|
            0 <= i < j < process_pass(start.processes@, end.processes@).0.len() ==> (#[trigger] process_pass(
                start.processes@,
                end.processes@,
            ).0[i]).key != (#[trigger] process_pass(start.processes@, end.processes@).0[j]).key,
        forall|i: int|
            0 <= i < process_pass(start.processes@, end.processes@).0.len() ==> {
                let iv = #[trigger] process_pass(start.processes@, end.processes@).0[i];
                &&& sample_with_key(start.processes@, iv.key) is Some
                &&& sample_with_key(end.processes@, iv.key) is Some
                &&& iv == process_interval(
                    iv.key,
                    sample_with_key(start.processes@, iv.key)->0,
                    sample_with_key(end.processes@, iv.key)->0,
                )
            },
{
    let sp = start.processes@;
    let ep = end.processes@;
    lemma_process_pass_keyed(sp, ep);
    let r = process_pass(sp, ep).0;
    assert forall|i: int| 0 <= i < r.len() implies {
        let iv = #[trigger] r[i];
        &&& sample_with_key(sp, iv.key) is Some
        &&& sample_with_key(ep, iv.key) is Some
        &&& iv == process_interval(iv.key, sample_with_key(sp, iv.key)->0, sample_with_key(ep, iv.key)->0)
    } by {
        let m = choose|m: int|
            0 <= m < ep.len() && (#[trigger] r[i]).key == ep[m].0 && sample_with_key(sp, ep[m].0) is Some
                && r[i] == process_interval(ep[m].0, sample_with_key(sp, ep[m].0)->0, ep[m].1);
        lemma_sample_with_own_key(ep, m);
    }
    assert forall|i: int, j: int| 0 <= i < j < r.len() implies (#[trigger] r[i]).key != (#[trigger] r[j]).key by {
        assert(key_lt(r[i].key, r[j].key));
    }
}


/// The keys of a list of samples.
pub open spec fn sample_keys(s: Seq<(ProcessKey, ProcessIoSample)>) -> Set<ProcessKey> {
    Set::new(|k: ProcessKey| exists|i: int| 0 <= i < s.len() && (#[trigger] s[i]).0 == k)
}

proof fn lemma_sample_with_key_none(s: Seq<(ProcessKey, ProcessIoSample)>, k: ProcessKey)
    ensures
        sample_with_key(s, k) is None <==> !sample_keys(s).contains(k),
    decreases s.len(),
{
    if s.len() > 0 {
        lemma_sample_with_key_none(s.drop_first(), k);
        if sample_keys(s).contains(k) && s[0].0 != k {
            let i = choose|i: int| 0 <= i < s.len() && (#[trigger] s[i]).0 == k;
            assert(s.drop_first()[i - 1].0 == k);
            assert(sample_keys(s.drop_first()).contains(k));
        }
        if sample_keys(s.drop_first()).contains(k) {
            let i = choose|i: int| 0 <= i < s.drop_first().len() && (#[trigger] s.drop_first()[i]).0 == k;
            assert(s[i + 1].0 == k);
        }
        if s[0].0 == k {
            assert(sample_keys(s).contains(k));
        }
    }
}

proof fn lemma_count_missing_is_difference(
    from: Seq<(ProcessKey, ProcessIoSample)>,
    other: Seq<(ProcessKey, ProcessIoSample)>,
)
    requires
        samples_sorted(from),
    ensures
        sample_keys(from).difference(sample_keys(other)).finite(),
        count_missing(from, other) == sample_keys(from).difference(sample_keys(other)).len(),
    decreases from.len(),
{
    let d = sample_keys(from).difference(sample_keys(other));
    if from.len() == 0 {
        assert(d =~= Set::<ProcessKey>::empty());
    } else {
        let f = from.drop_last();
        let k = from.last().0;
        assert forall|i: int, j: int| 0 <= i < j < f.len() implies key_lt(#[trigger] f[i].0, #[trigger] f[j].0) by {
            assert(f[i] == from[i] && f[j] == from[j]);
        }
        lemma_count_missing_is_difference(f, other);
        let d0 = sample_keys(f).difference(sample_keys(other));
        assert(from[from.len() - 1] == from.last());
        assert(sample_keys(from) =~= sample_keys(f).insert(k)) by {
            assert forall|x: ProcessKey| sample_keys(from).contains(x) implies #[trigger] sample_keys(f).insert(k).contains(x) by {
                let i = choose|i: int| 0 <= i < from.len() && (#[trigger] from[i]).0 == x;
                if i < f.len() {
                    assert(f[i].0 == x);
                }
            }
            assert forall|x: ProcessKey| sample_keys(f).insert(k).contains(x) implies #[trigger] sample_keys(from).contains(x) by {
                if x != k {
                    let i = choose|i: int| 0 <= i < f.len() && (#[trigger] f[i]).0 == x;
                    assert(from[i].0 == x);
                }
            }
        }
        assert(!sample_keys(f).contains(k)) by {
            if sample_keys(f).contains(k) {
                let i = choose|i: int| 0 <= i < f.len() && (#[trigger] f[i]).0 == k;
                assert(key_lt(from[i].0, from[from.len() - 1].0));
            }
        }
        lemma_sample_with_key_none(other, k);
        if sample_with_key(other, k) is None {
            assert(d =~= d0.insert(k));
            assert(!d0.contains(k));
        } else {
            assert(d =~= d0);
        }
    }
}

/// For well-formed reads, the appeared and exited counts of a process I/O
/// interval count keys, as two maps would: appeared counts the keys of the
/// end read missing from the start read, and exited the keys of the start
/// read missing from the end read (each held to `u32`).
pub proof fn lemma_process_counts_are_key_differences(start: ProcessIoSnapshot, end: ProcessIoSnapshot)
    requires
        process_io_wf(start),
        process_io_wf(end),
    ensures
        sample_keys(end.processes@).difference(sample_keys(start.processes@)).finite(),
        sample_keys(start.processes@).difference(sample_keys(end.processes@)).finite(),
        process_interval_issues(start, end).appeared == count_clamped(
            sample_keys(end.processes@).difference(sample_keys(start.processes@)).len(),
        ),
        process_interval_issues(start, end).exited == count_clamped(
            sample_keys(start.processes@).difference(sample_keys(end.processes@)).len(),
        ),
{
    lemma_count_missing_is_difference(end.processes@, start.processes@);
    lemma_count_missing_is_difference(start.processes@, end.processes@);
}


proof fn lemma_disk_with_key_push(s: Seq<DiskstatsRaw>, x: DiskstatsRaw, k: BlockDeviceKey)
    ensures
        disk_with_key(s.push(x), k) == if disk_with_key(s, k) is Some {
            disk_with_key(s, k)
        } else if x.key == k {
            Some(x)
        } else {
            None
        },
    decreases s.len(),
{
    if s.len() > 0 {
        assert(s.push(x).drop_first() =~= s.drop_first().push(x));
        assert(s.push(x)[0] == s[0]);
        lemma_disk_with_key_push(s.drop_first(), x, k);
    } else {
        assert(s.push(x).drop_first() =~= Seq::<DiskstatsRaw>::empty());
        assert(s.push(x)[0] == x);
        assert(disk_with_key(s.push(x).drop_first(), k) is None);
    }
}

/// A device is reported exactly when both reads hold its identity under the
/// same name and at least one of its counters did not decrease.
proof fn lemma_disk_pass_members(start: Seq<DiskstatsRaw>, end: Seq<DiskstatsRaw>)
    requires
        keys_sorted(disk_entries(end)),
    ensures
        forall|k: BlockDeviceKey|
            #[trigger] pair_keys(disk_pass(start, end).0).contains(k) <==> (disk_with_key(start, k) matches Some(
                b,
            ) && disk_with_key(end, k) matches Some(f) && b.name@ == f.name@ && any_disk_delta(b, f)),
    decreases end.len(),
{
    if end.len() > 0 {
        let e = end.drop_last();
        let f = end.last();
        lemma_sorted_drop_last(end);
        lemma_disk_pass_members(start, e);
        lemma_disk_pass_ordered(start, e);
        let p0 = disk_pass(start, e).0;
        let p = disk_pass(start, end).0;
        assert(e.push(f) =~= end);
        lemma_disk_with_key_none(e, f.key);
        assert(!has_device(e, f.key)) by {
            if has_device(e, f.key) {
                let m = choose|m: int| 0 <= m < e.len() && (#[trigger] e[m]).key == f.key;
                assert(dkey_lt(e[m].key, f.key));
            }
        }
        assert forall|k: BlockDeviceKey| #[trigger] pair_keys(p).contains(k) <==> (disk_with_key(start, k) matches Some(
            b,
        ) && disk_with_key(end, k) matches Some(g) && b.name@ == g.name@ && any_disk_delta(b, g)) by {
            lemma_disk_with_key_push(e, f, k);
            let pk0 = pair_keys(p0);
            let pk = pair_keys(p);
            if p.len() > p0.len() {
                assert(p =~= p0.push(p[p0.len() as int]));
                assert(pk =~= pk0.push(f.key));
                if pk.contains(k) && !pk0.contains(k) {
                    let m = choose|m: int| 0 <= m < pk.len() && pk[m] == k;
                    if m < pk0.len() {
                        assert(pk0[m] == k);
                    }
                }
                if pk0.contains(k) {
                    let m = choose|m: int| 0 <= m < pk0.len() && pk0[m] == k;
                    assert(pk[m] == k);
                }
                if k == f.key {
                    assert(pk[pk0.len() as int] == k);
                }
            } else {
                assert(p =~= p0);
            }
            if pk0.contains(k) {
                assert(keys_within(pk0, e));
                let m = choose|m: int| 0 <= m < pk0.len() && pk0[m] == k;
                assert(has_device(e, pk0[m]));
                lemma_disk_with_key_none(e, k);
            }
            if k == f.key {
                lemma_disk_with_key_none(e, k);
            }
        }
    }
}

/// For well-formed reads, the devices of a diskstats interval are those of
/// a comparison of two maps: an identity is reported exactly when both reads
/// hold it under the same name and at least one of its counters did not
/// decrease.
pub proof fn lemma_diskstats_interval_members(
    start: DiskstatsSnapshot,
    end: DiskstatsSnapshot,
    o: DiskstatsObservation,
    k: BlockDeviceKey,
)
    requires
        diskstats_wf(start),
        diskstats_wf(end),
        disk_observation_holds(o, Ok(start), Ok(end)),
    ensures
        (exists|i: int| 0 <= i < o.devices@.len() && (#[trigger] o.devices@[i]).key == k) <==> (disk_with_key(
            start.devices@,
            k,
        ) matches Some(b) && disk_with_key(end.devices@, k) matches Some(f) && b.name@ == f.name@
            && any_disk_delta(b, f)),
{
    let (pairs, appeared, renamed, regressed) = disk_pass(start.devices@, end.devices@);
    lemma_disk_pass_members(start.devices@, end.devices@);
    let pk = pair_keys(pairs);
    if exists|i: int| 0 <= i < o.devices@.len() && (#[trigger] o.devices@[i]).key == k {
        let i = choose|i: int| 0 <= i < o.devices@.len() && (#[trigger] o.devices@[i]).key == k;
        assert(disk_interval_is(o.devices@[i], pairs[i].0, pairs[i].1));
        assert(pk[i] == k);
        assert(pk.contains(k));
    }
    if pk.contains(k) {
        let m = choose|m: int| 0 <= m < pk.len() && pk[m] == k;
        assert(disk_interval_is(o.devices@[m], pairs[m].0, pairs[m].1));
        assert(o.devices@[m].key == k);
    }
}


/// The position of a counter in declaration order.
pub open spec fn disk_counter_rank(c: DiskstatsCounter) -> int {
    match c {
        DiskstatsCounter::ReadsCompleted => 0,
        DiskstatsCounter::SectorsRead512 => 1,
        DiskstatsCounter::WritesCompleted => 2,
        DiskstatsCounter::SectorsWritten512 => 3,
        DiskstatsCounter::IoTicksMs => 4,
        DiskstatsCounter::WeightedIoTicksMs => 5,
    }
}

/// Regressions ordered by device identity, then by counter.
pub open spec fn regression_before(a: DiskstatsCounterRegression, b: DiskstatsCounterRegression) -> bool {
    dkey_lt(a.key, b.key) || (a.key == b.key && disk_counter_rank(a.counter) < disk_counter_rank(
        b.counter,
    ))
}

pub open spec fn regressions_ordered(r: Seq<DiskstatsCounterRegression>) -> bool {
    forall|i: int, j: int| 0 <= i < j < r.len() ==> regression_before(#[trigger] r[i], #[trigger] r[j])
}

proof fn lemma_disk_regressions_shape(b: DiskstatsRaw, f: DiskstatsRaw)
    ensures
        regressions_ordered(disk_regressions(b, f)),
        forall|i: int|
            0 <= i < disk_regressions(b, f).len() ==> (#[trigger] disk_regressions(b, f)[i]).key == f.key,
{
    let k = f.key;
    let r0 = regression_if(k, DiskstatsCounter::ReadsCompleted, b.reads_completed, f.reads_completed);
    let r1 = regression_if(k, DiskstatsCounter::SectorsRead512, b.sectors_read_512, f.sectors_read_512);
    let r2 = regression_if(k, DiskstatsCounter::WritesCompleted, b.writes_completed, f.writes_completed);
    let r3 = regression_if(k, DiskstatsCounter::SectorsWritten512, b.sectors_written_512, f.sectors_written_512);
    let r4 = regression_if(k, DiskstatsCounter::IoTicksMs, b.io_ticks_ms, f.io_ticks_ms);
    let r5 = regression_if(k, DiskstatsCounter::WeightedIoTicksMs, b.weighted_io_ticks_ms, f.weighted_io_ticks_ms);
    let parts = seq![r0, r1, r2, r3, r4, r5];
    let r = disk_regressions(b, f);
    assert(r == r0 + r1 + r2 + r3 + r4 + r5);
    // Each part holds at most its own counter, of rank equal to its place.
    assert forall|p: int, i: int| 0 <= p < 6 && 0 <= i < parts[p].len() implies (#[trigger] parts[p][i]).key == k
        && disk_counter_rank(parts[p][i].counter) == p && i == 0 by {}
    assert(r.len() == r0.len() + r1.len() + r2.len() + r3.len() + r4.len() + r5.len());
    assert forall|i: int| 0 <= i < r.len() implies (#[trigger] r[i]).key == k && disk_counter_rank(r[i].counter)
        >= 0 && (forall|j: int| i < j < r.len() ==> disk_counter_rank(r[i].counter) < disk_counter_rank(
        #[trigger] r[j].counter,
    )) by {
        // Place i and j in their parts.
        let c0 = r0.len() as int;
        let c1 = c0 + r1.len();
        let c2 = c1 + r2.len();
        let c3 = c2 + r3.len();
        let c4 = c3 + r4.len();
        assert(r0.len() <= 1 && r1.len() <= 1 && r2.len() <= 1 && r3.len() <= 1 && r4.len() <= 1 && r5.len() <= 1);
        let place = |x: int| if x < c0 { 0int } else if x < c1 { 1int } else if x < c2 { 2int } else if x < c3 { 3int } else if x < c4 { 4int } else { 5int };
        assert forall|x: int| 0 <= x < r.len() implies disk_counter_rank(#[trigger] r[x].counter) == place(x) && r[x].key == k by {
            if x < c0 {
                assert(r[x] == r0[x]);
            } else if x < c1 {
                assert(r[x] == r1[x - c0]);
            } else if x < c2 {
                assert(r[x] == r2[x - c1]);
            } else if x < c3 {
                assert(r[x] == r3[x - c2]);
            } else if x < c4 {
                assert(r[x] == r4[x - c3]);
            } else {
                assert(r[x] == r5[x - c4]);
            }
        }
        assert forall|j: int| i < j < r.len() implies disk_counter_rank(r[i].counter) < disk_counter_rank(
            #[trigger] r[j].counter,
        ) by {
            assert(disk_counter_rank(r[i].counter) == place(i));
            assert(disk_counter_rank(r[j].counter) == place(j));
        }
    }
    assert forall|i: int, j: int| 0 <= i < j < r.len() implies regression_before(#[trigger] r[i], #[trigger] r[j]) by {
        assert(r[i].key == k && r[j].key == k);
    }
}


/// With the end read well formed, the pass reports the regressions in
/// identity order, then counter order, each of an end identity; and an
/// identity is reported as renamed exactly when both reads hold it under
/// different names.
proof fn lemma_disk_pass_renamed_and_regressed(start: Seq<DiskstatsRaw>, end: Seq<DiskstatsRaw>)
    requires
        keys_sorted(disk_entries(end)),
    ensures
        regressions_ordered(disk_pass(start, end).3),
        forall|i: int|
            0 <= i < disk_pass(start, end).3.len() ==> has_device(end, (#[trigger] disk_pass(start, end).3[i]).key),
        forall|k: BlockDeviceKey|
            #[trigger] disk_pass(start, end).2.contains(k) <==> (disk_with_key(start, k) matches Some(b)
                && disk_with_key(end, k) matches Some(f) && b.name@ != f.name@),
    decreases end.len(),
{
    if end.len() > 0 {
        let e = end.drop_last();
        let f = end.last();
        lemma_sorted_drop_last(end);
        lemma_disk_pass_renamed_and_regressed(start, e);
        lemma_disk_pass_ordered(start, e);
        let (p0, a0, n0, g0) = disk_pass(start, e);
        let (p1, a1, n1, g1) = disk_pass(start, end);
        assert(e.push(f) =~= end);
        assert(end[end.len() - 1] == f);
        lemma_disk_with_key_none(e, f.key);
        assert(!has_device(e, f.key)) by {
            if has_device(e, f.key) {
                let m = choose|m: int| 0 <= m < e.len() && (#[trigger] e[m]).key == f.key;
                assert(dkey_lt(e[m].key, f.key));
            }
        }
        // Regressions.
        assert forall|i: int| 0 <= i < g0.len() implies has_device(end, (#[trigger] g0[i]).key) by {
            let m = choose|m: int| 0 <= m < e.len() && (#[trigger] e[m]).key == g0[i].key;
            assert(end[m] == e[m]);
        }
        match disk_with_key(start, f.key) {
            Some(b) => if b.name@ == f.name@ {
                let d = disk_regressions(b, f);
                lemma_disk_regressions_shape(b, f);
                assert(g1 == g0 + d);
                assert forall|i: int| 0 <= i < g1.len() implies has_device(end, (#[trigger] g1[i]).key) by {
                    if i < g0.len() {
                        assert(g1[i] == g0[i]);
                    } else {
                        assert(g1[i] == d[i - g0.len()]);
                    }
                }
                assert forall|i: int, j: int| 0 <= i < j < g1.len() implies regression_before(
                    #[trigger] g1[i],
                    #[trigger] g1[j],
                ) by {
                    if j < g0.len() {
                        assert(g1[i] == g0[i] && g1[j] == g0[j]);
                    } else if i < g0.len() {
                        assert(g1[i] == g0[i] && g1[j] == d[j - g0.len()]);
                        let m = choose|m: int| 0 <= m < e.len() && (#[trigger] e[m]).key == g0[i].key;
                        assert(dkey_lt(e[m].key, f.key));
                    } else {
                        assert(g1[i] == d[i - g0.len()] && g1[j] == d[j - g0.len()]);
                    }
                }
            },
            None => {},
        }
        // Renamed identities.
        assert forall|k: BlockDeviceKey| #[trigger] n1.contains(k) <==> (disk_with_key(start, k) matches Some(b)
            && disk_with_key(end, k) matches Some(g) && b.name@ != g.name@) by {
            lemma_disk_with_key_push(e, f, k);
            lemma_disk_with_key_none(e, k);
            if n1.len() > n0.len() {
                assert(n1 =~= n0.push(f.key));
                if n1.contains(k) && !n0.contains(k) {
                    let m = choose|m: int| 0 <= m < n1.len() && n1[m] == k;
                    if m < n0.len() {
                        assert(n0[m] == k);
                    }
                }
                if n0.contains(k) {
                    let m = choose|m: int| 0 <= m < n0.len() && n0[m] == k;
                    assert(n1[m] == k);
                }
                if k == f.key {
                    assert(n1[n0.len() as int] == k);
                }
            } else {
                assert(n1 =~= n0);
            }
            if n0.contains(k) {
                let m = choose|m: int| 0 <= m < n0.len() && n0[m] == k;
                assert(has_device(e, n0[m]));
            }
        }
    }
}

/// The value of one counter of a device.
pub open spec fn disk_counter_value(c: DiskstatsCounter, d: DiskstatsRaw) -> u64 {
    match c {
        DiskstatsCounter::ReadsCompleted => d.reads_completed,
        DiskstatsCounter::SectorsRead512 => d.sectors_read_512,
        DiskstatsCounter::WritesCompleted => d.writes_completed,
        DiskstatsCounter::SectorsWritten512 => d.sectors_written_512,
        DiskstatsCounter::IoTicksMs => d.io_ticks_ms,
        DiskstatsCounter::WeightedIoTicksMs => d.weighted_io_ticks_ms,
    }
}

proof fn lemma_disk_regressions_members(b: DiskstatsRaw, f: DiskstatsRaw, r: DiskstatsCounterRegression)
    ensures
        disk_regressions(b, f).contains(r) <==> (r.key == f.key && disk_counter_value(r.counter, f)
            < disk_counter_value(r.counter, b)),
{
    broadcast use vstd::seq_lib::lemma_seq_concat_contains_all_elements;
    let k = f.key;
    let parts = seq![
        DiskstatsCounter::ReadsCompleted,
        DiskstatsCounter::SectorsRead512,
        DiskstatsCounter::WritesCompleted,
        DiskstatsCounter::SectorsWritten512,
        DiskstatsCounter::IoTicksMs,
        DiskstatsCounter::WeightedIoTicksMs,
    ];
    assert forall|p: int| 0 <= p < 6 implies #[trigger] regression_if(
        k,
        parts[p],
        disk_counter_value(parts[p], b),
        disk_counter_value(parts[p], f),
    ).contains(r) <==> (r == (DiskstatsCounterRegression { key: k, counter: parts[p] }) && disk_counter_value(
        parts[p],
        f,
    ) < disk_counter_value(parts[p], b)) by {
        let q = regression_if(k, parts[p], disk_counter_value(parts[p], b), disk_counter_value(parts[p], f));
        if q.len() > 0 {
            assert(q[0] == DiskstatsCounterRegression { key: k, counter: parts[p] });
        }
    }
    assert(disk_regressions(b, f) == regression_if(k, parts[0], b.reads_completed, f.reads_completed)
        + regression_if(k, parts[1], b.sectors_read_512, f.sectors_read_512) + regression_if(
        k,
        parts[2],
        b.writes_completed,
        f.writes_completed,
    ) + regression_if(k, parts[3], b.sectors_written_512, f.sectors_written_512) + regression_if(
        k,
        parts[4],
        b.io_ticks_ms,
        f.io_ticks_ms,
    ) + regression_if(k, parts[5], b.weighted_io_ticks_ms, f.weighted_io_ticks_ms));
}

/// A counter is reported as decreased exactly when both reads hold the
/// identity under one name and its end value is lower.
proof fn lemma_disk_pass_regressions(start: Seq<DiskstatsRaw>, end: Seq<DiskstatsRaw>, r: DiskstatsCounterRegression)
    requires
        keys_sorted(disk_entries(end)),
    ensures
        disk_pass(start, end).3.contains(r) <==> (disk_with_key(start, r.key) matches Some(b) && disk_with_key(
            end,
            r.key,
        ) matches Some(f) && b.name@ == f.name@ && disk_counter_value(r.counter, f) < disk_counter_value(
            r.counter,
            b,
        )),
    decreases end.len(),
{
    broadcast use vstd::seq_lib::lemma_seq_concat_contains_all_elements;
    if end.len() > 0 {
        let e = end.drop_last();
        let f = end.last();
        lemma_sorted_drop_last(end);
        lemma_disk_pass_regressions(start, e, r);
        assert(e.push(f) =~= end);
        lemma_disk_with_key_none(e, f.key);
        assert(!has_device(e, f.key)) by {
            if has_device(e, f.key) {
                let m = choose|m: int| 0 <= m < e.len() && (#[trigger] e[m]).key == f.key;
                assert(dkey_lt(e[m].key, f.key));
            }
        }
        lemma_disk_with_key_push(e, f, r.key);
        lemma_disk_with_key_none(start, f.key);
        match disk_with_key(start, f.key) {
            Some(b) => {
                lemma_disk_regressions_members(b, f, r);
            },
            None => {},
        }
    }
}

/// Each reported pair is the start and end device found for its identity.
proof fn lemma_disk_pass_pairs_keyed(start: Seq<DiskstatsRaw>, end: Seq<DiskstatsRaw>)
    requires
        keys_sorted(disk_entries(end)),
    ensures
        forall|i: int|
            0 <= i < disk_pass(start, end).0.len() ==> disk_with_key(
                start,
                (#[trigger] disk_pass(start, end).0[i]).1.key,
            ) == Some(disk_pass(start, end).0[i].0) && disk_with_key(end, disk_pass(start, end).0[i].1.key)
                == Some(disk_pass(start, end).0[i].1),
    decreases end.len(),
{
    if end.len() > 0 {
        let e = end.drop_last();
        let f = end.last();
        lemma_sorted_drop_last(end);
        lemma_disk_pass_pairs_keyed(start, e);
        lemma_disk_pass_ordered(start, e);
        let p0 = disk_pass(start, e).0;
        let p = disk_pass(start, end).0;
        assert(e.push(f) =~= end);
        lemma_disk_with_key_none(e, f.key);
        assert(!has_device(e, f.key)) by {
            if has_device(e, f.key) {
                let m = choose|m: int| 0 <= m < e.len() && (#[trigger] e[m]).key == f.key;
                assert(dkey_lt(e[m].key, f.key));
            }
        }
        lemma_disk_with_key_push(e, f, f.key);
        assert forall|i: int| 0 <= i < p.len() implies disk_with_key(start, (#[trigger] p[i]).1.key) == Some(p[i].0)
            && disk_with_key(end, p[i].1.key) == Some(p[i].1) by {
            if i < p0.len() {
                if p.len() > p0.len() {
                    assert(p =~= p0.push(p[p0.len() as int]));
                }
                assert(p[i] == p0[i]);
                lemma_disk_with_key_push(e, f, p0[i].1.key);
            } else {
                assert(p[i].1 == f);
            }
        }
    }
}

/// For well-formed reads a diskstats interval is the comparison of two maps
/// keyed by device identity:
/// - the reported devices, appeared, exited and renamed identities come in
///   strictly ascending identity order;
/// - a device is reported exactly when both reads hold it under one name and
///   one of its counters did not decrease, with the end read's name and
///   in-flight count and, per counter, the end value less the start value,
///   or nothing where that would be negative;
/// - an identity appeared exactly when only the end read holds it, exited
///   exactly when only the start read holds it, and is renamed exactly when
///   both hold it under different names;
/// - a counter is reported as decreased exactly when both reads hold the
///   identity under one name and its end value is lower; the regressions come
///   in identity order, then counter order;
/// - no endpoint error is recorded, and the interval is fully available
///   when nothing appeared, exited, was renamed or regressed and neither read
///   hit its limit, partial otherwise.
pub proof fn lemma_diskstats_interval_law(
    start: DiskstatsSnapshot,
    end: DiskstatsSnapshot,
    o: DiskstatsObservation,
)
    requires
        diskstats_wf(start),
        diskstats_wf(end),
        disk_observation_holds(o, Ok(start), Ok(end)),
    ensures
        forall|i: int, j: int|
            0 <= i < j < o.devices@.len() ==> dkey_lt(#[trigger] o.devices@[i].key, #[trigger] o.devices@[j].key),
        forall|k: BlockDeviceKey|
            #![trigger disk_with_key(end.devices@, k)]
            (exists|i: int| 0 <= i < o.devices@.len() && (#[trigger] o.devices@[i]).key == k) <==> (
            disk_with_key(start.devices@, k) matches Some(b) && disk_with_key(end.devices@, k) matches Some(f)
                && b.name@ == f.name@ && any_disk_delta(b, f)),
        keys_ascending(o.issues.appeared@),
        keys_ascending(o.issues.exited@),
        keys_ascending(o.issues.identity_changed@),
        forall|k: BlockDeviceKey|
            #[trigger] o.issues.appeared@.contains(k) <==> has_device(end.devices@, k) && !has_device(
                start.devices@,
                k,
            ),
        forall|k: BlockDeviceKey|
            #[trigger] o.issues.exited@.contains(k) <==> has_device(start.devices@, k) && !has_device(
                end.devices@,
                k,
            ),
        forall|k: BlockDeviceKey|
            #[trigger] o.issues.identity_changed@.contains(k) <==> (disk_with_key(start.devices@, k) matches Some(
                b,
            ) && disk_with_key(end.devices@, k) matches Some(f) && b.name@ != f.name@),
        forall|i: int|
            0 <= i < o.devices@.len() ==> disk_interval_is(
                #[trigger] o.devices@[i],
                disk_with_key(start.devices@, o.devices@[i].key)->0,
                disk_with_key(end.devices@, o.devices@[i].key)->0,
            ),
        regressions_ordered(o.issues.regressed@),
        forall|r: DiskstatsCounterRegression|
            #[trigger] o.issues.regressed@.contains(r) <==> (disk_with_key(start.devices@, r.key) matches Some(b)
                && disk_with_key(end.devices@, r.key) matches Some(f) && b.name@ == f.name@
                && disk_counter_value(r.counter, f) < disk_counter_value(r.counter, b)),
        o.issues.start_error is None,
        o.issues.end_error is None,
        o.issues.limit_reached == (start.issues.limit_reached || end.issues.limit_reached),
        o.capability == if o.issues.appeared@.len() == 0 && o.issues.exited@.len() == 0
            && o.issues.identity_changed@.len() == 0 && o.issues.regressed@.len() == 0
            && !o.issues.limit_reached {
            IoCapability::Available
        } else {
            IoCapability::Partial
        },
{
    lemma_diskstats_interval_keyed(start, end, o);
    lemma_disk_pass_pairs_keyed(start.devices@, end.devices@);
    assert forall|r: DiskstatsCounterRegression|
        #[trigger] o.issues.regressed@.contains(r) <==> (disk_with_key(start.devices@, r.key) matches Some(b)
            && disk_with_key(end.devices@, r.key) matches Some(f) && b.name@ == f.name@
            && disk_counter_value(r.counter, f) < disk_counter_value(r.counter, b)) by {
        lemma_disk_pass_regressions(start.devices@, end.devices@, r);
    }
    let pairs = disk_pass(start.devices@, end.devices@).0;
    assert forall|i: int| 0 <= i < o.devices@.len() implies disk_interval_is(
        #[trigger] o.devices@[i],
        disk_with_key(start.devices@, o.devices@[i].key)->0,
        disk_with_key(end.devices@, o.devices@[i].key)->0,
    ) by {
        assert(disk_interval_is(o.devices@[i], pairs[i].0, pairs[i].1));
    }
    lemma_disk_pass_renamed_and_regressed(start.devices@, end.devices@);
    assert forall|k: BlockDeviceKey|
        #![trigger disk_with_key(end.devices@, k)]
        (exists|i: int| 0 <= i < o.devices@.len() && (#[trigger] o.devices@[i]).key == k) <==> (
        disk_with_key(start.devices@, k) matches Some(b) && disk_with_key(end.devices@, k) matches Some(f)
            && b.name@ == f.name@ && any_disk_delta(b, f)) by {
        lemma_diskstats_interval_members(start, end, o, k);
    }
}


proof fn lemma_sample_with_key_push(s: Seq<(ProcessKey, ProcessIoSample)>, x: (ProcessKey, ProcessIoSample), k: ProcessKey)
    ensures
        sample_with_key(s.push(x), k) == if sample_with_key(s, k) is Some {
            sample_with_key(s, k)
        } else if x.0 == k {
            Some(x.1)
        } else {
            None
        },
    decreases s.len(),
{
    if s.len() > 0 {
        assert(s.push(x).drop_first() =~= s.drop_first().push(x));
        assert(s.push(x)[0] == s[0]);
        lemma_sample_with_key_push(s.drop_first(), x, k);
    } else {
        assert(s.push(x).drop_first() =~= Seq::<(ProcessKey, ProcessIoSample)>::empty());
        assert(s.push(x)[0] == x);
        assert(sample_with_key(s.push(x).drop_first(), k) is None);
    }
}

/// Every key held by both reads whose interval has some delta is reported.
proof fn lemma_process_pass_complete(
    start: Seq<(ProcessKey, ProcessIoSample)>,
    end: Seq<(ProcessKey, ProcessIoSample)>,
    k: ProcessKey,
)
    requires
        samples_sorted(end),
        sample_with_key(start, k) is Some,
        sample_with_key(end, k) is Some,
        has_some_delta(process_interval(k, sample_with_key(start, k)->0, sample_with_key(end, k)->0)),
    ensures
        process_pass(start, end).0.contains(
            process_interval(k, sample_with_key(start, k)->0, sample_with_key(end, k)->0),
        ),
    decreases end.len(),
{
    let e = end.drop_last();
    let f = end.last();
    assert(e.push(f) =~= end);
    lemma_sample_with_key_push(e, f, k);
    let p = process_pass(start, e).0;
    let r = process_pass(start, end).0;
    if sample_with_key(e, k) is Some {
        assert forall|i: int, j: int| 0 <= i < j < e.len() implies key_lt(#[trigger] e[i].0, #[trigger] e[j].0) by {
            assert(e[i] == end[i] && e[j] == end[j]);
        }
        lemma_process_pass_complete(start, e, k);
        let iv = process_interval(k, sample_with_key(start, k)->0, sample_with_key(end, k)->0);
        let t = choose|t: int| 0 <= t < p.len() && p[t] == iv;
        if r.len() > p.len() {
            assert(r =~= p.push(r[p.len() as int]));
            assert(r[t] == iv);
        } else {
            assert(r =~= p);
        }
    } else {
        assert(f.0 == k);
        let iv = process_interval(k, sample_with_key(start, k)->0, f.1);
        assert(r == p.push(iv));
        assert(r[p.len() as int] == iv);
    }
}

/// `pid_taken` holds exactly when another key of `s` has the same PID.
proof fn lemma_pid_taken_exists(s: Seq<(ProcessKey, ProcessIoSample)>, k: ProcessKey)
    ensures
        pid_taken(s, k) <==> exists|i: int| 0 <= i < s.len() && (#[trigger] s[i]).0.pid == k.pid && s[i].0 != k,
    decreases s.len(),
{
    if s.len() > 0 {
        lemma_pid_taken_exists(s.drop_first(), k);
        if exists|i: int| 0 <= i < s.len() && (#[trigger] s[i]).0.pid == k.pid && s[i].0 != k {
            let i = choose|i: int| 0 <= i < s.len() && (#[trigger] s[i]).0.pid == k.pid && s[i].0 != k;
            if i > 0 {
                assert(s.drop_first()[i - 1] == s[i]);
            }
        }
        if pid_taken(s.drop_first(), k) {
            let i = choose|i: int|
                0 <= i < s.drop_first().len() && (#[trigger] s.drop_first()[i]).0.pid == k.pid && s.drop_first()[i].0 != k;
            assert(s[i + 1] == s.drop_first()[i]);
        }
    }
}

/// The keys of the end read whose PID another process held in the start read.
pub open spec fn reused_keys(start: Seq<(ProcessKey, ProcessIoSample)>, end: Seq<(ProcessKey, ProcessIoSample)>) -> Set<
    ProcessKey,
> {
    sample_keys(end).filter(|k: ProcessKey| pid_taken(start, k))
}

proof fn lemma_count_reused_is_set(start: Seq<(ProcessKey, ProcessIoSample)>, end: Seq<(ProcessKey, ProcessIoSample)>)
    requires
        samples_sorted(end),
    ensures
        reused_keys(start, end).finite(),
        count_pid_reused(start, end) == reused_keys(start, end).len(),
    decreases end.len(),
{
    let d = reused_keys(start, end);
    if end.len() == 0 {
        assert(d =~= Set::<ProcessKey>::empty());
    } else {
        let e = end.drop_last();
        let k = end.last().0;
        assert forall|i: int, j: int| 0 <= i < j < e.len() implies key_lt(#[trigger] e[i].0, #[trigger] e[j].0) by {
            assert(e[i] == end[i] && e[j] == end[j]);
        }
        lemma_count_reused_is_set(start, e);
        let d0 = reused_keys(start, e);
        assert(end[end.len() - 1] == end.last());
        assert(sample_keys(end) =~= sample_keys(e).insert(k)) by {
            assert forall|x: ProcessKey| sample_keys(end).contains(x) implies #[trigger] sample_keys(e).insert(k).contains(x) by {
                let i = choose|i: int| 0 <= i < end.len() && (#[trigger] end[i]).0 == x;
                if i < e.len() {
                    assert(e[i].0 == x);
                }
            }
            assert forall|x: ProcessKey| sample_keys(e).insert(k).contains(x) implies #[trigger] sample_keys(end).contains(x) by {
                if x != k {
                    let i = choose|i: int| 0 <= i < e.len() && (#[trigger] e[i]).0 == x;
                    assert(end[i].0 == x);
                }
            }
        }
        assert(!sample_keys(e).contains(k)) by {
            if sample_keys(e).contains(k) {
                let i = choose|i: int| 0 <= i < e.len() && (#[trigger] e[i]).0 == k;
                assert(key_lt(end[i].0, end[end.len() - 1].0));
            }
        }
        if pid_taken(start, k) {
            assert(d =~= d0.insert(k));
            assert(!d0.contains(k));
        } else {
            assert(d =~= d0);
        }
    }
}

/// For well-formed reads a process I/O interval is the comparison of two
/// maps keyed by process:
/// - a process is reported exactly when both reads hold its key and some of
///   its deltas is known, and its interval is computed from the two samples
///   of that key (a decreased counter is omitted, never wrapped);
/// - the processes have distinct keys and come heaviest read plus write
///   first, equal weights by ascending key;
/// - appeared, exited and reused count keys only in the end read, keys only
///   in the start read, and end keys whose PID another start process held;
/// - a counter of a process is reported as decreased exactly when both reads
///   hold the process, both read the counter, and the end value is lower;
/// - the capability follows from the issues and whether any process was
///   reported.
pub proof fn lemma_process_io_interval_law(start: ProcessIoSnapshot, end: ProcessIoSnapshot, o: ProcessIoObservation)
    requires
        process_io_wf(start),
        process_io_wf(end),
        process_observation_holds(o, start, end),
    ensures
        forall|k: ProcessKey|
            #![trigger sample_with_key(end.processes@, k)]
            (exists|i: int| 0 <= i < o.processes@.len() && (#[trigger] o.processes@[i]).key == k) <==> (
            sample_with_key(start.processes@, k) is Some && sample_with_key(end.processes@, k) is Some
                && has_some_delta(
                process_interval(k, sample_with_key(start.processes@, k)->0, sample_with_key(end.processes@, k)->0),
            )),
        forall|i: int|
            0 <= i < o.processes@.len() ==> #[trigger] o.processes@[i] == process_interval(
                o.processes@[i].key,
                sample_with_key(start.processes@, o.processes@[i].key)->0,
                sample_with_key(end.processes@, o.processes@[i].key)->0,
            ),
        forall|i: int, j: int|
            0 <= i < j < o.processes@.len() ==> ranks_before(#[trigger] o.processes@[i], #[trigger] o.processes@[j]),
        reused_keys(start.processes@, end.processes@).finite(),
        o.issues.appeared == count_clamped(
            sample_keys(end.processes@).difference(sample_keys(start.processes@)).len(),
        ),
        o.issues.exited == count_clamped(
            sample_keys(start.processes@).difference(sample_keys(end.processes@)).len(),
        ),
        o.issues.reused == count_clamped(reused_keys(start.processes@, end.processes@).len()),
        forall|k: ProcessKey|
            #[trigger] reused_keys(start.processes@, end.processes@).contains(k) <==> (sample_keys(
                end.processes@,
            ).contains(k) && exists|i: int|
                0 <= i < start.processes@.len() && (#[trigger] start.processes@[i]).0.pid == k.pid
                    && start.processes@[i].0 != k),
        o.issues.counter_regressed == count_clamped(o.regressed@.len()),
        o.capability == process_capability(o.issues, o.processes@.len() > 0),
        forall|r: ProcessIoCounterRegression|
            #[trigger] o.regressed@.contains(r) <==> (sample_with_key(start.processes@, r.key) is Some
                && sample_with_key(end.processes@, r.key) is Some && counter_decreased(
                r.counter,
                sample_with_key(start.processes@, r.key)->0.counters,
                sample_with_key(end.processes@, r.key)->0.counters,
            )),
{
    let sp = start.processes@;
    assert forall|r: ProcessIoCounterRegression|
        #[trigger] o.regressed@.contains(r) <==> (sample_with_key(sp, r.key) is Some
            && sample_with_key(end.processes@, r.key) is Some && counter_decreased(
            r.counter,
            sample_with_key(sp, r.key)->0.counters,
            sample_with_key(end.processes@, r.key)->0.counters,
        )) by {
        lemma_process_pass_regressions(sp, end.processes@, r);
    }
    let ep = end.processes@;
    let iv = process_pass(sp, ep).0;
    let op = o.processes@;
    lemma_process_interval_keyed(start, end);
    lemma_process_intervals_ranked(iv);
    lemma_process_counts_are_key_differences(start, end);
    lemma_count_reused_is_set(sp, ep);
    broadcast use vstd::seq_lib::group_to_multiset_ensures;
    // The ranked list holds exactly the intervals, each once.
    assert forall|x: ProcessIoInterval| op.contains(x) <==> iv.contains(x) by {
        assert(op.to_multiset().count(x) == iv.to_multiset().count(x));
    }
    assert(iv.no_duplicates()) by {
        assert forall|i: int, j: int| 0 <= i < iv.len() && 0 <= j < iv.len() && i != j implies iv[i] != iv[j] by {
            if i < j {
                assert(iv[i].key != iv[j].key);
            } else {
                assert(iv[j].key != iv[i].key);
            }
        }
    }
    iv.lemma_multiset_has_no_duplicates();
    op.lemma_multiset_has_no_duplicates_conv();
    // Each reported interval is that of its key.
    assert forall|i: int| 0 <= i < op.len() implies #[trigger] op[i] == process_interval(
        op[i].key,
        sample_with_key(sp, op[i].key)->0,
        sample_with_key(ep, op[i].key)->0,
    ) && sample_with_key(sp, op[i].key) is Some && sample_with_key(ep, op[i].key) is Some by {
        assert(op.contains(op[i]));
        let t = choose|t: int| 0 <= t < iv.len() && iv[t] == op[i];
    }
    // Distinct keys, so the ranking is strict.
    assert forall|i: int, j: int| 0 <= i < j < op.len() implies ranks_before(#[trigger] op[i], #[trigger] op[j]) by {
        assert(!(process_order())(op[j], op[i]));
        assert(op[i] != op[j]);
        if op[i].key == op[j].key {
            assert(op[i] == op[j]);
        }
    }
    // Membership.
    assert forall|k: ProcessKey|
        #![trigger sample_with_key(ep, k)]
        (exists|i: int| 0 <= i < op.len() && (#[trigger] op[i]).key == k) <==> (sample_with_key(sp, k) is Some
            && sample_with_key(ep, k) is Some && has_some_delta(
            process_interval(k, sample_with_key(sp, k)->0, sample_with_key(ep, k)->0),
        )) by {
        if exists|i: int| 0 <= i < op.len() && (#[trigger] op[i]).key == k {
            let i = choose|i: int| 0 <= i < op.len() && (#[trigger] op[i]).key == k;
            assert(op.contains(op[i]));
            let t = choose|t: int| 0 <= t < iv.len() && iv[t] == op[i];
            lemma_process_pass_delta(sp, ep);
            assert(has_some_delta(iv[t]));
        }
        if sample_with_key(sp, k) is Some && sample_with_key(ep, k) is Some && has_some_delta(
            process_interval(k, sample_with_key(sp, k)->0, sample_with_key(ep, k)->0),
        ) {
            lemma_process_pass_complete(sp, ep, k);
            let x = process_interval(k, sample_with_key(sp, k)->0, sample_with_key(ep, k)->0);
            assert(op.contains(x));
            let i = choose|i: int| 0 <= i < op.len() && op[i] == x;
            assert(op[i].key == k);
        }
    }
    assert forall|k: ProcessKey|
        #[trigger] reused_keys(sp, ep).contains(k) <==> (sample_keys(ep).contains(k) && exists|i: int|
            0 <= i < sp.len() && (#[trigger] sp[i]).0.pid == k.pid && sp[i].0 != k) by {
        lemma_pid_taken_exists(sp, k);
    }
}

/// Every interval of the pass has some delta.
proof fn lemma_process_pass_delta(start: Seq<(ProcessKey, ProcessIoSample)>, end: Seq<(ProcessKey, ProcessIoSample)>)
    ensures
        forall|i: int| 0 <= i < process_pass(start, end).0.len() ==> has_some_delta(#[trigger] process_pass(start, end).0[i]),
    decreases end.len(),
{
    if end.len() > 0 {
        lemma_process_pass_delta(start, end.drop_last());
        let p = process_pass(start, end.drop_last()).0;
        let r = process_pass(start, end).0;
        assert forall|i: int| 0 <= i < r.len() implies has_some_delta(#[trigger] r[i]) by {
            if i < p.len() {
                if r.len() > p.len() {
                    assert(r =~= p.push(r[p.len() as int]));
                }
                assert(r[i] == p[i]);
            }
        }
    }
}


/// The slot of a selected `/proc/<pid>/io` field name.
pub open spec fn io_slot_rule() -> spec_fn(Seq<char>) -> Option<int> {
    |n: Seq<char>| io_field_slot(n)
}

/// The value of a selected `/proc/<pid>/io` field.
pub open spec fn io_value_rule() -> spec_fn(Seq<char>) -> Option<u64> {
    |t: Seq<char>| io_value(t)
}

proof fn lemma_process_io_slots_selected(lines: Seq<Seq<char>>)
    ensures
        process_io_slots(lines) == selected_values(
            lines,
            5,
            io_slot_rule(),
            io_value_rule(),
        ),
    decreases lines.len(),
{
    if lines.len() > 0 {
        lemma_process_io_slots_selected(lines.drop_last());
    }
}

/// The value given for a `/proc/<pid>/io` field, by slot: `read_bytes`,
/// `write_bytes`, `cancelled_write_bytes`, `rchar`, `wchar`.
pub open spec fn process_io_field(input: Seq<char>, s: int) -> Option<u64> {
    slot_value(lines_of(input), io_slot_rule(), io_value_rule(), s)
}

/// `/proc/<pid>/io` is accepted exactly when every non-blank line has a `:`,
/// each of `read_bytes`, `write_bytes`, `cancelled_write_bytes`, `rchar` and
/// `wchar` (the text before the first `:`) occurs at most once with a value
/// that, trimmed, is ASCII digits fitting in 64 bits, and `read_bytes` and
/// `write_bytes` both occur.  Each field then holds the value of its line,
/// an absent optional field is `None`, other names are ignored, and every
/// refusal is `Malformed`.
pub proof fn lemma_process_io_accepts(input: Seq<char>)
    ensures
        process_io_spec(input) is Ok <==> {
            &&& selected_lines_valid(lines_of(input), io_slot_rule(), io_value_rule())
            &&& process_io_field(input, 0) is Some
            &&& process_io_field(input, 1) is Some
        },
        process_io_spec(input) is Err ==> process_io_spec(input) == Err::<ProcessIoRaw, DiskstatsError>(
            DiskstatsError::Malformed,
        ),
        process_io_spec(input) matches Ok(r) ==> {
            &&& Some(r.read_bytes) == process_io_field(input, 0)
            &&& Some(r.write_bytes) == process_io_field(input, 1)
            &&& r.cancelled_write_bytes == process_io_field(input, 2)
            &&& r.rchar == process_io_field(input, 3)
            &&& r.wchar == process_io_field(input, 4)
        },
{
    let lines = lines_of(input);
    lemma_process_io_slots_selected(lines);
    assert forall|name: Seq<char>| (#[trigger] io_slot_rule()(name) matches Some(k) ==> 0 <= k < 5) by {}
    lemma_selected_values_are_slot_values(lines, 5, io_slot_rule(), io_value_rule());
    if let Some(v) = process_io_slots(lines) {
        assert(v[0] == process_io_field(input, 0));
        assert(v[1] == process_io_field(input, 1));
        assert(v[2] == process_io_field(input, 2));
        assert(v[3] == process_io_field(input, 3));
        assert(v[4] == process_io_field(input, 4));
    }
}

/// The start and end readings of one counter of a process.
pub open spec fn process_counter_values(c: ProcessIoCounter, b: ProcessIoRaw, f: ProcessIoRaw) -> (
    Option<u64>,
    Option<u64>,
) {
    match c {
        ProcessIoCounter::ReadBytes => (Some(b.read_bytes), Some(f.read_bytes)),
        ProcessIoCounter::WriteBytes => (Some(b.write_bytes), Some(f.write_bytes)),
        ProcessIoCounter::CancelledWriteBytes => (b.cancelled_write_bytes, f.cancelled_write_bytes),
        ProcessIoCounter::Rchar => (b.rchar, f.rchar),
        ProcessIoCounter::Wchar => (b.wchar, f.wchar),
    }
}

/// The counter was read at both ends and the end value is lower.
pub open spec fn counter_decreased(c: ProcessIoCounter, b: ProcessIoRaw, f: ProcessIoRaw) -> bool {
    match process_counter_values(c, b, f) {
        (Some(x), Some(y)) => y < x,
        _ => false,
    }
}

proof fn lemma_process_regressions_members(k: ProcessKey, b: ProcessIoRaw, f: ProcessIoRaw, r: ProcessIoCounterRegression)
    ensures
        process_regressions(k, b, f).contains(r) <==> (r.key == k && counter_decreased(r.counter, b, f)),
{
    broadcast use vstd::seq_lib::lemma_seq_concat_contains_all_elements;
    let r0 = process_regression_if(k, ProcessIoCounter::ReadBytes, b.read_bytes, f.read_bytes);
    let r1 = process_regression_if(k, ProcessIoCounter::WriteBytes, b.write_bytes, f.write_bytes);
    let r2 = optional_regression_if(k, ProcessIoCounter::CancelledWriteBytes, b.cancelled_write_bytes, f.cancelled_write_bytes);
    let r3 = optional_regression_if(k, ProcessIoCounter::Rchar, b.rchar, f.rchar);
    let r4 = optional_regression_if(k, ProcessIoCounter::Wchar, b.wchar, f.wchar);
    assert(process_regressions(k, b, f) == r0 + r1 + r2 + r3 + r4);
    let one = |c: ProcessIoCounter| ProcessIoCounterRegression { key: k, counter: c };
    assert(r0.contains(r) <==> (r == one(ProcessIoCounter::ReadBytes) && f.read_bytes < b.read_bytes)) by {
        if r0.len() > 0 { assert(r0[0] == one(ProcessIoCounter::ReadBytes)); }
    }
    assert(r1.contains(r) <==> (r == one(ProcessIoCounter::WriteBytes) && f.write_bytes < b.write_bytes)) by {
        if r1.len() > 0 { assert(r1[0] == one(ProcessIoCounter::WriteBytes)); }
    }
    assert(r2.contains(r) <==> (r == one(ProcessIoCounter::CancelledWriteBytes) && counter_decreased(ProcessIoCounter::CancelledWriteBytes, b, f))) by {
        if r2.len() > 0 { assert(r2[0] == one(ProcessIoCounter::CancelledWriteBytes)); }
    }
    assert(r3.contains(r) <==> (r == one(ProcessIoCounter::Rchar) && counter_decreased(ProcessIoCounter::Rchar, b, f))) by {
        if r3.len() > 0 { assert(r3[0] == one(ProcessIoCounter::Rchar)); }
    }
    assert(r4.contains(r) <==> (r == one(ProcessIoCounter::Wchar) && counter_decreased(ProcessIoCounter::Wchar, b, f))) by {
        if r4.len() > 0 { assert(r4[0] == one(ProcessIoCounter::Wchar)); }
    }
}

/// A counter is reported as decreased exactly when both reads hold the
/// process, both read the counter and its end value is lower.
proof fn lemma_process_pass_regressions(
    start: Seq<(ProcessKey, ProcessIoSample)>,
    end: Seq<(ProcessKey, ProcessIoSample)>,
    r: ProcessIoCounterRegression,
)
    requires
        samples_sorted(end),
    ensures
        process_pass(start, end).1.contains(r) <==> (sample_with_key(start, r.key) is Some && sample_with_key(
            end,
            r.key,
        ) is Some && counter_decreased(
            r.counter,
            sample_with_key(start, r.key)->0.counters,
            sample_with_key(end, r.key)->0.counters,
        )),
    decreases end.len(),
{
    broadcast use vstd::seq_lib::lemma_seq_concat_contains_all_elements;
    if end.len() == 0 {
    } else {
        let e = end.drop_last();
        let (k, f) = end.last();
        assert forall|i: int, j: int| 0 <= i < j < e.len() implies key_lt(#[trigger] e[i].0, #[trigger] e[j].0) by {
            assert(e[i] == end[i] && e[j] == end[j]);
        }
        lemma_process_pass_regressions(start, e, r);
        assert(e.push(end.last()) =~= end);
        lemma_sample_with_key_push(e, end.last(), r.key);
        lemma_sample_with_key_none(e, k);
        assert(sample_with_key(e, k) is None) by {
            if sample_keys(e).contains(k) {
                let i = choose|i: int| 0 <= i < e.len() && (#[trigger] e[i]).0 == k;
                assert(key_lt(end[i].0, end[end.len() - 1].0));
            }
        }
        match sample_with_key(start, k) {
            None => {},
            Some(b) => {
                lemma_process_regressions_members(k, b.counters, f.counters, r);
            },
        }
    }
}


/// A diskstats line describes device `d` in the kernel's columns: major,
/// minor and name, then reads completed (field 4), sectors read (6), writes
/// completed (8), sectors written (10), I/Os in flight (12), time doing I/O
/// (13) and weighted time doing I/O (14).
pub open spec fn line_describes(line: Seq<char>, d: DiskstatsRaw) -> bool {
    let f = fields_of(line);
    &&& f.len() >= 14
    &&& parse_u32(f[0]) == Some(d.key.major)
    &&& parse_u32(f[1]) == Some(d.key.minor)
    &&& f[2] == d.name@
    &&& parse_u64(f[3]) == Some(d.reads_completed)
    &&& parse_u64(f[5]) == Some(d.sectors_read_512)
    &&& parse_u64(f[7]) == Some(d.writes_completed)
    &&& parse_u64(f[9]) == Some(d.sectors_written_512)
    &&& parse_u64(f[11]) == Some(d.in_flight)
    &&& parse_u64(f[12]) == Some(d.io_ticks_ms)
    &&& parse_u64(f[13]) == Some(d.weighted_io_ticks_ms)
}

/// Some non-blank line of `lines` describes `d`.
pub open spec fn described_in(lines: Seq<Seq<char>>, d: DiskstatsRaw) -> bool {
    exists|i: int| 0 <= i < lines.len() && !is_blank(lines[i]) && #[trigger] line_describes(lines[i], d)
}

proof fn lemma_sorted_insert_members(s: Seq<DiskEntry>, d: DiskEntry, x: DiskEntry)
    ensures
        sorted_insert(s, d).contains(x) ==> s.contains(x) || x == d,
    decreases s.len(),
{
    if s.len() > 0 {
        lemma_sorted_insert_members(s.drop_first(), d, x);
        let r = sorted_insert(s, d);
        if r.contains(x) {
            let i = choose|i: int| 0 <= i < r.len() && r[i] == x;
            if dkey_lt(d.0, s[0].0) {
                if i > 0 {
                    assert(s[i - 1] == x);
                }
            } else if d.0 == s[0].0 {
                if i > 0 {
                    assert(s.drop_first()[i - 1] == x);
                    assert(s[i] == x);
                }
            } else {
                if i == 0 {
                    assert(s[0] == x);
                } else {
                    assert(sorted_insert(s.drop_first(), d)[i - 1] == x);
                    if s.drop_first().contains(x) {
                        let k = choose|k: int| 0 <= k < s.drop_first().len() && s.drop_first()[k] == x;
                        assert(s[k + 1] == x);
                    }
                }
            }
        }
    }
}

/// Every kept device comes from a non-blank line whose fields give it.
proof fn lemma_diskstats_state_sources(lines: Seq<Seq<char>>)
    ensures
        diskstats_state(lines) matches Some((devs, _)) ==> forall|k: int|
            0 <= k < devs.len() ==> exists|i: int|
                0 <= i < lines.len() && !is_blank(lines[i]) && disk_fields(lines[i]) == Some(
                    #[trigger] devs[k],
                ),
    decreases lines.len(),
{
    if lines.len() > 0 {
        let l = lines.drop_last();
        let x = lines.last();
        lemma_diskstats_state_sources(l);
        assert forall|i: int| 0 <= i < l.len() implies #[trigger] lines[i] == l[i] by {}
        match diskstats_state(lines) {
            Some((devs, _)) => {
                let (devs0, _) = diskstats_state(l)->0;
                assert forall|k: int| 0 <= k < devs.len() implies exists|i: int|
                    0 <= i < lines.len() && !is_blank(lines[i]) && disk_fields(lines[i]) == Some(
                        #[trigger] devs[k],
                    ) by {
                    let e = devs[k];
                    let from_earlier = devs0.contains(e);
                    if is_blank(x) {
                        assert(devs0[k] == e);
                        let i = choose|i: int|
                            0 <= i < l.len() && !is_blank(l[i]) && disk_fields(l[i]) == Some(devs0[k]);
                        assert(lines[i] == l[i]);
                    } else {
                        let d = disk_fields(x)->0;
                        assert(devs.contains(e));
                        if s_contains_or_new(devs0, d, e) {
                            let m = choose|m: int| 0 <= m < devs0.len() && devs0[m] == e;
                            let i = choose|i: int|
                                0 <= i < l.len() && !is_blank(l[i]) && disk_fields(l[i]) == Some(devs0[m]);
                            assert(lines[i] == l[i]);
                        } else {
                            assert(lines[lines.len() - 1] == x);
                        }
                    }
                }
            },
            None => {},
        }
    }
}

/// Whether a device kept after inserting `d` into `s` was already in `s`
/// (otherwise it is `d`).
proof fn s_contains_or_new(s: Seq<DiskEntry>, d: DiskEntry, e: DiskEntry) -> (b: bool)
    requires
        insert_lowest(s, d).0.contains(e),
    ensures
        b ==> s.contains(e),
        !b ==> e == d,
{
    if s.len() < MAX_DEVICES {
        lemma_sorted_insert_members(s, d, e);
    } else if s.len() > 0 && dkey_lt(d.0, s.last().0) {
        lemma_sorted_insert_members(s.drop_last(), d, e);
        if s.drop_last().contains(e) {
            let k = choose|k: int| 0 <= k < s.drop_last().len() && s.drop_last()[k] == e;
            assert(s[k] == e);
        }
    }
    s.contains(e)
}

/// Every device that `/proc/diskstats` parsing reports is read from a
/// non-blank line of the input, each counter from its kernel column:
/// `sectors_written_512` is field 10 (the seventh counter), not the
/// write-time column after it, and so on for every kept counter.
pub proof fn lemma_diskstats_columns(input: Seq<char>, s: DiskstatsSnapshot)
    requires
        diskstats_spec(input) == Some((disk_entries(s.devices@), s.issues.limit_reached)),
    ensures
        forall|k: int| 0 <= k < s.devices@.len() ==> described_in(lines_of(input), #[trigger] s.devices@[k]),
{
    let lines = lines_of(input);
    lemma_diskstats_state_sources(lines);
    assert forall|k: int| 0 <= k < s.devices@.len() implies described_in(lines, #[trigger] s.devices@[k]) by {
        let d = s.devices@[k];
        assert(disk_entries(s.devices@)[k] == disk_entry(d));
        let i = choose|i: int|
            0 <= i < lines.len() && !is_blank(lines[i]) && disk_fields(lines[i]) == Some(disk_entries(s.devices@)[k]);
        let e = disk_entry(d);
        assert(e.2[0] == d.reads_completed);
        assert(e.2[3] == d.sectors_written_512);
        assert(line_describes(lines[i], d));
        assert(!is_blank(lines[i]));
    }
}


/// Process I/O intervals are ranked by read plus write bytes (absent counts
/// as zero, the sum held at the largest 64-bit value), heaviest first, and
/// equal weights by ascending process key.
pub proof fn lemma_process_intervals_heaviest_first(start: ProcessIoSnapshot, end: ProcessIoSnapshot, o: ProcessIoObservation)
    requires
        process_observation_holds(o, start, end),
    ensures
        forall|i: int, j: int|
            0 <= i < j < o.processes@.len() ==> {
                let (a, b) = (#[trigger] o.processes@[i], #[trigger] o.processes@[j]);
                let wa = (if a.read_bytes is Some { a.read_bytes->0 as int } else { 0 }) + (if a.write_bytes is Some {
                    a.write_bytes->0 as int
                } else {
                    0
                });
                let wb = (if b.read_bytes is Some { b.read_bytes->0 as int } else { 0 }) + (if b.write_bytes is Some {
                    b.write_bytes->0 as int
                } else {
                    0
                });
                let (ca, cb) = (if wa > u64::MAX { u64::MAX as int } else { wa }, if wb > u64::MAX {
                    u64::MAX as int
                } else {
                    wb
                });
                &&& ca >= cb
                &&& ca == cb ==> !key_lt(b.key, a.key)
            },
{
    let iv = process_pass(start.processes@, end.processes@).0;
    lemma_process_intervals_ranked(iv);
    let op = o.processes@;
    assert forall|i: int, j: int| 0 <= i < j < op.len() implies {
        let (a, b) = (#[trigger] op[i], #[trigger] op[j]);
        let wa = (if a.read_bytes is Some { a.read_bytes->0 as int } else { 0 }) + (if a.write_bytes is Some {
            a.write_bytes->0 as int
        } else {
            0
        });
        let wb = (if b.read_bytes is Some { b.read_bytes->0 as int } else { 0 }) + (if b.write_bytes is Some {
            b.write_bytes->0 as int
        } else {
            0
        });
        let (ca, cb) = (if wa > u64::MAX { u64::MAX as int } else { wa }, if wb > u64::MAX {
            u64::MAX as int
        } else {
            wb
        });
        &&& ca >= cb
        &&& ca == cb ==> !key_lt(b.key, a.key)
    } by {
        assert(!(process_order())(op[j], op[i]));
    }
}

} // verus!
