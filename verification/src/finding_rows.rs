//! The finding rows of a diagnosis: every host finding that is not healthy
//! and every scoped pressure finding, most severe first, then most
//! confident, then by identifier.

use vstd::prelude::*;
use crate::analysis::{
    confidence_level, confidence_rank, severity_level, severity_rank, CgroupAssessmentKind,
    CgroupResourceKind, Confidence, Qualifier, Severity,
};
use crate::cgroup_analysis::CgroupFinding;
use crate::host_analysis::{
    confidence_index, cpu_view, io_view, memory_view, severity_index, AnalysisResult, HostAnalysis,
    IoAnalysisResult, MemoryAnalysisResult,
};
use crate::presentation::{terminal_form, terminal_text, ResourceState};
use crate::ranking::{insert_ranked, lemma_insert_ranked_at, lemma_ranked_sorted, ranked_by, sorted_by, strict_order};
use crate::text::{append_str, chars_lt, chars_of, lemma_seq_lt_irreflexive, lemma_seq_lt_transitive, seq_lt};

verus! {

/// One finding of a diagnosis: its identifier (`host:cpu`, `host:memory`,
/// `host:io` or `cgroup:<path>:<resource>`), resource, scope, severity,
/// confidence and qualifier messages.
#[derive(Debug, Clone, PartialEq, Eq)]
pub struct FindingRow {
    pub id: String,
    pub resource: &'static str,
    pub scope: String,
    pub severity: Severity,
    pub confidence: Confidence,
    pub qualifiers: Vec<&'static str>,
}

/// A row as plain values.
pub type RowView = (Seq<char>, &'static str, Seq<char>, Severity, Confidence, Seq<&'static str>);

pub open spec fn row_view(r: FindingRow) -> RowView {
    (r.id@, r.resource, r.scope@, r.severity, r.confidence, r.qualifiers@)
}

pub open spec fn row_views(s: Seq<FindingRow>) -> Seq<RowView> {
    s.map_values(|r: FindingRow| row_view(r))
}

pub open spec fn qualifier_messages(q: Seq<Qualifier>) -> Seq<&'static str> {
    q.map_values(|x: Qualifier| x.message)
}

/// The CPU row, when the CPU finding exists and is not healthy.
pub open spec fn cpu_rows(r: AnalysisResult) -> Seq<RowView> {
    if r.findings@.len() > 0 && cpu_view(r).state != ResourceState::Healthy {
        let f = r.findings@[0];
        seq![("host:cpu"@, "CPU", "host"@, f.severity, f.resource_confidence, qualifier_messages(f.qualifiers@))]
    } else {
        Seq::empty()
    }
}

pub open spec fn memory_rows(r: Option<MemoryAnalysisResult>) -> Seq<RowView> {
    match r {
        Some(m) => if m.findings@.len() > 0 && memory_view(r).state != ResourceState::Healthy {
            let f = m.findings@[0];
            seq![("host:memory"@, "Memory", "host"@, f.severity, f.resource_confidence, qualifier_messages(f.qualifiers@))]
        } else {
            Seq::empty()
        },
        None => Seq::empty(),
    }
}

pub open spec fn io_rows(r: Option<IoAnalysisResult>) -> Seq<RowView> {
    match r {
        Some(m) => if m.findings@.len() > 0 && io_view(r).state != ResourceState::Healthy {
            let f = m.findings@[0];
            seq![("host:io"@, "I/O", "host"@, f.severity, f.resource_confidence, qualifier_messages(f.qualifiers@))]
        } else {
            Seq::empty()
        },
        None => Seq::empty(),
    }
}

pub open spec fn resource_label(r: CgroupResourceKind) -> &'static str {
    match r {
        CgroupResourceKind::Cpu => "CPU",
        CgroupResourceKind::Memory => "Memory",
        CgroupResourceKind::Io => "I/O",
    }
}

/// The row of a scoped pressure finding; its scope is the path in terminal
/// form, at most 120 characters.
pub open spec fn cgroup_row(f: CgroupFinding) -> RowView {
    (
        "cgroup:"@ + f.path@ + ":"@ + resource_label(f.resource)@,
        resource_label(f.resource),
        terminal_form(f.path@, 120),
        f.severity,
        f.resource_confidence,
        qualifier_messages(f.qualifiers@),
    )
}

/// The rows of the scoped pressure findings, in finding order.
pub open spec fn cgroup_rows(cs: Seq<CgroupFinding>) -> Seq<RowView>
    decreases cs.len(),
{
    if cs.len() == 0 {
        Seq::empty()
    } else {
        cgroup_rows(cs.drop_last()) + if cs.last().kind == CgroupAssessmentKind::Pressure {
            seq![cgroup_row(cs.last())]
        } else {
            Seq::empty()
        }
    }
}

/// Every row before ranking: CPU, memory, I/O, then the scoped rows.
pub open spec fn all_rows(a: HostAnalysis) -> Seq<RowView> {
    cpu_rows(a.cpu) + memory_rows(a.memory) + io_rows(a.io) + cgroup_rows(a.cgroups@)
}

/// More severe first, then more confident, then by identifier.
pub open spec fn row_before(a: RowView, b: RowView) -> bool {
    severity_level(a.3) > severity_level(b.3) || (severity_level(a.3) == severity_level(b.3)
        && confidence_level(a.4) > confidence_level(b.4)) || (severity_level(a.3) == severity_level(b.3)
        && confidence_level(a.4) == confidence_level(b.4) && seq_lt(a.0, b.0))
}

pub open spec fn row_order() -> spec_fn(RowView, RowView) -> bool {
    |a: RowView, b: RowView| row_before(a, b)
}

proof fn lemma_row_order_strict()
    ensures
        strict_order(row_order()),
{
    assert forall|a: RowView| !#[trigger] (row_order())(a, a) by {
        lemma_seq_lt_irreflexive(a.0);
    }
    assert forall|a: RowView, b: RowView, c: RowView|
        #[trigger] (row_order())(a, b) && #[trigger] (row_order())(b, c) implies (row_order())(a, c) by {
        if seq_lt(a.0, b.0) && seq_lt(b.0, c.0) {
            lemma_seq_lt_transitive(a.0, b.0, c.0);
        }
    }
}

fn messages_of(q: &Vec<Qualifier>) -> (out: Vec<&'static str>)
    ensures
        out@ == qualifier_messages(q@),
{
    let mut out: Vec<&'static str> = Vec::new();
    let mut i: usize = 0;
    while i < q.len()
        invariant
            i <= q@.len(),
            out@ == qualifier_messages(q@.take(i as int)),
        decreases q.len() - i,
    {
        out.push(q[i].message);
        assert(qualifier_messages(q@.take(i + 1)) =~= qualifier_messages(q@.take(i as int)).push(q@[i as int].message));
        i += 1;
    }
    assert(q@.take(i as int) =~= q@);
    out
}

fn text(s: &'static str) -> (out: String)
    ensures
        out@ == s@,
{
    let mut out = String::new();
    append_str(&mut out, s);
    out
}

fn host_row(
    id: &'static str,
    resource: &'static str,
    severity: Severity,
    confidence: Confidence,
    qualifiers: &Vec<Qualifier>,
) -> (r: FindingRow)
    ensures
        row_view(r) == (id@, resource, "host"@, severity, confidence, qualifier_messages(qualifiers@)),
{
    FindingRow {
        id: text(id),
        resource,
        scope: text("host"),
        severity,
        confidence,
        qualifiers: messages_of(qualifiers),
    }
}

fn resource_label_exec(r: CgroupResourceKind) -> (s: &'static str)
    ensures
        s == resource_label(r),
{
    match r {
        CgroupResourceKind::Cpu => "CPU",
        CgroupResourceKind::Memory => "Memory",
        CgroupResourceKind::Io => "I/O",
    }
}

fn scoped_row(f: &CgroupFinding) -> (r: FindingRow)
    ensures
        row_view(r) == cgroup_row(*f),
{
    let label = resource_label_exec(f.resource);
    let mut id = String::new();
    append_str(&mut id, "cgroup:");
    append_str(&mut id, f.path.as_str());
    append_str(&mut id, ":");
    append_str(&mut id, label);
    FindingRow {
        id,
        resource: label,
        scope: terminal_text(f.path.as_str(), 120),
        severity: f.severity,
        confidence: f.resource_confidence,
        qualifiers: messages_of(&f.qualifiers),
    }
}

fn row_before_exec(a: &FindingRow, b: &FindingRow) -> (r: bool)
    ensures
        r == row_before(row_view(*a), row_view(*b)),
{
    let sa = severity_rank(a.severity);
    let sb = severity_rank(b.severity);
    let ca = confidence_rank(a.confidence);
    let cb = confidence_rank(b.confidence);
    if sa != sb {
        sa > sb
    } else if ca != cb {
        ca > cb
    } else {
        let ia = chars_of(a.id.as_str());
        let ib = chars_of(b.id.as_str());
        chars_lt(&ia, &ib)
    }
}

fn insert_row(out: &mut Vec<FindingRow>, x: FindingRow)
    ensures
        row_views(final(out)@) == insert_ranked(row_views(old(out)@), row_view(x), row_order()),
{
    let ghost before = row_views(out@);
    let mut p: usize = 0;
    while p < out.len() && !row_before_exec(&x, &out[p])
        invariant
            p <= out@.len(),
            before == row_views(out@),
            forall|k: int| 0 <= k < p ==> !(row_order())(row_view(x), #[trigger] before[k]),
        decreases out.len() - p,
    {
        p += 1;
    }
    proof {
        lemma_insert_ranked_at(before, row_view(x), row_order(), p as int);
    }
    out.insert(p, x);
    assert(row_views(out@) =~= before.insert(p as int, row_view(x)));
}

/// The finding rows of a diagnosis: the CPU, memory and I/O findings that
/// are not healthy and every scoped pressure finding, ranked most severe
/// first, then most confident, then by identifier.
pub fn finding_rows(results: &HostAnalysis) -> (rows: Vec<FindingRow>)
    ensures
        row_views(rows@) == ranked_by(all_rows(*results), row_order()),
        sorted_by(row_views(rows@), row_order()),
        row_views(rows@).to_multiset() == all_rows(*results).to_multiset(),
        forall|i: int, j: int| 0 <= i < j < rows@.len() ==> listed_no_later(#[trigger] rows@[i], #[trigger] rows@[j]),
{
    let ghost all = all_rows(*results);
    let mut unranked: Vec<FindingRow> = Vec::new();
    if results.cpu.findings.len() > 0 {
        let f = &results.cpu.findings[0];
        if f.kind != crate::analysis::AssessmentKind::CpuNoMeaningfulContention {
            unranked.push(host_row("host:cpu", "CPU", f.severity, f.resource_confidence, &f.qualifiers));
        }
    }
    assert(row_views(unranked@) =~= cpu_rows(results.cpu));
    match &results.memory {
        Some(m) => if m.findings.len() > 0 {
            let f = &m.findings[0];
            if f.kind != crate::analysis::MemoryAssessmentKind::NoHarmfulPressure {
                unranked.push(host_row("host:memory", "Memory", f.severity, f.resource_confidence, &f.qualifiers));
            }
        },
        None => {},
    }
    assert(row_views(unranked@) =~= cpu_rows(results.cpu) + memory_rows(results.memory));
    match &results.io {
        Some(m) => if m.findings.len() > 0 {
            let f = &m.findings[0];
            if f.kind != crate::analysis::IoAssessmentKind::NoMeaningfulContention {
                unranked.push(host_row("host:io", "I/O", f.severity, f.resource_confidence, &f.qualifiers));
            }
        },
        None => {},
    }
    let ghost host = cpu_rows(results.cpu) + memory_rows(results.memory) + io_rows(results.io);
    assert(row_views(unranked@) =~= host);
    let ghost cs = results.cgroups@;
    let mut i: usize = 0;
    while i < results.cgroups.len()
        invariant
            i <= cs.len(),
            cs == results.cgroups@,
            row_views(unranked@) == host + cgroup_rows(cs.take(i as int)),
        decreases cs.len() - i,
    {
        assert(cs.take(i + 1).drop_last() =~= cs.take(i as int));
        assert(cs.take(i + 1).last() == cs[i as int]);
        let f = &results.cgroups[i];
        if f.kind == CgroupAssessmentKind::Pressure {
            let ghost prev = unranked@;
            let r = scoped_row(f);
            unranked.push(r);
            assert(row_views(unranked@) =~= row_views(prev).push(row_view(r)));
            assert(cgroup_rows(cs.take(i + 1)) =~= cgroup_rows(cs.take(i as int)).push(cgroup_row(cs[i as int])));
            assert(row_views(unranked@) =~= host + cgroup_rows(cs.take(i + 1)));
        } else {
            assert(host + cgroup_rows(cs.take(i + 1)) =~= host + cgroup_rows(cs.take(i as int)));
        }
        i += 1;
    }
    assert(cs.take(i as int) =~= cs);
    assert(row_views(unranked@) =~= all);
    let total: usize = unranked.len();
    assert(all.len() == total);
    let mut out: Vec<FindingRow> = Vec::new();
    let mut k: usize = 0;
    assert(all.take(0) =~= Seq::<RowView>::empty());
    while unranked.len() > 0
        invariant
            k + unranked@.len() == all.len(),
            all.len() <= usize::MAX,
            row_views(unranked@) == all.skip(k as int),
            row_views(out@) == ranked_by(all.take(k as int), row_order()),
        decreases unranked.len(),
    {
        let ghost prev = unranked@;
        let x = unranked.remove(0);
        assert(unranked@ =~= prev.drop_first());
        assert(row_views(unranked@) =~= row_views(prev).drop_first());
        assert(row_view(x) == all[k as int]) by {
            assert(row_views(prev)[0] == row_view(prev[0]));
            assert(all.skip(k as int)[0] == all[k as int]);
        }
        assert(all.take(k + 1).drop_last() =~= all.take(k as int));
        assert(all.take(k + 1).last() == all[k as int]);
        insert_row(&mut out, x);
        k += 1;
        assert(row_views(unranked@) =~= all.skip(k as int));
    }
    assert(all.take(k as int) =~= all);
    proof {
        lemma_row_order_strict();
        lemma_ranked_sorted(all, row_order());
        lemma_rows_most_severe_first(out@);
    }
    out
}

/// Row `a` may be listed before row `b`: it is at least as severe, at least
/// as confident when equally severe, and its identifier does not come later
/// when both tie.
pub open spec fn listed_no_later(a: FindingRow, b: FindingRow) -> bool {
    &&& severity_index(a.severity) >= severity_index(b.severity)
    &&& severity_index(a.severity) == severity_index(b.severity) ==> confidence_index(a.confidence)
        >= confidence_index(b.confidence)
    &&& severity_index(a.severity) == severity_index(b.severity) && confidence_index(a.confidence)
        == confidence_index(b.confidence) ==> !seq_lt(b.id@, a.id@)
}

/// Rows sorted by the ranking come most severe first, then most confident,
/// then by identifier.
pub proof fn lemma_rows_most_severe_first(rows: Seq<FindingRow>)
    requires
        sorted_by(row_views(rows), row_order()),
    ensures
        forall|i: int, j: int| 0 <= i < j < rows.len() ==> listed_no_later(#[trigger] rows[i], #[trigger] rows[j]),
{
    assert forall|i: int, j: int| 0 <= i < j < rows.len() implies listed_no_later(#[trigger] rows[i], #[trigger] rows[j]) by {
        let v = row_views(rows);
        assert(v[i] == row_view(rows[i]) && v[j] == row_view(rows[j]));
        assert(!(row_order())(v[j], v[i]));
    }
}

} // verus!
