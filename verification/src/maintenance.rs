//! Health checks, diagnosis, and the policy of backup and restore.

use crate::diagnostics::texts;
use crate::integrity::{
    all_findings, finding_views, ComputedHashes, FindingView, IntegrityFinding,
};
use crate::migrations::LATEST_SCHEMA_VERSION;
use crate::model::Node;
use crate::semantic::SemanticIndex;
use crate::tables::SqliteStore;
use crate::text::{decimal, push_decimal};
use crate::tree::unique_ids;
use vstd::prelude::*;

verus! {

/// Stable `check` outcome suitable for process exit-code mapping.
#[derive(Clone, Copy, Debug, PartialEq, Eq, Structural)]
pub enum CheckStatus {
    /// Database and tree invariants pass.
    Healthy,
    /// The workspace opened but failed one or more checks.
    Invalid,
}

/// Machine-readable combined check result.
#[derive(Debug)]
pub struct CheckReport {
    /// Overall outcome.
    pub status: CheckStatus,
    /// Database `integrity_check` messages other than `ok`.
    pub sqlite_findings: Vec<String>,
    /// Stable finding codes and details.
    pub mdtree_findings: Vec<String>,
}

/// One actionable runtime diagnostic.
#[derive(Debug)]
pub struct DoctorFinding {
    /// Stable diagnostic code.
    pub code: String,
    /// Whether the condition prevents normal operation.
    pub blocking: bool,
    /// Human-readable action or confirmation.
    pub message: String,
}

/// Non-mutating environment and workspace diagnosis.
#[derive(Debug)]
pub struct DoctorReport {
    /// Detected database library version.
    pub sqlite_version: String,
    /// Whether FTS5 is compiled in.
    pub fts5_available: bool,
    /// Findings including compatibility, permissions, locks, and recommendations.
    pub findings: Vec<DoctorFinding>,
}

/// What probing an opened workspace file showed.
#[derive(Clone, Copy, Debug, PartialEq, Eq, Structural)]
pub struct OpenedProbe {
    pub fts5_available: bool,
    /// Installed schema version; zero when unknown.
    pub schema: u32,
    pub read_only: bool,
    /// Whether another writer holds the lock.
    pub locked: bool,
}

/// Why a backup or restore is refused.
#[derive(Debug)]
pub enum MaintenanceError {
    /// Destination protection rejected the operation.
    AlreadyExists(String),
    /// A backup is structurally invalid and cannot be restored.
    InvalidBackup(Vec<String>),
}

/// The messages that report a problem.
pub open spec fn problems(messages: Seq<Seq<char>>) -> Seq<Seq<char>> {
    messages.filter(|m: Seq<char>| m != "ok"@)
}

/// A finding as one line.
pub open spec fn finding_line(finding: FindingView) -> Seq<char> {
    finding.code + ": "@ + finding.detail
}

pub open spec fn finding_lines(findings: Seq<FindingView>) -> Seq<Seq<char>> {
    Seq::new(findings.len(), |i: int| finding_line(findings[i]))
}

/// Whether the report combines the messages and the findings.
pub open spec fn combines(
    report: CheckReport,
    messages: Seq<Seq<char>>,
    findings: Seq<FindingView>,
) -> bool {
    &&& texts(report.sqlite_findings@) == problems(messages)
    &&& texts(report.mdtree_findings@) == finding_lines(findings)
    &&& (report.status == CheckStatus::Healthy <==> problems(messages).len() == 0
        && findings.len() == 0)
}

/// Combines the database's own messages with the tree's findings.
pub fn combine_checks(messages: &Vec<String>, findings: &Vec<IntegrityFinding>) -> (report:
    CheckReport)
    ensures
        combines(report, texts(messages@), finding_views(findings@)),
{
    let ghost all = texts(messages@);
    let ghost keep = |m: Seq<char>| m != "ok"@;
    let ok = "ok".to_owned();
    let mut sqlite_findings: Vec<String> = Vec::new();
    let mut i: usize = 0;
    assert(texts(sqlite_findings@) =~= all.take(0).filter(keep)) by {
        reveal(Seq::filter);
    }
    while i < messages.len()
        invariant
            i <= messages.len(),
            ok@ == "ok"@,
            all == texts(messages@),
            keep == (|m: Seq<char>| m != "ok"@),
            texts(sqlite_findings@) == all.take(i as int).filter(keep),
        decreases messages.len() - i,
    {
        proof {
            crate::edits::lemma_filter_step(all, keep, i as int);
        }
        let ghost before = texts(sqlite_findings@);
        if messages[i] != ok {
            sqlite_findings.push(messages[i].clone());
            assert(texts(sqlite_findings@) =~= before.push(all[i as int]));
        }
        i = i + 1;
    }
    assert(all.take(all.len() as int) =~= all);
    let mut mdtree_findings: Vec<String> = Vec::new();
    let mut j: usize = 0;
    while j < findings.len()
        invariant
            j <= findings.len(),
            mdtree_findings.len() == j,
            forall|k: int|
                0 <= k < j ==> (#[trigger] mdtree_findings@[k])@ == finding_line(findings@[k]@),
        decreases findings.len() - j,
    {
        let mut line = findings[j].code.clone();
        line.push_str(": ");
        line.push_str(findings[j].detail.as_str());
        mdtree_findings.push(line);
        j = j + 1;
    }
    assert(texts(mdtree_findings@) =~= finding_lines(finding_views(findings@)));
    assert(texts(sqlite_findings@).len() == sqlite_findings@.len());
    let healthy: bool = sqlite_findings.len() == 0 && mdtree_findings.len() == 0;
    let status: CheckStatus = if healthy {
        CheckStatus::Healthy
    } else {
        CheckStatus::Invalid
    };
    CheckReport { status, sqlite_findings, mdtree_findings }
}

/// Checks a workspace without mutation, given the database's own messages and
/// the hashes computed from the nodes' contents.
pub fn check_workspace(
    store: &SqliteStore,
    index: &SemanticIndex,
    messages: &Vec<String>,
    hashes: &Vec<ComputedHashes>,
) -> (report: CheckReport)
    requires
        unique_ids(store@.nodes),
    ensures
        exists|by_id: Seq<Node>| #[trigger]
            store@.by_identity(by_id) && combines(
                report,
                texts(messages@),
                all_findings(store@, index@, hashes@, by_id),
            ),
{
    let integrity = store.validate_integrity(hashes, index);
    combine_checks(messages, &integrity.findings)
}

/// Accepts a healthy backup; names every finding of another one.
pub fn validate_backup(report: &CheckReport) -> (result: Result<(), MaintenanceError>)
    ensures
        report.status == CheckStatus::Healthy ==> result is Ok,
        report.status == CheckStatus::Invalid ==> (result matches Err(
            MaintenanceError::InvalidBackup(findings),
        ) && texts(findings@) == texts(report.sqlite_findings@) + texts(report.mdtree_findings@)),
{
    match report.status {
        CheckStatus::Healthy => Ok(()),
        CheckStatus::Invalid => {
            let mut findings = crate::context::copy_texts(&report.sqlite_findings);
            let mut rest = crate::context::copy_texts(&report.mdtree_findings);
            let ghost a = texts(findings@);
            let ghost b = texts(rest@);
            findings.append(&mut rest);
            assert(texts(findings@) =~= a + b);
            Err(MaintenanceError::InvalidBackup(findings))
        },
    }
}

/// Whether a backup may be written: never over an existing destination.
pub fn plan_backup(destination: &str, destination_exists: bool) -> (result: Result<
    (),
    MaintenanceError,
>)
    ensures
        !destination_exists ==> result is Ok,
        destination_exists ==> (result matches Err(MaintenanceError::AlreadyExists(p)) && p@
            == destination@),
{
    if destination_exists {
        Err(MaintenanceError::AlreadyExists(destination.to_owned()))
    } else {
        Ok(())
    }
}

/// Whether a backup may be installed: it must be healthy, and an existing
/// destination is replaced only on request.
pub fn plan_restore(
    report: &CheckReport,
    destination: &str,
    destination_exists: bool,
    overwrite: bool,
) -> (result: Result<(), MaintenanceError>)
    ensures
        if report.status == CheckStatus::Invalid {
            result matches Err(MaintenanceError::InvalidBackup(findings)) && texts(findings@)
                == texts(report.sqlite_findings@) + texts(report.mdtree_findings@)
        } else if destination_exists && !overwrite {
            result matches Err(MaintenanceError::AlreadyExists(p)) && p@ == destination@
        } else {
            result is Ok
        },
{
    validate_backup(report)?;
    if destination_exists && !overwrite {
        return Err(MaintenanceError::AlreadyExists(destination.to_owned()));
    }
    Ok(())
}

/// The contents of a [`DoctorFinding`].
pub struct DoctorView {
    pub code: Seq<char>,
    pub blocking: bool,
    pub message: Seq<char>,
}

impl View for DoctorFinding {
    type V = DoctorView;

    open spec fn view(&self) -> DoctorView {
        DoctorView { code: self.code@, blocking: self.blocking, message: self.message@ }
    }
}

pub open spec fn doctor_views(findings: Seq<DoctorFinding>) -> Seq<DoctorView> {
    Seq::new(findings.len(), |i: int| findings[i]@)
}

/// The finding on the installed schema.
pub open spec fn schema_finding(schema: u32) -> DoctorView {
    DoctorView {
        code: "format_compatibility"@,
        blocking: schema > LATEST_SCHEMA_VERSION,
        message: if schema > LATEST_SCHEMA_VERSION {
            "schema "@ + decimal(schema as nat) + " is newer than supported "@ + decimal(
                LATEST_SCHEMA_VERSION as nat,
            )
        } else {
            "schema "@ + decimal(schema as nat) + " is supported"@
        },
    }
}

/// The finding on a two-sided condition.
pub open spec fn either_finding(
    code: Seq<char>,
    blocking: bool,
    bad: Seq<char>,
    good: Seq<char>,
) -> DoctorView {
    DoctorView {
        code,
        blocking,
        message: if blocking {
            bad
        } else {
            good
        },
    }
}

/// Findings of the probe itself.
pub open spec fn probe_findings(probe: Result<OpenedProbe, String>) -> Seq<DoctorView> {
    match probe {
        Ok(opened) => seq![
            schema_finding(opened.schema),
            either_finding(
                "write_permission"@,
                opened.read_only,
                "workspace file is read-only"@,
                "workspace file is writable"@,
            ),
            either_finding(
                "write_lock"@,
                opened.locked,
                "workspace has an active conflicting write lock"@,
                "no conflicting write lock detected"@,
            ),
        ],
        Err(message) => seq![
            DoctorView { code: "open"@, blocking: true, message: message@ },
        ],
    }
}

/// Whether FTS5 was found.
pub open spec fn has_fts5(probe: Result<OpenedProbe, String>) -> bool {
    match probe {
        Ok(opened) => opened.fts5_available,
        Err(_) => false,
    }
}

/// Every finding of a diagnosis.
pub open spec fn diagnosis(probe: Result<OpenedProbe, String>, healthy: Option<bool>) -> Seq<
    DoctorView,
> {
    probe_findings(probe) + seq![
        either_finding(
            "fts5"@,
            !has_fts5(probe),
            "SQLite FTS5 is unavailable; install a build with FTS5"@,
            "SQLite FTS5 is available"@,
        ),
    ] + if healthy == Some(false) {
        seq![
            DoctorView {
                code: "rebuild_recommended"@,
                blocking: false,
                message:
                    "derived integrity findings detected; run rebuild-indexes, then check"@,
            },
        ]
    } else {
        Seq::empty()
    }
}

fn push_finding(findings: &mut Vec<DoctorFinding>, code: &str, blocking: bool, message: &str)
    ensures
        doctor_views(final(findings)@) == doctor_views(old(findings)@).push(
            DoctorView { code: code@, blocking, message: message@ },
        ),
{
    findings.push(
        DoctorFinding { code: code.to_owned(), blocking, message: message.to_owned() },
    );
    assert(doctor_views(findings@) =~= doctor_views(old(findings)@).push(
        DoctorView { code: code@, blocking, message: message@ },
    ));
}

/// Diagnoses database support, permissions, compatibility, locks, and repair
/// options from what probing the file showed, and from whether the tree was
/// found healthy, if it could be read.
pub fn doctor_workspace(
    sqlite_version: String,
    probe: &Result<OpenedProbe, String>,
    healthy: Option<bool>,
) -> (report: DoctorReport)
    ensures
        report.sqlite_version == sqlite_version,
        report.fts5_available == has_fts5(*probe),
        doctor_views(report.findings@) == diagnosis(*probe, healthy),
{
    let mut findings: Vec<DoctorFinding> = Vec::new();
    assert(doctor_views(findings@) =~= Seq::empty());
    let mut fts5_available: bool = false;
    match probe {
        Ok(opened) => {
            fts5_available = opened.fts5_available;
            let newer: bool = opened.schema > LATEST_SCHEMA_VERSION;
            let mut message = "schema ".to_owned();
            push_decimal(&mut message, opened.schema as u64);
            if newer {
                message.push_str(" is newer than supported ");
                push_decimal(&mut message, LATEST_SCHEMA_VERSION as u64);
            } else {
                message.push_str(" is supported");
            }
            push_finding(&mut findings, "format_compatibility", newer, message.as_str());
            push_finding(
                &mut findings,
                "write_permission",
                opened.read_only,
                if opened.read_only {
                    "workspace file is read-only"
                } else {
                    "workspace file is writable"
                },
            );
            push_finding(
                &mut findings,
                "write_lock",
                opened.locked,
                if opened.locked {
                    "workspace has an active conflicting write lock"
                } else {
                    "no conflicting write lock detected"
                },
            );
        },
        Err(message) => {
            push_finding(&mut findings, "open", true, message.as_str());
        },
    }
    assert(doctor_views(findings@) =~= probe_findings(*probe));
    push_finding(
        &mut findings,
        "fts5",
        !fts5_available,
        if fts5_available {
            "SQLite FTS5 is available"
        } else {
            "SQLite FTS5 is unavailable; install a build with FTS5"
        },
    );
    match healthy {
        Some(false) => {
            push_finding(
                &mut findings,
                "rebuild_recommended",
                false,
                "derived integrity findings detected; run rebuild-indexes, then check",
            );
        },
        _ => {},
    }
    assert(doctor_views(findings@) =~= diagnosis(*probe, healthy));
    DoctorReport { sqlite_version, fts5_available, findings }
}

} // verus!
