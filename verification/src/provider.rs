//! Provider health: how the result of a provider's own check becomes a report.
use vstd::prelude::*;
use crate::text::{trim, trim_str};

verus! {

#[derive(Debug, Clone, Copy, PartialEq, Eq, Structural)]
pub enum Status {
    Healthy,
    Absent,
    Failed,
}

#[derive(Debug)]
pub struct Report {
    pub provider: String,
    pub status: Status,
    pub detail: String,
}

pub struct ReportView {
    pub provider: Seq<char>,
    pub status: Status,
    pub detail: Seq<char>,
}

impl View for Report {
    type V = ReportView;

    open spec fn view(&self) -> ReportView {
        ReportView { provider: self.provider@, status: self.status, detail: self.detail@ }
    }
}

impl Clone for Report {
    fn clone(&self) -> (r: Self)
        ensures
            r@ == self@,
    {
        Report { provider: self.provider.clone(), status: self.status, detail: self.detail.clone() }
    }
}

pub open spec fn acceptable(s: Status) -> bool {
    s == Status::Healthy || s == Status::Absent
}

impl Report {
    /// Absence is a normal state, not a warning: no command needs a provider.
    pub fn is_acceptable(&self) -> (r: bool)
        ensures
            r == acceptable(self.status),
    {
        match self.status {
            Status::Healthy | Status::Absent => true,
            Status::Failed => false,
        }
    }
}

/// Whether every provider is in an acceptable state.
pub fn healthy(reports: &[Report]) -> (r: bool)
    ensures
        r == forall|i: int| 0 <= i < reports@.len() ==> acceptable(#[trigger] reports@[i].status),
{
    let mut i: usize = 0;
    while i < reports.len()
        invariant
            0 <= i <= reports@.len(),
            forall|k: int| 0 <= k < i ==> acceptable(#[trigger] reports@[k].status),
        decreases reports@.len() - i,
    {
        if !reports[i].is_acceptable() {
            return false;
        }
        i += 1;
    }
    true
}

/// What running a provider's check produced.
pub enum Probe {
    /// The command ran to completion: whether it succeeded, and its two
    /// output streams (decoded, invalid UTF-8 replaced).
    Exited { success: bool, stdout: String, stderr: String },
    /// The command could not be started; the reason.
    NotStarted { error: String },
}

/// The Graphify report: absent without its setup script; otherwise the
/// outcome of the script's own verification, its standard output on success,
/// its standard error (or, when that is blank, its standard output) on failure.
pub open spec fn graphify_view(script: Option<Probe>) -> ReportView {
    match script {
        None => ReportView {
            provider: "graphify"@,
            status: Status::Absent,
            detail: "no .graphify/setup.sh in this repository"@,
        },
        Some(Probe::Exited { success, stdout, stderr }) => if success {
            ReportView { provider: "graphify"@, status: Status::Healthy, detail: trim(stdout@) }
        } else {
            ReportView {
                provider: "graphify"@,
                status: Status::Failed,
                detail: if trim(stderr@).len() == 0 {
                    trim(stdout@)
                } else {
                    trim(stderr@)
                },
            }
        },
        Some(Probe::NotStarted { error }) => ReportView {
            provider: "graphify"@,
            status: Status::Failed,
            detail: error@,
        },
    }
}

/// Delegate to Graphify's own verification rather than re-implementing the
/// pin, hook, and merge-driver checks, which would create a second definition
/// of Graphify health that silently drifts from the first. `script` is `None`
/// when the repository has no `.graphify/setup.sh`.
pub fn graphify_report(script: Option<Probe>) -> (r: Report)
    ensures
        r@ == graphify_view(script),
{
    match script {
        None => Report {
            provider: String::from_str("graphify"),
            status: Status::Absent,
            detail: String::from_str("no .graphify/setup.sh in this repository"),
        },
        Some(Probe::Exited { success, stdout, stderr }) => {
            if success {
                Report {
                    provider: String::from_str("graphify"),
                    status: Status::Healthy,
                    detail: trim_str(stdout.as_str()),
                }
            } else {
                let err = trim_str(stderr.as_str());
                let detail = if err.as_str().is_empty() {
                    trim_str(stdout.as_str())
                } else {
                    err
                };
                Report { provider: String::from_str("graphify"), status: Status::Failed, detail }
            }
        },
        Some(Probe::NotStarted { error }) => Report {
            provider: String::from_str("graphify"),
            status: Status::Failed,
            detail: error,
        },
    }
}

/// The Semantica report: present when `semantica --version` succeeds,
/// otherwise absent, which is the expected state.
pub open spec fn semantica_view(probe: Probe) -> ReportView {
    match probe {
        Probe::Exited { success, stdout, stderr } if success => ReportView {
            provider: "semantica"@,
            status: Status::Healthy,
            detail: trim(stdout@),
        },
        _ => ReportView {
            provider: "semantica"@,
            status: Status::Absent,
            detail: "not installed; this is the expected state"@,
        },
    }
}

pub fn semantica_report(probe: Probe) -> (r: Report)
    ensures
        r@ == semantica_view(probe),
{
    match probe {
        Probe::Exited { success, stdout, stderr } if success => Report {
            provider: String::from_str("semantica"),
            status: Status::Healthy,
            detail: trim_str(stdout.as_str()),
        },
        _ => Report {
            provider: String::from_str("semantica"),
            status: Status::Absent,
            detail: String::from_str("not installed; this is the expected state"),
        },
    }
}

/// Only a failure is unacceptable.
pub proof fn lemma_only_failure_is_unacceptable(s: Status)
    ensures
        acceptable(s) <==> s != Status::Failed,
{
}

/// Graphify is absent exactly when the repository has no setup script, and
/// healthy exactly when its own verification ran and succeeded: a script that
/// could not be started or whose verification failed is a failure, never
/// mistaken for absence.
pub proof fn lemma_graphify_status(script: Option<Probe>)
    ensures
        graphify_view(script).status == Status::Absent <==> script is None,
        graphify_view(script).status == Status::Healthy <==> match script {
            Some(Probe::Exited { success, .. }) => success,
            _ => false,
        },
        graphify_view(script).provider == "graphify"@,
{
}

/// Semantica is never reported as failed, and Graphify without its setup
/// script is absent: in neither case does the missing provider make the
/// installation unhealthy.
pub proof fn lemma_missing_providers_are_acceptable(probe: Probe)
    ensures
        acceptable(semantica_view(probe).status),
        acceptable(graphify_view(None).status),
{
}

} // verus!
