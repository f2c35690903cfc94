//! Scans that run elsewhere, and what they come to.

use vstd::prelude::*;

use crate::groups::{
    folders_of_size, groups_of_size, keep_folders_of_size, keep_groups_of_size, wrapped, DuplicateGroup, FolderGroup,
    FolderV, GroupV,
};
use crate::history::{at_least_zero, count_redundant, not_negative, redundant_bytes, RecordV, RunRecord};
use crate::paths::{FilePath, PathV};
use crate::scan::ScanResult;
use crate::text::concat3;

verus! {

/// The results of a scan that ended or was cancelled. `duration_seconds` has one
/// decimal.
#[derive(Debug)]
pub struct ScanSummary {
    pub run_id: String,
    pub directories: Vec<FilePath>,
    pub groups: Vec<DuplicateGroup>,
    pub folder_groups: Vec<FolderGroup>,
    pub skipped: usize,
    pub cancelled: bool,
    pub resumable: bool,
    pub reused: bool,
    pub duration_seconds: String,
    pub reclaimable_bytes: u64,
}

pub struct SummaryV {
    pub run_id: Seq<char>,
    pub directories: Seq<PathV>,
    pub groups: Seq<GroupV>,
    pub folder_groups: Seq<FolderV>,
    pub skipped: usize,
    pub cancelled: bool,
    pub resumable: bool,
    pub reused: bool,
    pub duration_seconds: Seq<char>,
    pub reclaimable_bytes: u64,
}

impl View for ScanSummary {
    type V = SummaryV;

    open spec fn view(&self) -> SummaryV {
        SummaryV {
            run_id: self.run_id@,
            directories: self.directories.deep_view(),
            groups: self.groups.deep_view(),
            folder_groups: self.folder_groups.deep_view(),
            skipped: self.skipped,
            cancelled: self.cancelled,
            resumable: self.resumable,
            reused: self.reused,
            duration_seconds: self.duration_seconds@,
            reclaimable_bytes: self.reclaimable_bytes,
        }
    }
}

/// Sums a scan up, without the groups of small files. What can be reclaimed is
/// what the copies in the groups handed on take up.
pub fn run_scan(
    run_id: String,
    directories: Vec<FilePath>,
    result: &ScanResult,
    record: &RunRecord,
    min_size: u64,
) -> (r: ScanSummary)
    ensures
        r@ == (SummaryV {
            run_id: run_id@,
            directories: directories.deep_view(),
            groups: groups_of_size(result@.groups, min_size),
            folder_groups: folders_of_size(result@.folder_groups, min_size),
            skipped: result@.skipped.len() as usize,
            cancelled: result@.cancelled,
            resumable: result@.cancelled && result@.resume_state is Some,
            reused: result@.reused_run_id is Some,
            duration_seconds: record@.duration_seconds,
            reclaimable_bytes: wrapped(redundant_bytes(groups_of_size(result@.groups, min_size))),
        }),
{
    let groups = keep_groups_of_size(&result.groups, min_size);
    let reclaimable_bytes: u64 = count_redundant(&groups);
    ScanSummary {
        run_id,
        directories,
        groups,
        folder_groups: keep_folders_of_size(&result.folder_groups, min_size),
        skipped: result.skipped.len(),
        cancelled: result.cancelled,
        resumable: result.cancelled && result.resume_state.is_some(),
        reused: result.reused_run_id.is_some(),
        duration_seconds: record.duration_seconds.clone(),
        reclaimable_bytes,
    }
}

/// The run that a scan belongs to, and the directories it goes through. A run
/// that is resumed keeps its id and its own directories, whatever directories
/// are asked for; a new scan has the id `fresh_id`. `saved` are the directories of
/// the run to resume, if it is kept.
pub fn choose_run(
    resume_run_id: Option<String>,
    saved: Option<Vec<String>>,
    directories: Vec<String>,
    fresh_id: String,
) -> (r: Result<(String, Vec<String>), String>)
    ensures
        match (resume_run_id, saved) {
            (Some(id), Some(dirs)) => r matches Ok((i, d)) && i@ == id@ && d.deep_view() == dirs.deep_view(),
            (Some(_), None) => r matches Err(s) && s@ == "No stopped run to resume."@,
            (None, _) => r matches Ok((i, d)) && i@ == fresh_id@ && d.deep_view() == directories.deep_view(),
        },
{
    match resume_run_id {
        Some(id) => match saved {
            Some(dirs) => Ok((id, dirs)),
            None => Err("No stopped run to resume.".to_string()),
        },
        None => Ok((fresh_id, directories)),
    }
}

/// Decides about one directory of a run that is resumed: why it cannot be, if
/// it is no directory.
pub fn check_resumed_directory(path: &FilePath, is_dir: bool) -> (r: Result<(), String>)
    ensures
        match r {
            Ok(_) => is_dir,
            Err(s) => !is_dir && s@ == "Cannot resume -- "@ + path@.text + " is no longer a directory"@,
        },
{
    if is_dir {
        Ok(())
    } else {
        Err(concat3("Cannot resume -- ", path.text.as_str(), " is no longer a directory"))
    }
}

/// The results of a past run, put together from what is kept of it. `paths` are
/// its directories.
pub fn past_summary(
    record: &RunRecord,
    paths: Vec<FilePath>,
    groups: Vec<DuplicateGroup>,
    folder_groups: Vec<FolderGroup>,
    resumable: bool,
) -> (r: ScanSummary)
    ensures
        r@ == past_summary_of(
            record@,
            paths.deep_view(),
            groups.deep_view(),
            folder_groups.deep_view(),
            resumable,
        ),
{
    let skipped: usize = if record.skipped < 0 {
        0
    } else {
        record.skipped as usize
    };
    ScanSummary {
        run_id: record.timestamp.clone(),
        directories: paths,
        groups,
        folder_groups,
        skipped,
        cancelled: record.cancelled,
        resumable,
        reused: false,
        duration_seconds: record.duration_seconds.clone(),
        reclaimable_bytes: not_negative(record.reclaimable_bytes),
    }
}

pub open spec fn past_summary_of(
    record: RecordV,
    paths: Seq<PathV>,
    groups: Seq<GroupV>,
    folder_groups: Seq<FolderV>,
    resumable: bool,
) -> SummaryV {
    SummaryV {
        run_id: record.timestamp,
        directories: paths,
        groups,
        folder_groups,
        skipped: if record.skipped < 0 {
            0
        } else {
            record.skipped as usize
        },
        cancelled: record.cancelled,
        resumable,
        reused: false,
        duration_seconds: record.duration_seconds,
        reclaimable_bytes: at_least_zero(record.reclaimable_bytes),
    }
}

/// How a scan ended.
pub enum OutcomeV {
    Scanned(SummaryV),
    Failed(Seq<char>),
}

#[derive(Debug)]
pub enum ScanOutcome {
    Scanned(ScanSummary),
    /// It failed, for this reason.
    Failed(String),
}

impl View for ScanOutcome {
    type V = OutcomeV;

    open spec fn view(&self) -> OutcomeV {
        match self {
            ScanOutcome::Scanned(s) => OutcomeV::Scanned(s@),
            ScanOutcome::Failed(e) => OutcomeV::Failed(e@),
        }
    }
}

/// A scan that runs elsewhere.
#[derive(Debug)]
pub struct ScanHandle {
    pub cancel: bool,
    pub done: bool,
    pub result: Option<ScanOutcome>,
}

pub struct ScanHandleV {
    pub cancel: bool,
    pub done: bool,
    pub result: Option<OutcomeV>,
}

impl View for ScanHandle {
    type V = ScanHandleV;

    open spec fn view(&self) -> ScanHandleV {
        ScanHandleV {
            cancel: self.cancel,
            done: self.done,
            result: match self.result {
                Some(r) => Some(r@),
                None => None,
            },
        }
    }
}

impl ScanHandle {
    /// A scan that has been started.
    pub fn started() -> (r: ScanHandle)
        ensures
            r@ == (ScanHandleV { cancel: false, done: false, result: None }),
    {
        ScanHandle { cancel: false, done: false, result: None }
    }

    /// The scan has come to its end.
    pub fn complete(&mut self, outcome: ScanOutcome)
        ensures
            final(self)@ == (ScanHandleV { done: true, result: Some(outcome@), ..old(self)@ }),
    {
        self.result = Some(outcome);
        self.done = true;
    }

    /// Whether the scan has come to its end.
    pub fn is_done(&self) -> (r: bool)
        ensures
            r == self@.done,
    {
        self.done
    }

    /// Takes the outcome out, once.
    pub fn take(&mut self) -> (r: Option<ScanOutcome>)
        ensures
            match r {
                Some(outcome) => old(self)@.result == Some(outcome@),
                None => old(self)@.result is None,
            },
            final(self)@ == (ScanHandleV { result: None, ..old(self)@ }),
    {
        self.result.take()
    }

    /// Asks the scan to stop.
    pub fn request_cancel(&mut self)
        ensures
            final(self)@ == (ScanHandleV { cancel: true, ..old(self)@ }),
    {
        self.cancel = true;
    }
}

} // verus!
