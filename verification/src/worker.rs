//! Mirror job execution, as a plan of filesystem steps: which file to
//! write and which to remove. Renames write the new file before removing
//! the old one, so an interrupted run never loses the link.

use crate::errors::Error;
use crate::models::{MirrorJob, MirrorOperation};
use crate::state::WorkerReport;
use vstd::prelude::*;

verus! {

/// Maximum retries before a job is marked permanently failed.
pub const MAX_RETRIES: u32 = 8;

/// One filesystem step of a job.
#[derive(Debug, Clone, PartialEq, Eq)]
pub enum FsStep {
    /// Write `content` to `path` (atomically, through a sibling file).
    Write { path: String, content: String },
    /// Remove `path` if it exists.
    Remove { path: String },
}

pub open spec fn missing_message(field: Seq<char>) -> Seq<char> {
    "job is missing "@ + field
}

/// A job field that the operation needs.
pub fn required(value: &Option<String>, field: &str) -> (res: Result<String, Error>)
    ensures
        match value {
            Some(v) => res matches Ok(r) && r@ == v@,
            None => res matches Err(Error::Mirror(m)) && m@ == missing_message(field@),
        },
{
    match value {
        Some(v) => Ok(v.clone()),
        None => Err(Error::Mirror(crate::text::cat2("job is missing ", field))),
    }
}

/// The steps of a job: a create or replace writes the new path; a rename
/// writes the new path, then removes the old one if there is one; a delete
/// removes the old path if there is one. A write without its path or
/// content is refused, the path checked first.
pub open spec fn job_steps_ok(job: MirrorJob, steps: Seq<FsStep>) -> bool {
    match job.operation {
        MirrorOperation::Delete => match job.old_path {
            Some(old) => steps.len() == 1 && (steps[0] matches FsStep::Remove { path } && path@
                == old@),
            None => steps.len() == 0,
        },
        _ => {
            &&& job.new_path matches Some(np)
            &&& job.content matches Some(c)
            &&& steps.len() >= 1
            &&& steps[0] matches FsStep::Write { path, content } && path@ == np@ && content@ == c@
            &&& if job.operation == MirrorOperation::Rename && job.old_path is Some {
                steps.len() == 2 && (steps[1] matches FsStep::Remove { path } && path@
                    == job.old_path->0@)
            } else {
                steps.len() == 1
            }
        },
    }
}

/// Plan one mirror job on the filesystem.
pub fn execute(job: &MirrorJob) -> (res: Result<Vec<FsStep>, Error>)
    ensures
        match res {
            Ok(steps) => job_steps_ok(*job, steps@),
            Err(Error::Mirror(m)) => job.operation != MirrorOperation::Delete && (if job.new_path
                is None {
                m@ == missing_message("new_path"@)
            } else {
                job.content is None && m@ == missing_message("content"@)
            }),
            Err(_) => false,
        },
{
    let mut steps: Vec<FsStep> = Vec::new();
    match job.operation {
        MirrorOperation::Delete => {
            if let Some(old) = &job.old_path {
                steps.push(FsStep::Remove { path: old.clone() });
            }
        },
        _ => {
            let path = match required(&job.new_path, "new_path") {
                Ok(p) => p,
                Err(e) => return Err(e),
            };
            let content = match required(&job.content, "content") {
                Ok(c) => c,
                Err(e) => return Err(e),
            };
            steps.push(FsStep::Write { path, content });
            if job.operation == MirrorOperation::Rename {
                if let Some(old) = &job.old_path {
                    steps.push(FsStep::Remove { path: old.clone() });
                }
            }
        },
    }
    Ok(steps)
}

/// Whether a failure of a job already retried `retry_count` times is its
/// last one.
pub open spec fn gives_up_spec(retry_count: u32) -> bool {
    retry_count + 1 >= MAX_RETRIES
}

pub fn gives_up(retry_count: u32) -> (res: bool)
    ensures
        res == gives_up_spec(retry_count),
{
    retry_count >= MAX_RETRIES - 1
}

/// Counts one job's outcome in the pass report.
pub fn record_outcome(report: &mut WorkerReport, succeeded: bool, retry_count: u32)
    requires
        old(report).completed < usize::MAX,
        old(report).retried < usize::MAX,
        old(report).failed < usize::MAX,
    ensures
        succeeded ==> *final(report) == (WorkerReport {
            completed: (old(report).completed + 1) as usize,
            ..*old(report)
        }),
        !succeeded && gives_up_spec(retry_count) ==> *final(report) == (WorkerReport {
            failed: (old(report).failed + 1) as usize,
            ..*old(report)
        }),
        !succeeded && !gives_up_spec(retry_count) ==> *final(report) == (WorkerReport {
            retried: (old(report).retried + 1) as usize,
            ..*old(report)
        }),
{
    if succeeded {
        report.completed = report.completed + 1;
    } else if gives_up(retry_count) {
        report.failed = report.failed + 1;
    } else {
        report.retried = report.retried + 1;
    }
}

} // verus!
