//! Job bookkeeping shared by the command-line and desktop front ends:
//! pipeline stages and their labels, the outcome message of a job, output
//! naming, and the worker count.
use vstd::prelude::*;

verus! {

/// Stage of the repair pipeline.
#[derive(Clone, Copy, PartialEq, Eq, Debug)]
pub enum Stage {
    Extract,
    Analyze,
    Optical,
    Splice,
    Write,
}

/// A progress report: the stage and a log line.
#[derive(Clone, Debug)]
pub struct Progress {
    pub stage: Stage,
    pub message: String,
}

/// The label the user sees for a stage.
pub open spec fn stage_label(s: Stage) -> Seq<char> {
    match s {
        Stage::Extract | Stage::Analyze => "analyzing"@,
        Stage::Optical => "measuring motion"@,
        Stage::Splice => "patching"@,
        Stage::Write => "verifying"@,
    }
}

/// The label the user sees for a stage.
pub fn stage_name(s: Stage) -> (r: &'static str)
    ensures
        r@ == stage_label(s),
{
    match s {
        Stage::Extract | Stage::Analyze => "analyzing",
        Stage::Optical => "measuring motion",
        Stage::Splice => "patching",
        Stage::Write => "verifying",
    }
}

/// The end of a job.
#[derive(Clone, Debug)]
pub struct JobDone {
    pub id: u64,
    pub status: &'static str,
    pub message: String,
}

/// How a job ended.
pub enum JobOutcome {
    /// The input is not an `.MP4` file.
    NotMp4,
    /// A repaired file was written to the given path.
    Repaired(String),
    /// The telemetry is healthy; nothing was written.
    Healthy,
    /// The user cancelled the job.
    Cancelled,
    /// The pipeline failed with the given message.
    Failed(String),
    /// The pipeline panicked with the given message.
    Panicked(String),
}

/// Status word and message reported for an outcome.
pub open spec fn outcome_report(o: JobOutcome) -> (Seq<char>, Seq<char>) {
    match o {
        JobOutcome::NotMp4 => ("error"@, "not an .MP4 file"@),
        JobOutcome::Repaired(path) => ("done"@, path@),
        JobOutcome::Healthy => ("healthy"@, "telemetry looks healthy, nothing to repair"@),
        JobOutcome::Cancelled => ("cancelled"@, Seq::<char>::empty()),
        JobOutcome::Failed(msg) => ("error"@, msg@),
        JobOutcome::Panicked(msg) => ("error"@, "internal error: "@ + msg@),
    }
}

/// The report of job `id` for its outcome.
pub fn job_done(id: u64, outcome: JobOutcome) -> (r: JobDone)
    ensures
        r.id == id,
        (r.status@, r.message@) == outcome_report(outcome),
{
    match outcome {
        JobOutcome::NotMp4 => JobDone {
            id,
            status: "error",
            message: String::from_str("not an .MP4 file"),
        },
        JobOutcome::Repaired(path) => JobDone { id, status: "done", message: path },
        JobOutcome::Healthy => JobDone {
            id,
            status: "healthy",
            message: String::from_str("telemetry looks healthy, nothing to repair"),
        },
        JobOutcome::Cancelled => JobDone { id, status: "cancelled", message: String::new() },
        JobOutcome::Failed(msg) => JobDone { id, status: "error", message: msg },
        JobOutcome::Panicked(msg) => {
            let mut m = String::from_str("internal error: ");
            m.append(msg.as_str());
            JobDone { id, status: "error", message: m }
        },
    }
}

/// ASCII lower case of a character.
pub open spec fn ascii_lower(c: char) -> char {
    if 'A' <= c <= 'Z' {
        ((c as u32) + 32) as char
    } else {
        c
    }
}

/// The name ends in `.mp4`, ignoring ASCII case.
pub open spec fn has_mp4_ext(name: Seq<char>) -> bool {
    &&& name.len() >= 4
    &&& ascii_lower(name[name.len() - 4]) == '.'
    &&& ascii_lower(name[name.len() - 3]) == 'm'
    &&& ascii_lower(name[name.len() - 2]) == 'p'
    &&& ascii_lower(name[name.len() - 1]) == '4'
}

/// Whether a file name ends in `.mp4`, ignoring ASCII case.
pub fn is_mp4_name(name: &str) -> (r: bool)
    ensures
        r == has_mp4_ext(name@),
{
    let n = name.unicode_len();
    if n < 4 {
        return false;
    }
    let c0 = name.get_char(n - 4);
    let c1 = name.get_char(n - 3);
    let c2 = name.get_char(n - 2);
    let c3 = name.get_char(n - 1);
    proof {
        assert(ascii_lower(c0) == '.' <==> c0 == '.');
        assert(ascii_lower(c1) == 'm' <==> (c1 == 'm' || c1 == 'M'));
        assert(ascii_lower(c2) == 'p' <==> (c2 == 'p' || c2 == 'P'));
        assert(ascii_lower(c3) == '4' <==> c3 == '4');
    }
    c0 == '.' && (c1 == 'm' || c1 == 'M') && (c2 == 'p' || c2 == 'P') && c3 == '4'
}

/// Output file name next to the input: `{stem}_fixed.{ext}`.
pub fn default_output_name(stem: &str, ext: &str) -> (r: String)
    ensures
        r@ == stem@ + "_fixed."@ + ext@,
{
    let mut r = String::from_str(stem);
    r.append("_fixed.");
    r.append(ext);
    r
}

/// Output file name in a chosen folder: `{stem}_fixed.{ext}`, or
/// `{stem}_fixed` when the input has no extension.
pub fn folder_output_name(stem: &str, ext: &str) -> (r: String)
    ensures
        ext@.len() == 0 ==> r@ == stem@ + "_fixed"@,
        ext@.len() != 0 ==> r@ == stem@ + "_fixed."@ + ext@,
{
    if ext.is_empty() {
        let mut r = String::from_str(stem);
        r.append("_fixed");
        r
    } else {
        default_output_name(stem, ext)
    }
}

/// `concurrent` clamped to `1..=3`, then capped at `jobs`.
pub open spec fn clamp_workers(concurrent: int, jobs: int) -> int {
    let c = if concurrent < 1 {
        1
    } else if concurrent > 3 {
        3
    } else {
        concurrent
    };
    if c < jobs {
        c
    } else {
        jobs
    }
}

/// Number of worker threads: the configured number of concurrent files
/// clamped to 1..=3, and no more than the number of jobs.
pub fn worker_count(concurrent_files: usize, n_jobs: usize) -> (r: usize)
    ensures
        r == clamp_workers(concurrent_files as int, n_jobs as int),
{
    let c = if concurrent_files < 1 {
        1
    } else if concurrent_files > 3 {
        3
    } else {
        concurrent_files
    };
    if c < n_jobs {
        c
    } else {
        n_jobs
    }
}

/// An explicit output path is only accepted for a single input video.
pub fn output_allowed(has_output: bool, n_videos: usize) -> (r: bool)
    ensures
        r == !(has_output && n_videos > 1),
{
    !(has_output && n_videos > 1)
}

} // verus!
