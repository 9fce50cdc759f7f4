use o4core::intervals::mask_runs;
use o4core::jobs::{
    default_output_name, folder_output_name, is_mp4_name, job_done, output_allowed, stage_name,
    worker_count, JobOutcome, Progress, Stage,
};

#[test]
fn stage_labels() {
    assert_eq!(stage_name(Stage::Extract), "analyzing");
    assert_eq!(stage_name(Stage::Analyze), "analyzing");
    assert_eq!(stage_name(Stage::Optical), "measuring motion");
    assert_eq!(stage_name(Stage::Splice), "patching");
    assert_eq!(stage_name(Stage::Write), "verifying");
    let p = Progress { stage: Stage::Splice, message: "x".to_string() };
    assert_eq!(stage_name(p.stage), "patching");
}

#[test]
fn job_reports() {
    let d = job_done(3, JobOutcome::Repaired("D:/out/a_fixed.MP4".into()));
    assert_eq!((d.id, d.status, d.message.as_str()), (3, "done", "D:/out/a_fixed.MP4"));
    let d = job_done(4, JobOutcome::Healthy);
    assert_eq!((d.status, d.message.as_str()), ("healthy", "telemetry looks healthy, nothing to repair"));
    let d = job_done(5, JobOutcome::Cancelled);
    assert_eq!((d.status, d.message.as_str()), ("cancelled", ""));
    let d = job_done(6, JobOutcome::Failed("boom".into()));
    assert_eq!((d.status, d.message.as_str()), ("error", "boom"));
    let d = job_done(7, JobOutcome::Panicked("index out of range".into()));
    assert_eq!((d.status, d.message.as_str()), ("error", "internal error: index out of range"));
    let d = job_done(8, JobOutcome::NotMp4);
    assert_eq!((d.status, d.message.as_str()), ("error", "not an .MP4 file"));
}

#[test]
fn mp4_names_ignore_case() {
    assert!(is_mp4_name("DJI_0021.MP4"));
    assert!(is_mp4_name("clip.mp4"));
    assert!(is_mp4_name("x.Mp4"));
    assert!(is_mp4_name(".mp4"));
    assert!(!is_mp4_name("mp4"));
    assert!(!is_mp4_name("clip.mov"));
    assert!(!is_mp4_name("clip.mp4.bak"));
    assert!(is_mp4_name("vidéo.MP4"));
}

#[test]
fn output_names() {
    assert_eq!(default_output_name("DJI_0021", "MP4"), "DJI_0021_fixed.MP4");
    assert_eq!(default_output_name("clip", ""), "clip_fixed.");
    assert_eq!(folder_output_name("clip", "mp4"), "clip_fixed.mp4");
    assert_eq!(folder_output_name("clip", ""), "clip_fixed");
}

#[test]
fn worker_counts() {
    assert_eq!(worker_count(0, 5), 1);
    assert_eq!(worker_count(2, 5), 2);
    assert_eq!(worker_count(9, 5), 3);
    assert_eq!(worker_count(3, 2), 2);
    assert_eq!(worker_count(3, 0), 0);
}

#[test]
fn explicit_output_needs_single_video() {
    assert!(output_allowed(true, 1));
    assert!(output_allowed(false, 3));
    assert!(!output_allowed(true, 2));
}

#[test]
fn runs_of_mask() {
    assert_eq!(mask_runs(&[false, true, true, false, true]), vec![(1, 3), (4, 5)]);
    assert_eq!(mask_runs(&[true, true, false]), vec![(0, 2)]);
    assert_eq!(mask_runs(&[false, false]), vec![]);
    assert_eq!(mask_runs(&[true]), vec![(0, 1)]);
    assert_eq!(mask_runs(&[true, false, true, false, true, true]), vec![(0, 1), (2, 3), (4, 6)]);
}
