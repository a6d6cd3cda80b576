use schemgen::jobs::{expired, is_stray, links, list_order, name_order, sweep_every_ms, Lifecycle, Status};

#[test]
fn finished_means_done_failed_or_cancelled() {
    assert!(!Status::Queued.is_finished());
    assert!(!Status::Running.is_finished());
    assert!(Status::Done.is_finished());
    assert!(Status::Error.is_finished());
    assert!(Status::Cancelled.is_finished());
}

#[test]
fn links_point_under_the_job() {
    let l = links("abc");
    assert_eq!(l.download, "/api/jobs/abc/download");
    assert_eq!(l.thumbnail, "/api/jobs/abc/thumbnail.png");
    assert_eq!(l.events, "/api/jobs/abc/events");
}

#[test]
fn queued_jobs_cancel_at_once_and_never_start() {
    let mut job = Lifecycle::queued();
    assert_eq!(job.stage, "queued");
    assert_eq!(job.message, "Queued…");
    assert!(job.cancel_if_queued(42));
    assert_eq!(job.status, Status::Cancelled);
    assert_eq!(job.stage, "cancelled");
    assert_eq!(job.finished_ms, Some(42));
    assert!(!job.try_start(false));
    assert_eq!(job.status, Status::Cancelled);
    // The run that notices the cancellation keeps the first time.
    job.stopped(99);
    assert_eq!(job.finished_ms, Some(42));
}

#[test]
fn a_cancel_request_stops_a_waiting_job_from_starting() {
    let mut job = Lifecycle::queued();
    assert!(!job.try_start(true));
    assert_eq!(job.status, Status::Queued);
    assert!(job.try_start(false));
    assert_eq!(job.status, Status::Running);
    assert_eq!(job.message, "Starting…");
    // A running job is left to stop at its next checkpoint.
    assert!(!job.cancel_if_queued(5));
    assert_eq!(job.status, Status::Running);
    job.stopped(7);
    assert_eq!(job.status, Status::Cancelled);
    assert_eq!(job.finished_ms, Some(7));
}

#[test]
fn progress_is_taken_only_while_running() {
    let mut job = Lifecycle::queued();
    assert!(!job.report("voxelize", "Voxelizing…".to_string()));
    assert_eq!(job.stage, "queued");
    job.try_start(false);
    assert!(job.report("voxelize", "Voxelizing…".to_string()));
    assert_eq!(job.stage, "voxelize");
    job.succeed("Done!".to_string(), 10);
    assert_eq!(job.status, Status::Done);
    assert!(!job.report("late", "late".to_string()));
    assert_eq!(job.message, "Done!");
    assert_eq!(job.finished_ms, Some(10));
}

#[test]
fn failures_keep_their_text() {
    let mut job = Lifecycle::queued();
    job.try_start(false);
    job.fail("could not load the model: bad".to_string(), 3);
    assert_eq!(job.status, Status::Error);
    assert_eq!(job.stage, "error");
    assert_eq!(job.error.as_deref(), Some("could not load the model: bad"));
    assert_eq!(job.message, "could not load the model: bad");
}

#[test]
fn only_finished_jobs_expire() {
    assert!(expired(Status::Done, Some(5), 10));
    assert!(!expired(Status::Done, Some(10), 10));
    assert!(!expired(Status::Running, Some(5), 10));
    assert!(!expired(Status::Error, None, 10));
    assert_eq!(sweep_every_ms(24 * 3600 * 1000), 600_000);
    assert_eq!(sweep_every_ms(60_000), 30_000);
    assert_eq!(sweep_every_ms(400_000), 100_000);
}

#[test]
fn jobs_are_listed_newest_first_then_by_id() {
    let jobs = vec![
        (5i64, "b".to_string()),
        (9, "z".to_string()),
        (5, "a".to_string()),
        (1, "c".to_string()),
    ];
    assert_eq!(list_order(&jobs), vec![1, 2, 0, 3]);
    assert_eq!(list_order(&Vec::new()), Vec::<usize>::new());
}

#[test]
fn instances_sort_by_folder_name() {
    let names: Vec<String> = ["b", "a-b", "a", "C"].iter().map(|s| s.to_string()).collect();
    assert_eq!(name_order(&names), vec![3, 2, 1, 0]);
}

#[test]
fn the_sweep_deletes_old_files_no_job_owns() {
    let live = vec!["/w/uploads/a.glb".to_string(), "/w/outputs/a.litematic".to_string()];
    assert!(is_stray("/w/uploads/old.glb", true, true, &live));
    assert!(!is_stray("/w/uploads/a.glb", true, true, &live));
    assert!(!is_stray("/w/uploads/new.glb", false, true, &live));
    assert!(!is_stray("/w/uploads/dir", true, false, &live));
}
