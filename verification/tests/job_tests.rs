use file_identifier::job::{
    EarlyFinishReason, FileIdentifierJob, FileIdentifierJobData, FileIdentifierJobInit,
    FileIdentifierJobRunMetadata, FileIdentifierReport, JobError, Location, RunOutcome,
    total_task_count,
};
use file_identifier::model::{ContentRecord, PathEntry, Tables};
use file_identifier::scanner::{
    count_orphan_file_paths, first_orphan_file_path_id, get_orphan_file_paths,
    orphan_path_filters,
};
use file_identifier::engine::process_identifier_file_paths;

fn entry(id: u64, location_id: u64, path: &str, is_dir: bool, cas: Option<u64>) -> PathEntry {
    PathEntry {
        id,
        location_id,
        materialized_path: path.as_bytes().to_vec(),
        is_dir,
        content_link: None,
        cas_id: cas,
    }
}

fn tables_of(entries: Vec<PathEntry>) -> Tables {
    Tables { file_paths: entries, content_records: Vec::new() }
}

fn init_of(location_id: u64, sub: Option<&str>) -> FileIdentifierJobInit {
    FileIdentifierJobInit {
        location: Location { id: location_id, path: b"/root".to_vec() },
        sub_path: sub.map(|s| s.as_bytes().to_vec()),
    }
}

fn seven_orphans() -> Tables {
    tables_of(vec![
        entry(1, 1, "a", false, Some(100)),
        entry(2, 1, "b", false, Some(101)),
        entry(3, 1, "c", false, Some(102)),
        entry(4, 1, "d", false, Some(100)),
        entry(5, 1, "e", false, Some(103)),
        entry(6, 1, "f", false, Some(104)),
        entry(7, 1, "g", false, Some(105)),
    ])
}

#[test]
fn planner_rounds_up() {
    assert_eq!(total_task_count(0, 5), 0);
    assert_eq!(total_task_count(1, 5), 1);
    assert_eq!(total_task_count(5, 5), 1);
    assert_eq!(total_task_count(7, 5), 2);
    assert_eq!(total_task_count(10, 5), 2);
    assert_eq!(total_task_count(11, 5), 3);
    assert_eq!(total_task_count(3, 1), 3);
}

#[test]
fn filter_builder_sets_fields() {
    let f = orphan_path_filters(9, Some(4), &Some(b"a/b".to_vec()));
    assert_eq!(f.location_id, 9);
    assert_eq!(f.file_path_id, Some(4));
    assert_eq!(f.scope_child_prefix, Some(b"a/b/".to_vec()));
    let g = orphan_path_filters(9, None, &None);
    assert_eq!(g.file_path_id, None);
    assert_eq!(g.scope_child_prefix, None);
}

#[test]
fn count_sees_only_orphan_files_of_location() {
    let mut t = seven_orphans();
    t.file_paths[1].content_link = Some(0);
    t.content_records.push(ContentRecord { id: 0, cas_id: 101 });
    t.file_paths[2].is_dir = true;
    t.file_paths[3].location_id = 2;
    assert_eq!(count_orphan_file_paths(&t, 1, &None), 4);
    assert_eq!(count_orphan_file_paths(&t, 2, &None), 1);
    assert_eq!(count_orphan_file_paths(&t, 3, &None), 0);
}

#[test]
fn fetch_respects_cursor_and_limit() {
    let t = seven_orphans();
    let batch = get_orphan_file_paths(&t, 1, 3, &None, 3);
    let ids: Vec<u64> = batch.iter().map(|e| e.id).collect();
    assert_eq!(ids, vec![3, 4, 5]);
    // no id below the cursor, ascending order
    for w in ids.windows(2) {
        assert!(w[0] < w[1]);
    }
    assert!(ids.iter().all(|&id| id >= 3));
}

#[test]
fn successive_batches_partition_the_orphan_set() {
    let mut t = seven_orphans();
    let mut cursor: u64 = first_orphan_file_path_id(&t, 1, &None).unwrap();
    let mut seen: Vec<u64> = Vec::new();
    loop {
        let batch = get_orphan_file_paths(&t, 1, cursor, &None, 3);
        if batch.is_empty() {
            break;
        }
        for e in &batch {
            assert!(e.id >= cursor);
            seen.push(e.id);
        }
        let counts = process_identifier_file_paths(&mut t, &batch);
        let new_cursor = counts.3;
        assert!(new_cursor > cursor);
        cursor = new_cursor;
    }
    // no duplicates, no gaps: every orphan id exactly once
    assert_eq!(seen, vec![1, 2, 3, 4, 5, 6, 7]);
    assert_eq!(count_orphan_file_paths(&t, 1, &None), 0);
}

#[test]
fn step_counts_add_up_to_batch_size() {
    let mut t = tables_of(vec![
        entry(1, 1, "a", false, Some(7)),
        entry(2, 1, "b", false, None),
        entry(3, 1, "c", false, Some(7)),
        entry(4, 1, "d", false, Some(8)),
    ]);
    let batch = get_orphan_file_paths(&t, 1, 1, &None, 10);
    assert_eq!(batch.len(), 4);
    let (created, linked, ignored, new_cursor) = process_identifier_file_paths(&mut t, &batch);
    assert_eq!(created + linked + ignored, 4);
    assert_eq!(created, 2);
    assert_eq!(linked, 1);
    assert_eq!(ignored, 1);
    assert_eq!(new_cursor, 5);
}

#[test]
fn identical_content_converges_to_one_record() {
    // Scenario: two orphans with identical content in the same batch
    let mut t = tables_of(vec![
        entry(1, 1, "a", false, Some(42)),
        entry(2, 1, "b", false, Some(42)),
    ]);
    let batch = get_orphan_file_paths(&t, 1, 1, &None, 10);
    let (created, linked, ignored, _) = process_identifier_file_paths(&mut t, &batch);
    assert_eq!(created, 1);
    assert_eq!(linked, 1);
    assert_eq!(ignored, 0);
    assert_eq!(t.content_records.len(), 1);
    assert_eq!(t.content_records[0].cas_id, 42);
    assert_eq!(t.file_paths[0].content_link, t.file_paths[1].content_link);
    assert_eq!(t.file_paths[0].content_link, Some(0));
}

#[test]
fn identical_content_converges_across_locations() {
    let mut t = tables_of(vec![
        entry(1, 1, "a", false, Some(42)),
        entry(2, 2, "b", false, Some(42)),
    ]);
    let job = FileIdentifierJob::new();
    let r1 = job.run(&mut t, &init_of(1, None), 5);
    let r2 = job.run(&mut t, &init_of(2, None), 5);
    match (r1, r2) {
        (RunOutcome::Completed(m1), RunOutcome::Completed(m2)) => {
            assert_eq!(m1.report.total_objects_created, 1);
            assert_eq!(m2.report.total_objects_created, 0);
            assert_eq!(m2.report.total_objects_linked, 1);
        }
        _ => panic!("both runs should complete"),
    }
    assert_eq!(t.content_records.len(), 1);
    assert_eq!(t.file_paths[0].content_link, t.file_paths[1].content_link);
    // a subsequent run over the same locations finds zero orphans
    assert_eq!(count_orphan_file_paths(&t, 1, &None), 0);
    assert_eq!(count_orphan_file_paths(&t, 2, &None), 0);
    match job.run(&mut t, &init_of(1, None), 5) {
        RunOutcome::EarlyFinished(EarlyFinishReason::NoOrphanPaths, _) => {}
        _ => panic!("second run should finish early"),
    }
}

#[test]
fn zero_orphans_finishes_early_at_init() {
    // Scenario: 0 orphans
    let t = tables_of(vec![]);
    let job = FileIdentifierJob::new();
    let mut data: Option<FileIdentifierJobData> = None;
    let r = job.init(&t, &init_of(1, None), &mut data, 5);
    assert_eq!(r, Err(JobError::EarlyFinish(EarlyFinishReason::NoOrphanPaths)));
    assert_eq!(
        EarlyFinishReason::NoOrphanPaths.message(),
        "no orphan file paths to process"
    );
    let mut t2 = tables_of(vec![]);
    match job.run(&mut t2, &init_of(1, None), 5) {
        RunOutcome::EarlyFinished(EarlyFinishReason::NoOrphanPaths, meta) => {
            assert_eq!(meta.report.total_orphan_paths, 0);
            assert_eq!(meta.report.total_objects_created, 0);
            assert_eq!(meta.report.total_objects_linked, 0);
            assert_eq!(meta.report.total_objects_ignored, 0);
        }
        _ => panic!("expected early finish"),
    }
}

#[test]
fn seven_orphans_chunk_five_takes_two_steps() {
    // Scenario: 7 orphans, chunk size 5
    let mut t = seven_orphans();
    let job = FileIdentifierJob::new();
    let mut data: Option<FileIdentifierJobData> = None;
    let (mut meta, task_count) = job.init(&t, &init_of(1, None), &mut data, 5).unwrap();
    assert_eq!(task_count, 2);
    assert_eq!(meta.report.total_orphan_paths, 7);
    assert_eq!(meta.cursor, 1);
    let d = data.as_ref().unwrap();

    let s1 = job.execute_step(&mut t, &init_of(1, None), d, &meta, 5).unwrap();
    assert_eq!(
        s1.report.total_objects_created
            + s1.report.total_objects_linked
            + s1.report.total_objects_ignored,
        5
    );
    meta.update(s1);

    let s2 = job.execute_step(&mut t, &init_of(1, None), d, &meta, 5).unwrap();
    assert_eq!(
        s2.report.total_objects_created
            + s2.report.total_objects_linked
            + s2.report.total_objects_ignored,
        2
    );
    meta.update(s2);

    let final_meta = job.finalize(&meta);
    assert_eq!(final_meta.report.total_orphan_paths, 7);
    assert_eq!(final_meta.cursor, 8);
    // cas 100 occurs twice: six records, one link
    assert_eq!(final_meta.report.total_objects_created, 6);
    assert_eq!(final_meta.report.total_objects_linked, 1);
    assert_eq!(final_meta.report.total_objects_ignored, 0);
}

#[test]
fn scope_at_non_directory_fails_with_invalid_sub_path() {
    // Scenario: scope points at a non-directory path
    let t = tables_of(vec![
        entry(1, 1, "a", false, Some(1)),
        entry(2, 1, "a/b", false, Some(2)),
    ]);
    let job = FileIdentifierJob::new();
    let mut data: Option<FileIdentifierJobData> = None;
    let r = job.init(&t, &init_of(1, Some("a/b")), &mut data, 5);
    assert_eq!(r, Err(JobError::InvalidSubPath));
    assert!(data.is_none());
}

#[test]
fn scope_at_missing_path_fails_with_sub_path_not_found() {
    let t = tables_of(vec![entry(1, 1, "a", false, Some(1))]);
    let job = FileIdentifierJob::new();
    let mut data: Option<FileIdentifierJobData> = None;
    let r = job.init(&t, &init_of(1, Some("nope")), &mut data, 5);
    assert_eq!(r, Err(JobError::SubPathNotFound));
    assert!(data.is_none());
}

#[test]
fn scope_restricts_the_run_to_the_subtree() {
    let mut t = tables_of(vec![
        entry(1, 1, "a", true, None),
        entry(2, 1, "a/x", false, Some(10)),
        entry(3, 1, "a/y", false, Some(11)),
        entry(4, 1, "b", false, Some(12)),
        entry(5, 1, "ab", false, Some(13)),
    ]);
    let job = FileIdentifierJob::new();
    match job.run(&mut t, &init_of(1, Some("a")), 5) {
        RunOutcome::Completed(meta) => {
            assert_eq!(meta.report.total_orphan_paths, 2);
            assert_eq!(meta.report.total_objects_created, 2);
        }
        _ => panic!("expected completion"),
    }
    // entries outside the subtree stay orphans
    assert_eq!(t.file_paths[3].content_link, None);
    assert_eq!(t.file_paths[4].content_link, None);
    assert_eq!(count_orphan_file_paths(&t, 1, &None), 2);
}

#[test]
fn empty_sub_path_means_whole_location() {
    let mut t = tables_of(vec![entry(1, 1, "a", false, Some(1))]);
    let job = FileIdentifierJob::new();
    let init = FileIdentifierJobInit {
        location: Location { id: 1, path: b"/root".to_vec() },
        sub_path: Some(Vec::new()),
    };
    match job.run(&mut t, &init, 5) {
        RunOutcome::Completed(meta) => assert_eq!(meta.report.total_orphan_paths, 1),
        _ => panic!("expected completion"),
    }
}

#[test]
fn missing_mid_run_chunk_finishes_early_preserving_metadata() {
    // Scenario: a mid-run fetch for the expected next chunk returns zero rows
    let mut t = seven_orphans();
    let job = FileIdentifierJob::new();
    let mut data: Option<FileIdentifierJobData> = None;
    let (mut meta, task_count) = job.init(&t, &init_of(1, None), &mut data, 5).unwrap();
    assert_eq!(task_count, 2);
    let d = data.as_ref().unwrap();
    let s1 = job.execute_step(&mut t, &init_of(1, None), d, &meta, 5).unwrap();
    meta.update(s1);
    // the remaining rows vanish before the next fetch
    t.file_paths.truncate(5);
    let r = job.execute_step(&mut t, &init_of(1, None), d, &meta, 5);
    assert_eq!(
        r,
        Err(JobError::EarlyFinish(EarlyFinishReason::ExpectedRowsMissing))
    );
    // metadata of the completed step is intact
    assert_eq!(meta.report.total_orphan_paths, 7);
    assert_eq!(
        meta.report.total_objects_created + meta.report.total_objects_linked,
        5
    );
    assert_eq!(meta.cursor, 6);
}

#[test]
fn soft_failures_are_ignored_not_fatal() {
    let mut t = tables_of(vec![
        entry(1, 1, "a", false, None),
        entry(2, 1, "b", false, Some(5)),
    ]);
    let job = FileIdentifierJob::new();
    match job.run(&mut t, &init_of(1, None), 5) {
        RunOutcome::Completed(meta) => {
            assert_eq!(meta.report.total_objects_ignored, 1);
            assert_eq!(meta.report.total_objects_created, 1);
            assert_eq!(meta.report.total_objects_linked, 0);
        }
        _ => panic!("expected completion"),
    }
    // the unreadable entry stays an orphan
    assert_eq!(t.file_paths[0].content_link, None);
    assert_eq!(t.file_paths[1].content_link, Some(0));
}

#[test]
fn update_sums_counters_and_replaces_cursor() {
    let mut meta = FileIdentifierJobRunMetadata {
        report: FileIdentifierReport {
            total_orphan_paths: 7,
            total_objects_created: 2,
            total_objects_linked: 1,
            total_objects_ignored: 1,
        },
        cursor: 6,
    };
    meta.update(FileIdentifierJobRunMetadata {
        report: FileIdentifierReport {
            total_orphan_paths: 0,
            total_objects_created: 1,
            total_objects_linked: 2,
            total_objects_ignored: 0,
        },
        cursor: 9,
    });
    assert_eq!(meta.report.total_orphan_paths, 7);
    assert_eq!(meta.report.total_objects_created, 3);
    assert_eq!(meta.report.total_objects_linked, 3);
    assert_eq!(meta.report.total_objects_ignored, 1);
    assert_eq!(meta.cursor, 9);
}

#[test]
fn default_metadata_is_zeroed() {
    let meta = FileIdentifierJobRunMetadata::default();
    assert_eq!(meta.report.total_orphan_paths, 0);
    assert_eq!(meta.report.total_objects_created, 0);
    assert_eq!(meta.report.total_objects_linked, 0);
    assert_eq!(meta.report.total_objects_ignored, 0);
    assert_eq!(meta.cursor, 0);
    let report = FileIdentifierReport::default();
    assert_eq!(report.total_orphan_paths, 0);
}

#[test]
fn first_orphan_id_is_smallest_matching() {
    let t = tables_of(vec![
        entry(3, 1, "c", false, Some(1)),
        entry(5, 1, "e", false, Some(2)),
    ]);
    assert_eq!(first_orphan_file_path_id(&t, 1, &None), Some(3));
    assert_eq!(first_orphan_file_path_id(&t, 2, &None), None);
}
