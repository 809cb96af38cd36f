use pageserver_tenant::error::{FsErrorKind, TenantError};
use pageserver_tenant::id::TimelineId;
use pageserver_tenant::lineage::tree_sort_timelines;
use pageserver_tenant::lsn::Lsn;
use pageserver_tenant::metadata::TimelineMetadata;
use pageserver_tenant::storage::{ignore_absent_files, TimelinesDir};
use pageserver_tenant::tenant::TimelineUninitMark;

fn meta(ancestor: Option<u128>) -> TimelineMetadata {
    TimelineMetadata::new(Lsn(0x10), None, ancestor.map(TimelineId), Lsn(0x10), Lsn(0), Lsn(0), 14)
}

#[test]
fn tree_sort_puts_ancestors_first() {
    let input = vec![
        (TimelineId(3), meta(Some(2))),
        (TimelineId(2), meta(Some(1))),
        (TimelineId(4), meta(Some(1))),
        (TimelineId(1), meta(None)),
    ];
    let sorted = tree_sort_timelines(input).unwrap();
    let ids: Vec<u128> = sorted.iter().map(|(id, _)| id.0).collect();
    assert_eq!(ids, vec![1, 2, 4, 3]);
}

#[test]
fn tree_sort_reports_orphans() {
    let input = vec![
        (TimelineId(1), meta(None)),
        (TimelineId(2), meta(Some(9))),
        (TimelineId(3), meta(Some(2))),
    ];
    assert_eq!(
        tree_sort_timelines(input),
        Err(TenantError::OrphanTimelines {
            missing: vec![TimelineId(9), TimelineId(2)],
            orphans: vec![TimelineId(2), TimelineId(3)],
        })
    );
    let cycle = vec![(TimelineId(5), meta(Some(6))), (TimelineId(6), meta(Some(5)))];
    assert!(matches!(tree_sort_timelines(cycle), Err(TenantError::OrphanTimelines { .. })));
    assert_eq!(tree_sort_timelines(Vec::new()), Ok(Vec::new()));
}

#[test]
fn absent_files_are_ignored() {
    assert_eq!(ignore_absent_files(Err(FsErrorKind::NotFound)), Ok(()));
    assert_eq!(ignore_absent_files(Err(FsErrorKind::AlreadyExists)), Err(FsErrorKind::AlreadyExists));
    assert_eq!(ignore_absent_files(Ok(())), Ok(()));
}

#[test]
fn uninit_marks_on_disk() {
    let mut dir = TimelinesDir::new();
    let id = TimelineId(42);
    assert_eq!(dir.create_uninit_mark(id), Ok(()));
    assert_eq!(dir.create_uninit_mark(id), Err(FsErrorKind::AlreadyExists));
    TimelineUninitMark::new(id).remove_uninit_mark(&mut dir).unwrap();
    assert!(!dir.has_uninit_mark(id));
    // a mark that is already gone removes nothing
    dir.create_uninit_mark(id).unwrap();
    TimelineUninitMark::dummy().remove_uninit_mark(&mut dir).unwrap();
    assert!(dir.has_uninit_mark(id));
    // a mark stays while its timeline's directory exists
    dir.create_dir_all(id);
    TimelineUninitMark::new(id).release(&mut dir);
    assert!(dir.has_uninit_mark(id));
    assert_eq!(dir.remove_dir_all(id), Ok(()));
    assert_eq!(dir.remove_dir_all(id), Err(FsErrorKind::NotFound));
    TimelineUninitMark::new(id).release(&mut dir);
    assert!(!dir.has_uninit_mark(id));
    assert_eq!(dir.remove_uninit_mark(id), Err(FsErrorKind::NotFound));
}

#[test]
fn restart_cleanup_removes_marked_timelines() {
    let mut dir = TimelinesDir::new();
    dir.create_dir_all(TimelineId(1));
    dir.write_metadata(TimelineId(1), meta(None).to_bytes()).unwrap();
    dir.create_dir_all(TimelineId(2));
    dir.create_uninit_mark(TimelineId(2)).unwrap();
    dir.create_uninit_mark(TimelineId(3)).unwrap();
    dir.remove_uninit_timelines();
    assert_eq!(dir.timeline_dir_ids(), vec![TimelineId(1)]);
    assert!(dir.uninit_mark_ids().is_empty());
    let loaded = dir.load_timelines_metadata().unwrap();
    assert_eq!(loaded, vec![(TimelineId(1), meta(None))]);

    dir.create_dir_all(TimelineId(4));
    assert_eq!(
        dir.load_timelines_metadata(),
        Err(TenantError::Io { timeline_id: TimelineId(4), kind: FsErrorKind::NotFound })
    );
    assert_eq!(dir.write_metadata(TimelineId(8), Vec::new()), Err(FsErrorKind::NotFound));
}

