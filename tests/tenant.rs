use pageserver_tenant::config::{TenantConf, TenantConfOpt};
use pageserver_tenant::error::{InvalidLsnReason, TenantError};
use pageserver_tenant::id::{TenantId, TimelineId};
use pageserver_tenant::key::Key;
use pageserver_tenant::lsn::Lsn;
use pageserver_tenant::state::{TenantState, TimelineState};
use pageserver_tenant::storage::TimelinesDir;
use pageserver_tenant::tenant::Tenant;

const TIMELINE_ID: TimelineId = TimelineId(0x11223344556677881122334455667788);
const NEW_TIMELINE_ID: TimelineId = TimelineId(0xAA223344556677881122334455667788);
const DEFAULT_PG_VERSION: u32 = 14;

fn dummy_conf() -> TenantConf {
    TenantConf {
        checkpoint_distance: 256 * 1024 * 1024,
        checkpoint_timeout: 600_000,
        compaction_target_size: 128 * 1024 * 1024,
        compaction_period: 20_000,
        compaction_threshold: 10,
        gc_horizon: 64 * 1024 * 1024,
        gc_period: 100_000,
        image_creation_threshold: 3,
        pitr_interval: 0,
        walreceiver_connect_timeout: 2_000,
        lagging_wal_timeout: 3_000,
        max_lsn_wal_lag: 1024 * 1024 * 1024,
    }
}

fn try_load(dir: TimelinesDir) -> Result<Tenant, TenantError> {
    let conf = dummy_conf();
    let mut tenant = Tenant::load(conf, TenantConfOpt::from_conf(&conf), TenantId(7), dir)?;
    tenant.set_state(TenantState::Active { background_jobs_running: false });
    Ok(tenant)
}

fn load(dir: TimelinesDir) -> Tenant {
    try_load(dir).expect("failed to load test tenant")
}

fn new_tenant() -> Tenant {
    load(TimelinesDir::new())
}

#[allow(non_snake_case)]
fn TEST_IMG(s: &str) -> Vec<u8> {
    let mut buf = s.as_bytes().to_vec();
    buf.resize(64, 0);
    buf
}

fn test_value(s: &str) -> Vec<u8> {
    s.as_bytes().to_vec()
}

fn key_from_hex(h: &str) -> Key {
    let mut b = [0u8; 18];
    for (i, byte) in b.iter_mut().enumerate() {
        *byte = u8::from_str_radix(&h[2 * i..2 * i + 2], 16).unwrap();
    }
    Key::from_array(b)
}

fn test_key() -> Key {
    key_from_hex("112222222233333333444444445500000001")
}

/// The textual form of an LSN: high and low 32 bits in hex.
fn lsn_str(l: Lsn) -> String {
    format!("{:X}/{:X}", l.0 >> 32, l.0 & 0xffff_ffff)
}

fn create_root(tenant: &mut Tenant, id: TimelineId, initdb_lsn: Lsn) {
    let u = tenant.create_empty_timeline(id, initdb_lsn, DEFAULT_PG_VERSION).unwrap();
    u.initialize(tenant).unwrap();
}

fn write(tenant: &mut Tenant, id: TimelineId, key: Key, lsn: Lsn, value: Vec<u8>) {
    tenant.put(id, key, lsn, value).unwrap();
    tenant.finish_write(id, lsn).unwrap();
}

fn make_some_layers(tenant: &mut Tenant, id: TimelineId, start_lsn: Lsn) {
    let mut lsn = start_lsn;
    for _ in 0..2 {
        for _ in 0..2 {
            write(tenant, id, test_key(), lsn, TEST_IMG(&format!("foo at {}", lsn_str(lsn))));
            lsn = Lsn(lsn.0 + 0x10);
        }
        tenant.checkpoint_timeline(id).unwrap();
    }
}

/// A small deterministic generator for the randomized tests.
struct XorShift(u64);

impl XorShift {
    fn below(&mut self, n: usize) -> usize {
        self.0 ^= self.0 << 13;
        self.0 ^= self.0 >> 7;
        self.0 ^= self.0 << 17;
        (self.0 % n as u64) as usize
    }
}

#[test]
fn test_basic() {
    let mut tenant = new_tenant();
    create_root(&mut tenant, TIMELINE_ID, Lsn(0));
    write(&mut tenant, TIMELINE_ID, test_key(), Lsn(0x10), TEST_IMG("foo at 0x10"));
    write(&mut tenant, TIMELINE_ID, test_key(), Lsn(0x20), TEST_IMG("foo at 0x20"));

    assert_eq!(tenant.get(TIMELINE_ID, test_key(), Lsn(0x10)).unwrap(), TEST_IMG("foo at 0x10"));
    assert_eq!(tenant.get(TIMELINE_ID, test_key(), Lsn(0x1f)).unwrap(), TEST_IMG("foo at 0x10"));
    assert_eq!(tenant.get(TIMELINE_ID, test_key(), Lsn(0x20)).unwrap(), TEST_IMG("foo at 0x20"));
}

#[test]
fn no_duplicate_timelines() {
    let mut tenant = new_tenant();
    create_root(&mut tenant, TIMELINE_ID, Lsn(0));
    let marks_before = tenant.dir().uninit_mark_ids();
    let dirs_before = tenant.dir().timeline_dir_ids();

    match tenant.create_empty_timeline(TIMELINE_ID, Lsn(0), DEFAULT_PG_VERSION) {
        Ok(_) => panic!("duplicate timeline creation should fail"),
        Err(e) => assert_eq!(e, TenantError::TimelineAlreadyExists { timeline_id: TIMELINE_ID }),
    }
    assert_eq!(tenant.dir().uninit_mark_ids(), marks_before);
    assert_eq!(tenant.dir().timeline_dir_ids(), dirs_before);
}

#[test]
fn test_branch() {
    let mut tenant = new_tenant();
    create_root(&mut tenant, TIMELINE_ID, Lsn(0));
    let key_a = key_from_hex("112222222233333333444444445500000001");
    let key_b = key_from_hex("112222222233333333444444445500000002");

    tenant.put(TIMELINE_ID, key_a, Lsn(0x20), test_value("foo at 0x20")).unwrap();
    tenant.put(TIMELINE_ID, key_b, Lsn(0x20), test_value("foobar at 0x20")).unwrap();
    tenant.finish_write(TIMELINE_ID, Lsn(0x20)).unwrap();
    write(&mut tenant, TIMELINE_ID, key_a, Lsn(0x30), test_value("foo at 0x30"));
    write(&mut tenant, TIMELINE_ID, key_a, Lsn(0x40), test_value("foo at 0x40"));

    tenant.branch_timeline(TIMELINE_ID, NEW_TIMELINE_ID, Some(Lsn(0x30))).unwrap();
    tenant.get_timeline(NEW_TIMELINE_ID, true).expect("Should have a local timeline");
    write(&mut tenant, NEW_TIMELINE_ID, key_a, Lsn(0x40), test_value("bar at 0x40"));

    let read = |t: &Tenant, id, k| String::from_utf8(t.get(id, k, Lsn(0x40)).unwrap()).unwrap();
    assert_eq!(read(&tenant, TIMELINE_ID, key_a), "foo at 0x40");
    assert_eq!(read(&tenant, NEW_TIMELINE_ID, key_a), "bar at 0x40");
    assert_eq!(read(&tenant, NEW_TIMELINE_ID, key_b), "foobar at 0x20");
}

#[test]
fn test_prohibit_branch_creation_on_garbage_collected_data() {
    let mut tenant = new_tenant();
    create_root(&mut tenant, TIMELINE_ID, Lsn(0));
    make_some_layers(&mut tenant, TIMELINE_ID, Lsn(0x20));

    tenant.gc_iteration(Some(TIMELINE_ID), 0x10, 0, false).unwrap();

    match tenant.branch_timeline(TIMELINE_ID, NEW_TIMELINE_ID, Some(Lsn(0x25))) {
        Ok(_) => panic!("branching should have failed"),
        Err(err) => assert_eq!(
            err,
            TenantError::InvalidStartLsn {
                reason: InvalidLsnReason::AlreadyGced,
                lsn: Lsn(0x25),
                cutoff: Lsn(0x40),
            }
        ),
    }
    assert!(!tenant.dir().has_timeline_dir(NEW_TIMELINE_ID));
    assert!(!tenant.dir().has_uninit_mark(NEW_TIMELINE_ID));
}

#[test]
fn test_prohibit_branch_creation_on_pre_initdb_lsn() {
    let mut tenant = new_tenant();
    create_root(&mut tenant, TIMELINE_ID, Lsn(0x50));
    match tenant.branch_timeline(TIMELINE_ID, NEW_TIMELINE_ID, Some(Lsn(0x25))) {
        Ok(_) => panic!("branching should have failed"),
        Err(err) => assert_eq!(
            err,
            TenantError::InvalidStartLsn {
                reason: InvalidLsnReason::AlreadyGced,
                lsn: Lsn(0x25),
                cutoff: Lsn(0x50),
            }
        ),
    }
}

#[test]
fn test_retain_data_in_parent_which_is_needed_for_child() {
    let mut tenant = new_tenant();
    create_root(&mut tenant, TIMELINE_ID, Lsn(0));
    make_some_layers(&mut tenant, TIMELINE_ID, Lsn(0x20));

    tenant.branch_timeline(TIMELINE_ID, NEW_TIMELINE_ID, Some(Lsn(0x40))).unwrap();
    tenant.get_timeline(NEW_TIMELINE_ID, true).expect("Should have a local timeline");
    tenant.gc_iteration(Some(TIMELINE_ID), 0x10, 0, false).unwrap();
    assert!(tenant.get(NEW_TIMELINE_ID, test_key(), Lsn(0x25)).is_ok());
}

#[test]
fn test_parent_keeps_data_forever_after_branching() {
    let mut tenant = new_tenant();
    create_root(&mut tenant, TIMELINE_ID, Lsn(0));
    make_some_layers(&mut tenant, TIMELINE_ID, Lsn(0x20));

    tenant.branch_timeline(TIMELINE_ID, NEW_TIMELINE_ID, Some(Lsn(0x40))).unwrap();
    tenant.get_timeline(NEW_TIMELINE_ID, true).expect("Should have a local timeline");
    make_some_layers(&mut tenant, NEW_TIMELINE_ID, Lsn(0x60));

    tenant.gc_iteration(Some(TIMELINE_ID), 0x10, 0, false).unwrap();

    assert_eq!(
        tenant.get(NEW_TIMELINE_ID, test_key(), Lsn(0x50)).unwrap(),
        TEST_IMG(&format!("foo at {}", lsn_str(Lsn(0x40))))
    );
}

#[test]
fn timeline_load() {
    let dir = {
        let mut tenant = new_tenant();
        create_root(&mut tenant, TIMELINE_ID, Lsn(0x8000));
        make_some_layers(&mut tenant, TIMELINE_ID, Lsn(0x8000));
        tenant.checkpoint_timeline(TIMELINE_ID).unwrap();
        tenant.into_dir()
    };
    let tenant = load(dir);
    tenant.get_timeline(TIMELINE_ID, true).expect("cannot load timeline");
    assert_eq!(tenant.get_timeline(TIMELINE_ID, true).unwrap().get_disk_consistent_lsn(), Lsn(0x8030));
}

#[test]
fn timeline_load_with_ancestor() {
    let dir = {
        let mut tenant = new_tenant();
        create_root(&mut tenant, TIMELINE_ID, Lsn(0));
        make_some_layers(&mut tenant, TIMELINE_ID, Lsn(0x20));
        tenant.checkpoint_timeline(TIMELINE_ID).unwrap();
        tenant.branch_timeline(TIMELINE_ID, NEW_TIMELINE_ID, Some(Lsn(0x40))).unwrap();
        tenant.get_timeline(NEW_TIMELINE_ID, true).expect("Should have a local timeline");
        make_some_layers(&mut tenant, NEW_TIMELINE_ID, Lsn(0x60));
        tenant.checkpoint_timeline(TIMELINE_ID).unwrap();
        tenant.into_dir()
    };
    let tenant = load(dir);
    tenant.get_timeline(NEW_TIMELINE_ID, true).expect("cannot get child timeline loaded");
    tenant.get_timeline(TIMELINE_ID, true).expect("cannot get ancestor timeline loaded");
    assert_eq!(tenant.list_timelines(), vec![TIMELINE_ID, NEW_TIMELINE_ID]);
}

#[test]
fn corrupt_metadata() {
    let mut tenant = new_tenant();
    create_root(&mut tenant, TIMELINE_ID, Lsn(0));
    let mut dir = tenant.into_dir();

    let mut metadata_bytes = dir.read_metadata(TIMELINE_ID).unwrap();
    assert_eq!(metadata_bytes.len(), 512);
    metadata_bytes[8] ^= 1;
    dir.write_metadata(TIMELINE_ID, metadata_bytes).unwrap();

    let err = try_load(dir).err().expect("should fail");
    assert_eq!(err, TenantError::MetadataChecksumMismatch, "didn't find the corrupted metadata error");
}

#[test]
fn test_images() {
    let mut tenant = new_tenant();
    create_root(&mut tenant, TIMELINE_ID, Lsn(0));
    for (lsn, text) in [(0x10, "foo at 0x10"), (0x20, "foo at 0x20"), (0x30, "foo at 0x30"), (0x40, "foo at 0x40")] {
        write(&mut tenant, TIMELINE_ID, test_key(), Lsn(lsn), TEST_IMG(text));
        tenant.checkpoint_timeline(TIMELINE_ID).unwrap();
        tenant.compaction_iteration().unwrap();
    }
    assert_eq!(tenant.get(TIMELINE_ID, test_key(), Lsn(0x10)).unwrap(), TEST_IMG("foo at 0x10"));
    assert_eq!(tenant.get(TIMELINE_ID, test_key(), Lsn(0x1f)).unwrap(), TEST_IMG("foo at 0x10"));
    assert_eq!(tenant.get(TIMELINE_ID, test_key(), Lsn(0x20)).unwrap(), TEST_IMG("foo at 0x20"));
    assert_eq!(tenant.get(TIMELINE_ID, test_key(), Lsn(0x30)).unwrap(), TEST_IMG("foo at 0x30"));
    assert_eq!(tenant.get(TIMELINE_ID, test_key(), Lsn(0x40)).unwrap(), TEST_IMG("foo at 0x40"));
}

#[test]
fn test_bulk_insert() {
    let mut tenant = new_tenant();
    create_root(&mut tenant, TIMELINE_ID, Lsn(0));
    let mut lsn = Lsn(0x10);
    let mut test_key = key_from_hex("012222222233333333444444445500000000");
    let mut blknum: u32 = 0;
    for _ in 0..50 {
        for _ in 0..10000 {
            test_key.field6 = blknum;
            write(&mut tenant, TIMELINE_ID, test_key, lsn, TEST_IMG(&format!("{} at {}", blknum, lsn_str(lsn))));
            lsn = Lsn(lsn.0 + 0x10);
            blknum += 1;
        }
        tenant.gc_iteration(Some(TIMELINE_ID), 0, 0, false).unwrap();
        tenant.checkpoint_timeline(TIMELINE_ID).unwrap();
        tenant.compaction_iteration().unwrap();
    }
}

#[test]
fn test_random_updates() {
    const NUM_KEYS: usize = 1000;
    let mut tenant = new_tenant();
    create_root(&mut tenant, TIMELINE_ID, Lsn(0));
    let mut test_key = key_from_hex("012222222233333333444444445500000000");
    let mut rng = XorShift(0x9e37_79b9_7f4a_7c15);
    let mut updated = [Lsn(0); NUM_KEYS];

    let mut lsn = Lsn(0);
    for (blknum, slot) in updated.iter_mut().enumerate() {
        lsn = Lsn(lsn.0 + 0x10);
        test_key.field6 = blknum as u32;
        write(&mut tenant, TIMELINE_ID, test_key, lsn, TEST_IMG(&format!("{} at {}", blknum, lsn_str(lsn))));
        *slot = lsn;
    }

    for _ in 0..50 {
        for _ in 0..NUM_KEYS {
            lsn = Lsn(lsn.0 + 0x10);
            let blknum = rng.below(NUM_KEYS);
            test_key.field6 = blknum as u32;
            write(&mut tenant, TIMELINE_ID, test_key, lsn, TEST_IMG(&format!("{} at {}", blknum, lsn_str(lsn))));
            updated[blknum] = lsn;
        }
        for (blknum, last_lsn) in updated.iter().enumerate() {
            test_key.field6 = blknum as u32;
            assert_eq!(
                tenant.get(TIMELINE_ID, test_key, lsn).unwrap(),
                TEST_IMG(&format!("{} at {}", blknum, lsn_str(*last_lsn)))
            );
        }
        tenant.gc_iteration(Some(TIMELINE_ID), 0, 0, false).unwrap();
        tenant.checkpoint_timeline(TIMELINE_ID).unwrap();
        tenant.compaction_iteration().unwrap();
    }
}

#[test]
fn test_traverse_branches() {
    const NUM_KEYS: usize = 1000;
    let mut tenant = new_tenant();
    create_root(&mut tenant, TIMELINE_ID, Lsn(0));
    let mut test_key = key_from_hex("012222222233333333444444445500000000");
    let mut rng = XorShift(0x2545_f491_4f6c_dd1d);
    let mut updated = [Lsn(0); NUM_KEYS];

    let mut lsn = Lsn(0);
    for (blknum, slot) in updated.iter_mut().enumerate() {
        lsn = Lsn(lsn.0 + 0x10);
        test_key.field6 = blknum as u32;
        write(&mut tenant, TIMELINE_ID, test_key, lsn, TEST_IMG(&format!("{} at {}", blknum, lsn_str(lsn))));
        *slot = lsn;
    }

    let mut tline_id = TIMELINE_ID;
    for round in 0..50u128 {
        let new_tline_id = TimelineId(0x1000 + round);
        tenant.branch_timeline(tline_id, new_tline_id, Some(lsn)).unwrap();
        tenant.get_timeline(new_tline_id, true).expect("Should have the branched timeline");
        tline_id = new_tline_id;

        for _ in 0..NUM_KEYS {
            lsn = Lsn(lsn.0 + 0x10);
            let blknum = rng.below(NUM_KEYS);
            test_key.field6 = blknum as u32;
            write(&mut tenant, tline_id, test_key, lsn, TEST_IMG(&format!("{} at {}", blknum, lsn_str(lsn))));
            updated[blknum] = lsn;
        }
        for (blknum, last_lsn) in updated.iter().enumerate() {
            test_key.field6 = blknum as u32;
            assert_eq!(
                tenant.get(tline_id, test_key, lsn).unwrap(),
                TEST_IMG(&format!("{} at {}", blknum, lsn_str(*last_lsn)))
            );
        }
        tenant.gc_iteration(Some(tline_id), 0, 0, false).unwrap();
        tenant.checkpoint_timeline(tline_id).unwrap();
        tenant.compaction_iteration().unwrap();
    }
}

#[test]
fn test_traverse_ancestors() {
    const NUM_KEYS: usize = 100;
    const NUM_TLINES: usize = 50;
    let mut tenant = new_tenant();
    create_root(&mut tenant, TIMELINE_ID, Lsn(0));
    let mut test_key = key_from_hex("012222222233333333444444445500000000");
    let mut rng = XorShift(0x5851_f42d_4c95_7f2d);
    let mut updated = [[Lsn(0); NUM_KEYS]; NUM_TLINES];

    let mut lsn = Lsn(0);
    let mut tline_id = TIMELINE_ID;
    for (idx, row) in updated.iter_mut().enumerate() {
        let new_tline_id = TimelineId(0x2000 + idx as u128);
        tenant.branch_timeline(tline_id, new_tline_id, Some(lsn)).unwrap();
        tenant.get_timeline(new_tline_id, true).expect("Should have the branched timeline");
        tline_id = new_tline_id;
        for _ in 0..NUM_KEYS {
            lsn = Lsn(lsn.0 + 0x10);
            let blknum = rng.below(NUM_KEYS);
            test_key.field6 = blknum as u32;
            write(&mut tenant, tline_id, test_key, lsn, TEST_IMG(&format!("{} {} at {}", idx, blknum, lsn_str(lsn))));
            row[blknum] = lsn;
        }
    }

    for (idx, lsns) in updated.iter().enumerate() {
        for (blknum, lsn) in lsns.iter().enumerate() {
            if lsn.0 == 0 {
                continue;
            }
            test_key.field6 = blknum as u32;
            assert_eq!(
                tenant.get(tline_id, test_key, *lsn).unwrap(),
                TEST_IMG(&format!("{idx} {blknum} at {}", lsn_str(*lsn)))
            );
        }
    }
}

#[test]
fn branching_before_ancestor_lsn_is_refused() {
    let mut tenant = new_tenant();
    create_root(&mut tenant, TIMELINE_ID, Lsn(0));
    make_some_layers(&mut tenant, TIMELINE_ID, Lsn(0x20));
    tenant.branch_timeline(TIMELINE_ID, NEW_TIMELINE_ID, Some(Lsn(0x40))).unwrap();
    let err = tenant.branch_timeline(NEW_TIMELINE_ID, TimelineId(3), Some(Lsn(0x30))).unwrap_err();
    assert_eq!(
        err,
        TenantError::InvalidStartLsn {
            reason: InvalidLsnReason::BeforeAncestorLsn,
            lsn: Lsn(0x30),
            cutoff: Lsn(0x40),
        }
    );
}

#[test]
fn branching_below_planned_cutoff_is_refused() {
    let mut tenant = new_tenant();
    create_root(&mut tenant, TIMELINE_ID, Lsn(0));
    make_some_layers(&mut tenant, TIMELINE_ID, Lsn(0x20));
    tenant.branch_timeline(TIMELINE_ID, NEW_TIMELINE_ID, Some(Lsn(0x30))).unwrap();
    tenant.gc_iteration(Some(TIMELINE_ID), 0, 0, false).unwrap();
    // the child's branch point holds the cutoff back; the plan is at the last record
    assert_eq!(tenant.get_timeline(TIMELINE_ID, false).unwrap().get_latest_gc_cutoff_lsn(), Lsn(0x30));
    let err = tenant.branch_timeline(TIMELINE_ID, TimelineId(3), Some(Lsn(0x40))).unwrap_err();
    assert_eq!(
        err,
        TenantError::InvalidStartLsn {
            reason: InvalidLsnReason::WouldBeGced,
            lsn: Lsn(0x40),
            cutoff: Lsn(0x50),
        }
    );
}

#[test]
fn branch_at_last_record_carries_prev_lsn() {
    let mut tenant = new_tenant();
    create_root(&mut tenant, TIMELINE_ID, Lsn(0));
    make_some_layers(&mut tenant, TIMELINE_ID, Lsn(0x20));
    tenant.branch_timeline(TIMELINE_ID, NEW_TIMELINE_ID, None).unwrap();
    let child = tenant.get_timeline(NEW_TIMELINE_ID, true).unwrap();
    assert_eq!(child.get_ancestor_lsn(), Lsn(0x50));
    assert_eq!(child.get_last_record_rlsn(), (Lsn(0x50), Lsn(0x40)));
    assert_eq!(child.get_ancestor_timeline_id(), Some(TIMELINE_ID));
}

#[test]
fn branch_from_missing_source_leaves_no_files() {
    let mut tenant = new_tenant();
    let err = tenant.branch_timeline(TIMELINE_ID, NEW_TIMELINE_ID, None).unwrap_err();
    assert_eq!(err, TenantError::TimelineNotFound { timeline_id: TIMELINE_ID });
    assert!(tenant.dir().uninit_mark_ids().is_empty());
    assert!(tenant.dir().timeline_dir_ids().is_empty());
}

#[test]
fn gc_does_not_pass_branch_points() {
    let mut tenant = new_tenant();
    create_root(&mut tenant, TIMELINE_ID, Lsn(0));
    make_some_layers(&mut tenant, TIMELINE_ID, Lsn(0x20));
    tenant.branch_timeline(TIMELINE_ID, NEW_TIMELINE_ID, Some(Lsn(0x30))).unwrap();
    let before = tenant.get(NEW_TIMELINE_ID, test_key(), Lsn(0x30)).unwrap();
    let totals = tenant.gc_iteration(None, 0, 0, true).unwrap();
    assert_eq!(totals.versions_removed, 0);
    assert_eq!(tenant.get_timeline(TIMELINE_ID, false).unwrap().get_latest_gc_cutoff_lsn(), Lsn(0x30));
    assert_eq!(tenant.get(TIMELINE_ID, test_key(), Lsn(0x30)).unwrap(), before);
    assert_eq!(before, TEST_IMG(&format!("foo at {}", lsn_str(Lsn(0x30)))));
}

#[test]
fn gc_with_pitr_window_keeps_history() {
    let mut tenant = new_tenant();
    create_root(&mut tenant, TIMELINE_ID, Lsn(0));
    make_some_layers(&mut tenant, TIMELINE_ID, Lsn(0x20));
    tenant.gc_iteration(Some(TIMELINE_ID), 0x10, 60_000, false).unwrap();
    assert_eq!(tenant.get_timeline(TIMELINE_ID, false).unwrap().get_latest_gc_cutoff_lsn(), Lsn(0));
}

#[test]
fn gc_of_missing_target_fails() {
    let mut tenant = new_tenant();
    assert_eq!(
        tenant.gc_iteration(Some(TIMELINE_ID), 0, 0, false).unwrap_err(),
        TenantError::TimelineNotFound { timeline_id: TIMELINE_ID }
    );
}

#[test]
fn operations_on_inactive_tenant_fail() {
    let conf = dummy_conf();
    let mut tenant = Tenant::new(conf, TenantConfOpt::empty(), TenantId(1), TimelinesDir::new());
    assert_eq!(tenant.current_state(), TenantState::Paused);
    assert_eq!(tenant.compaction_iteration().unwrap_err(), TenantError::TenantInactive);
    assert_eq!(tenant.checkpoint(), Err(TenantError::TenantInactive));
    assert_eq!(
        tenant.create_empty_timeline(TIMELINE_ID, Lsn(0), DEFAULT_PG_VERSION).err(),
        Some(TenantError::TenantInactive)
    );
    tenant.set_state(TenantState::Broken);
    assert_eq!(tenant.gc_iteration(None, 0, 0, false).unwrap_err(), TenantError::TenantBroken);
}

#[test]
fn broken_tenant_stays_broken() {
    let mut tenant = new_tenant();
    create_root(&mut tenant, TIMELINE_ID, Lsn(0));
    assert!(tenant.set_state(TenantState::Broken));
    assert_eq!(tenant.get_timeline(TIMELINE_ID, false).unwrap().current_state(), TimelineState::Suspended);
    assert!(!tenant.activate(true));
    assert!(!tenant.set_state(TenantState::Paused));
    assert_eq!(tenant.current_state(), TenantState::Broken);
    assert!(!tenant.is_active());
}

#[test]
fn state_changes_reach_timelines() {
    let mut tenant = new_tenant();
    create_root(&mut tenant, TIMELINE_ID, Lsn(0));
    assert!(!tenant.set_state(TenantState::Active { background_jobs_running: false }));
    assert!(tenant.set_state(TenantState::Paused));
    assert_eq!(tenant.get_timeline(TIMELINE_ID, false).unwrap().current_state(), TimelineState::Suspended);
    assert_eq!(
        tenant.get_timeline(TIMELINE_ID, true).err(),
        Some(TenantError::TimelineNotActive { timeline_id: TIMELINE_ID, state: TimelineState::Suspended })
    );
    assert!(tenant.activate(true));
    assert!(tenant.should_run_tasks());
    assert!(tenant.get_timeline(TIMELINE_ID, true).unwrap().is_active());
}

#[test]
fn delete_refuses_parent_of_children() {
    let mut tenant = new_tenant();
    create_root(&mut tenant, TIMELINE_ID, Lsn(0));
    make_some_layers(&mut tenant, TIMELINE_ID, Lsn(0x20));
    tenant.branch_timeline(TIMELINE_ID, NEW_TIMELINE_ID, Some(Lsn(0x40))).unwrap();
    let dirs = tenant.dir().timeline_dir_ids();
    assert_eq!(
        tenant.delete_timeline(TIMELINE_ID).unwrap_err(),
        TenantError::HasChildren { timeline_id: TIMELINE_ID }
    );
    assert_eq!(tenant.dir().timeline_dir_ids(), dirs);
    assert_eq!(tenant.list_timelines(), vec![TIMELINE_ID, NEW_TIMELINE_ID]);

    tenant.delete_timeline(NEW_TIMELINE_ID).unwrap();
    assert!(!tenant.dir().has_timeline_dir(NEW_TIMELINE_ID));
    assert_eq!(
        tenant.delete_timeline(NEW_TIMELINE_ID).unwrap_err(),
        TenantError::TimelineNotFound { timeline_id: NEW_TIMELINE_ID }
    );
    tenant.delete_timeline(TIMELINE_ID).unwrap();
    assert!(tenant.list_timelines().is_empty());
}

#[test]
fn crash_during_creation_is_cleaned_up_on_restart() {
    let mut tenant = new_tenant();
    create_root(&mut tenant, TIMELINE_ID, Lsn(0));
    // creation of a second timeline stops before its commit
    let uninit = tenant.create_empty_timeline(NEW_TIMELINE_ID, Lsn(0), DEFAULT_PG_VERSION).unwrap();
    assert!(uninit.raw_timeline().is_ok());
    assert!(tenant.dir().has_uninit_mark(NEW_TIMELINE_ID));
    assert!(tenant.dir().has_timeline_dir(NEW_TIMELINE_ID));
    drop(uninit);

    let tenant = load(tenant.into_dir());
    assert_eq!(tenant.list_timelines(), vec![TIMELINE_ID]);
    assert!(tenant.dir().uninit_mark_ids().is_empty());
    assert!(!tenant.dir().has_timeline_dir(NEW_TIMELINE_ID));
}

#[test]
fn abandoned_creation_removes_its_files() {
    let mut tenant = new_tenant();
    let uninit = tenant.create_empty_timeline(NEW_TIMELINE_ID, Lsn(0), DEFAULT_PG_VERSION).unwrap();
    uninit.abandon(&mut tenant);
    assert!(tenant.dir().uninit_mark_ids().is_empty());
    assert!(tenant.dir().timeline_dir_ids().is_empty());
    // the id can be used again
    create_root(&mut tenant, NEW_TIMELINE_ID, Lsn(0));
}

#[test]
fn create_timeline_bootstraps_and_branches() {
    let mut tenant = new_tenant();
    assert_eq!(tenant.create_timeline(TIMELINE_ID, None, None, DEFAULT_PG_VERSION, Lsn(0x1001)), Ok(Some(TIMELINE_ID)));
    let root = tenant.get_timeline(TIMELINE_ID, true).unwrap();
    assert_eq!(root.get_last_record_lsn(), Lsn(0x1008));
    assert_eq!(root.get_disk_consistent_lsn(), Lsn(0x1008));
    assert_eq!(root.get_latest_gc_cutoff_lsn(), Lsn(0x1008));
    assert!(tenant.should_run_tasks());

    assert_eq!(tenant.create_timeline(TIMELINE_ID, None, None, DEFAULT_PG_VERSION, Lsn(0)), Ok(None));
    write(&mut tenant, TIMELINE_ID, test_key(), Lsn(0x2000), TEST_IMG("x"));
    assert_eq!(
        tenant.create_timeline(NEW_TIMELINE_ID, Some(TIMELINE_ID), Some(Lsn(0x1ffa)), DEFAULT_PG_VERSION, Lsn(0)),
        Ok(Some(NEW_TIMELINE_ID))
    );
    assert_eq!(tenant.get_timeline(NEW_TIMELINE_ID, true).unwrap().get_ancestor_lsn(), Lsn(0x2000));
    assert_eq!(
        tenant.create_timeline(TimelineId(5), Some(TimelineId(6)), None, DEFAULT_PG_VERSION, Lsn(0)),
        Err(TenantError::TimelineNotFound { timeline_id: TimelineId(6) })
    );
}

#[test]
fn writes_must_move_forward() {
    let mut tenant = new_tenant();
    create_root(&mut tenant, TIMELINE_ID, Lsn(0));
    write(&mut tenant, TIMELINE_ID, test_key(), Lsn(0x10), TEST_IMG("a"));
    assert_eq!(
        tenant.put(TIMELINE_ID, test_key(), Lsn(0x10), TEST_IMG("b")),
        Err(TenantError::InvalidWriteLsn { lsn: Lsn(0x10), last_record_lsn: Lsn(0x10) })
    );
    assert_eq!(
        tenant.get(TIMELINE_ID, test_key(), Lsn(0x8)),
        Err(TenantError::KeyNotFound { key: test_key(), lsn: Lsn(0x8) })
    );
    assert_eq!(
        tenant.get(NEW_TIMELINE_ID, test_key(), Lsn(0x8)),
        Err(TenantError::TimelineNotFound { timeline_id: NEW_TIMELINE_ID })
    );
}

#[test]
fn checkpoint_persists_metadata() {
    let mut tenant = new_tenant();
    create_root(&mut tenant, TIMELINE_ID, Lsn(0));
    write(&mut tenant, TIMELINE_ID, test_key(), Lsn(0x10), TEST_IMG("a"));
    tenant.checkpoint().unwrap();
    let bytes = tenant.dir().read_metadata(TIMELINE_ID).unwrap();
    let m = pageserver_tenant::metadata::TimelineMetadata::from_bytes(&bytes).unwrap();
    assert_eq!(m.disk_consistent_lsn, Lsn(0x10));
    assert_eq!(m.prev_record_lsn, None);
    assert_eq!(m.pg_version, DEFAULT_PG_VERSION);
}

#[test]
fn compaction_lists_active_timelines() {
    let mut tenant = new_tenant();
    create_root(&mut tenant, TIMELINE_ID, Lsn(0));
    create_root(&mut tenant, NEW_TIMELINE_ID, Lsn(0));
    assert_eq!(tenant.compaction_iteration().unwrap(), vec![TIMELINE_ID, NEW_TIMELINE_ID]);
}

#[test]
fn config_overrides_fall_back_to_defaults() {
    let conf = dummy_conf();
    let mut tenant = Tenant::new(conf, TenantConfOpt::empty(), TenantId(1), TimelinesDir::new());
    assert_eq!(tenant.get_gc_horizon(), 64 * 1024 * 1024);
    let mut over = TenantConfOpt::empty();
    over.gc_horizon = Some(5);
    over.pitr_interval = Some(1000);
    over.compaction_threshold = Some(2);
    tenant.update_tenant_config(&over);
    assert_eq!(tenant.get_gc_horizon(), 5);
    assert_eq!(tenant.get_pitr_interval(), 1000);
    assert_eq!(tenant.get_compaction_threshold(), 2);
    assert_eq!(tenant.get_checkpoint_distance(), 256 * 1024 * 1024);
    assert_eq!(tenant.get_checkpoint_timeout(), 600_000);
    assert_eq!(tenant.get_compaction_target_size(), 128 * 1024 * 1024);
    assert_eq!(tenant.get_compaction_period(), 20_000);
    assert_eq!(tenant.get_gc_period(), 100_000);
    assert_eq!(tenant.get_image_creation_threshold(), 3);
    assert_eq!(tenant.tenant_id(), TenantId(1));
}

#[test]
fn gc_branch_points_are_ascending_without_repeats() {
    let mut tenant = new_tenant();
    create_root(&mut tenant, TIMELINE_ID, Lsn(0));
    make_some_layers(&mut tenant, TIMELINE_ID, Lsn(0x20));
    tenant.branch_timeline(TIMELINE_ID, TimelineId(10), Some(Lsn(0x40))).unwrap();
    tenant.branch_timeline(TIMELINE_ID, TimelineId(11), Some(Lsn(0x30))).unwrap();
    tenant.branch_timeline(TIMELINE_ID, TimelineId(12), Some(Lsn(0x40))).unwrap();
    let totals = tenant.gc_iteration(None, 0, 0, false).unwrap();
    let parent = tenant.get_timeline(TIMELINE_ID, false).unwrap();
    assert_eq!(parent.gc_info.retain_lsns, vec![Lsn(0x30), Lsn(0x40)]);
    assert_eq!(parent.get_latest_gc_cutoff_lsn(), Lsn(0x30));
    // the parent and the three children all move their cutoffs
    assert_eq!(totals.timelines_collected, 4);
    let again = tenant.gc_iteration(None, 0, 0, false).unwrap();
    assert_eq!(again.timelines_collected, 0);
}
