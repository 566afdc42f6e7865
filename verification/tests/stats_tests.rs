use carsync::stats::SyncStats;

fn sample(copied: usize, skipped: usize, deleted: usize, bytes: u64, wire: u64) -> SyncStats {
    SyncStats {
        files_copied: copied,
        files_skipped: skipped,
        files_deleted: deleted,
        bytes_transferred: bytes,
        bytes_on_wire: wire,
    }
}

fn same(a: &SyncStats, b: &SyncStats) -> bool {
    a.files_copied == b.files_copied
        && a.files_skipped == b.files_skipped
        && a.files_deleted == b.files_deleted
        && a.bytes_transferred == b.bytes_transferred
        && a.bytes_on_wire == b.bytes_on_wire
}

#[test]
fn new_stats_are_zero_and_in_sync() {
    let s = SyncStats::new();
    assert!(same(&s, &sample(0, 0, 0, 0, 0)));
    assert!(s.already_in_sync());
    assert!(!s.reports_wire_bytes());
}

#[test]
fn merge_adds_every_counter() {
    let mut s = sample(1, 2, 3, 400, 50);
    s.merge(&sample(10, 20, 30, 4000, 500));
    assert!(same(&s, &sample(11, 22, 33, 4400, 550)));
}

#[test]
fn merge_with_zero_changes_nothing() {
    let mut s = sample(4, 5, 6, 7, 8);
    s.merge(&SyncStats::new());
    assert!(same(&s, &sample(4, 5, 6, 7, 8)));
    let mut z = SyncStats::new();
    z.merge(&sample(4, 5, 6, 7, 8));
    assert!(same(&z, &sample(4, 5, 6, 7, 8)));
}

#[test]
fn merge_order_and_grouping_do_not_matter() {
    let a = sample(1, 0, 2, 10, 3);
    let b = sample(0, 5, 1, 7, 7);
    let c = sample(3, 1, 0, 100, 1);
    let mut ab = a;
    ab.merge(&b);
    let mut ba = b;
    ba.merge(&a);
    assert!(same(&ab, &ba));
    let mut ab_c = ab;
    ab_c.merge(&c);
    let mut bc = b;
    bc.merge(&c);
    let mut a_bc = a;
    a_bc.merge(&bc);
    assert!(same(&ab_c, &a_bc));
}

#[test]
fn record_copy_counts_file_and_bytes() {
    let mut s = SyncStats::new();
    s.record_copy(1000, 300);
    s.record_copy(24, 24);
    assert!(same(&s, &sample(2, 0, 0, 1024, 324)));
    assert!(!s.already_in_sync());
    assert!(s.reports_wire_bytes());
    assert_eq!(s.savings(), 700);
}

#[test]
fn record_skip_and_delete_count_one_each() {
    let mut s = SyncStats::new();
    s.record_skip();
    s.record_skip();
    assert!(s.already_in_sync());
    s.record_delete();
    assert!(same(&s, &sample(0, 2, 1, 0, 0)));
    assert!(!s.already_in_sync());
}

#[test]
fn savings_saturate_at_zero() {
    assert_eq!(sample(1, 0, 0, 100, 150).savings(), 0);
    assert_eq!(sample(1, 0, 0, 100, 100).savings(), 0);
    assert_eq!(sample(1, 0, 0, 100, 40).savings(), 60);
}
