use rustsptag::spann::fast_dedup::FastDedup;

#[test]
fn check_and_set_reports_second_sighting() {
    let mut d = FastDedup::new(100);
    assert!(!d.check_and_set(5));
    assert!(d.check_and_set(5));
    assert!(!d.check_and_set(6));
    assert!(d.check_and_set(6));
    assert!(d.check_and_set(5));
}

#[test]
fn clear_forgets_every_id() {
    let mut d = FastDedup::new(16);
    for id in 0..16 {
        assert!(!d.check_and_set(id));
    }
    for id in 0..16 {
        assert!(d.check_and_set(id));
    }
    d.clear();
    for id in 0..16 {
        assert!(!d.check_and_set(id));
    }
}

#[test]
fn id_that_wraps_to_empty_key_is_never_recorded() {
    let mut d = FastDedup::new(4);
    let wrap = u32::MAX as usize;
    assert!(!d.check_and_set(wrap));
    assert!(!d.check_and_set(wrap));
}

#[test]
fn many_distinct_ids_are_never_reported_seen() {
    let mut d = FastDedup::new(1000);
    for id in 0..1000 {
        assert!(!d.check_and_set(id * 7919));
    }
}

#[test]
fn small_table_records_two_ids() {
    let mut d = FastDedup::new(4);
    assert!(!d.check_and_set(3));
    assert!(d.check_and_set(3));
    assert!(!d.check_and_set(7));
    assert!(d.check_and_set(7));
}

#[test]
fn largest_id_is_never_recorded() {
    let mut d = FastDedup::new(4);
    assert!(!d.check_and_set(usize::MAX));
    assert!(!d.check_and_set(usize::MAX));
}
