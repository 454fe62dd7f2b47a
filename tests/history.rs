use virtual_brain::History;

#[test]
fn history_never_exceeds_its_limit() {
    let mut h: History<u32> = History::new(5);
    h.restart(100);
    for i in 0..10 {
        h.record(i);
        assert!(h.len() <= 5);
    }
    // the oldest entries went first
    assert_eq!(h.entries(), &[5, 6, 7, 8, 9]);
    assert_eq!(h.max_len(), 5);
}

#[test]
fn history_under_its_limit_keeps_everything() {
    let mut h: History<&str> = History::new(10);
    h.restart("initial");
    h.record("a");
    h.record("b");
    assert_eq!(h.entries(), &["initial", "a", "b"]);
}

#[test]
fn history_with_zero_limit_keeps_one_entry() {
    let mut h: History<i32> = History::new(0);
    assert_eq!(h.len(), 0);
    h.restart(1);
    assert_eq!(h.entries(), &[1]);
    h.record(2);
    assert_eq!(h.entries(), &[2]);
}
