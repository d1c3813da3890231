use disk_scanner::state::{watch_generation, ScanState};

#[test]
fn fresh_state_has_no_active_scan() {
    let mut st = ScanState::default();
    assert_eq!(watch_generation(&st), 0);
    assert!(!st.cancel(1));
}

#[test]
fn first_scan_gets_id_one() {
    let mut st = ScanState::default();
    let a = st.begin_scan();
    assert_eq!(a.scan_id, 1);
    assert_eq!(a.generation, 1);
    assert!(!a.cancel_previous);
    assert_eq!(watch_generation(&st), 1);
}

#[test]
fn second_scan_cancels_first() {
    let mut st = ScanState::default();
    let a = st.begin_scan();
    let b = st.begin_scan();
    assert!(b.cancel_previous);
    assert_eq!(b.scan_id, a.scan_id + 1);
    assert!(!st.cancel(a.scan_id));
    assert!(st.cancel(b.scan_id));
    assert!(!st.cancel(b.scan_id));
}

#[test]
fn late_finish_of_old_scan_keeps_new_active() {
    let mut st = ScanState::default();
    let a = st.begin_scan();
    let b = st.begin_scan();
    st.finish(a.scan_id);
    assert!(st.cancel(b.scan_id));
}

#[test]
fn finish_clears_active_scan() {
    let mut st = ScanState::default();
    let a = st.begin_scan();
    st.finish(a.scan_id);
    assert!(!st.cancel(a.scan_id));
    let b = st.begin_scan();
    assert!(!b.cancel_previous);
}

#[test]
fn new_scan_makes_old_watcher_stale() {
    let mut st = ScanState::default();
    let a = st.begin_scan();
    st.finish(a.scan_id);
    assert!(st.should_start_watcher(false, a.generation));
    assert!(st.is_current(a.generation));
    let b = st.begin_scan();
    assert!(!st.is_current(a.generation));
    assert!(st.is_current(b.generation));
}

#[test]
fn cancelled_or_superseded_scan_gets_no_watcher() {
    let mut st = ScanState::default();
    let a = st.begin_scan();
    assert!(!st.should_start_watcher(true, a.generation));
    st.begin_scan();
    assert!(!st.should_start_watcher(false, a.generation));
}
