use std::sync::atomic::{AtomicBool, Ordering};

use sisyphus::global_abort::AbortFlag;

#[test]
fn flag_is_not_raised_at_first() {
    let source = AtomicBool::new(false);
    let mut abort = AbortFlag::new(&source);
    assert!(!abort.was_raised());
    assert!(!abort.poll());
    assert!(!abort.was_raised());
}

#[test]
fn flag_follows_the_source() {
    let source = AtomicBool::new(false);
    let mut abort = AbortFlag::new(&source);
    assert!(!abort.poll());
    source.store(true, Ordering::Relaxed);
    assert!(!abort.was_raised());
    assert!(abort.poll());
    assert!(abort.was_raised());
}

#[test]
fn flag_once_seen_raised_stays_raised() {
    let source = AtomicBool::new(true);
    let mut abort = AbortFlag::new(&source);
    assert!(abort.poll());
    source.store(false, Ordering::Relaxed);
    assert!(abort.poll());
    assert!(abort.was_raised());
}
