use shuffle::epochs::Epochs;
use shuffle::uuid::Clock;

fn clock(v: u64) -> Clock {
    Clock::from_u64(v)
}

#[test]
fn no_boundary_is_epoch_0() {
    let e = Epochs::new(1);
    assert!(!e.has_boundary(0));
    for c in [1, 100, u64::MAX] {
        assert_eq!(e.epoch_for_clock(0, clock(c)), 0);
    }
    assert_eq!(e.active_epochs(), None); // No boundary: nothing to partition.
}

#[test]
fn boundary_tags_active_with_its_clock() {
    let mut e = Epochs::new(1);
    e.observe_begin(0, clock(500));
    assert!(e.has_boundary(0));
    assert_eq!(e.epoch_for_clock(0, clock(499)), 0); // Stale.
    assert_eq!(e.epoch_for_clock(0, clock(500)), 500); // Active, at the boundary.
    assert_eq!(e.epoch_for_clock(0, clock(999)), 500);
    assert_eq!(&*e.active_epochs().unwrap(), &[500]);

    // Advancing the boundary retires the prior active epoch.
    e.observe_begin(0, clock(800));
    assert_eq!(e.epoch_for_clock(0, clock(500)), 0);
    assert_eq!(e.epoch_for_clock(0, clock(800)), 800);
    assert_eq!(&*e.active_epochs().unwrap(), &[800]);
}

#[test]
fn repeated_or_stale_begin_is_noop() {
    let mut e = Epochs::new(1);
    e.observe_begin(0, clock(500));
    e.observe_begin(0, clock(500)); // Duplicate.
    e.observe_begin(0, clock(300)); // Below the latest.
    assert_eq!(&*e.active_epochs().unwrap(), &[500]);
}

#[test]
fn bindings_advance_independently() {
    let mut e = Epochs::new(2);
    e.observe_begin(0, clock(500));
    assert_eq!(&*e.active_epochs().unwrap(), &[500, 0]);
    assert_eq!(e.epoch_for_clock(1, clock(999)), 0);
}

#[test]
fn begins_may_arrive_in_any_order() {
    let mut a = Epochs::new(1);
    a.observe_begin(0, clock(300));
    a.observe_begin(0, clock(500));
    let mut b = Epochs::new(1);
    b.observe_begin(0, clock(500));
    b.observe_begin(0, clock(300));
    assert_eq!(a.active_epochs(), b.active_epochs());
}
