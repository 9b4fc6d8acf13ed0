use pebbledb::error::PebbleError;
use pebbledb::fault::{Fault, FaultInjector, FaultPoint};

#[test]
fn disabled_injector_never_fires() {
    let mut injector = FaultInjector::default();
    for _ in 0..10 {
        assert!(injector.hit(FaultPoint::AfterWalFsync).is_ok());
    }
}

#[test]
fn injector_fires_only_at_the_configured_hit() {
    let mut injector = FaultInjector::new(Some(Fault::new(FaultPoint::AfterWalFsync, 3)));
    assert!(injector.hit(FaultPoint::AfterWalFsync).is_ok());
    assert!(injector.hit(FaultPoint::AfterWalFsync).is_ok());
    assert!(matches!(
        injector.hit(FaultPoint::AfterWalFsync),
        Err(PebbleError::InjectedFault(_))
    ));
}

#[test]
fn injector_ignores_other_points() {
    let mut injector = FaultInjector::new(Some(Fault::new(FaultPoint::AfterWalFsync, 1)));
    assert!(injector.hit(FaultPoint::BeforeWalAppend).is_ok());
    assert!(injector.hit(FaultPoint::BeforeWalAppend).is_ok());
    assert!(injector.hit(FaultPoint::AfterWalFsync).is_err());
}

#[test]
fn point_names_round_trip() {
    for point in FaultPoint::ALL {
        assert_eq!(FaultPoint::parse(point.name()), Some(point));
    }
    assert_eq!(FaultPoint::parse("nope"), None);
}

#[test]
fn hit_index_is_clamped_to_one() {
    assert_eq!(Fault::new(FaultPoint::AfterWalAppend, 0).at, 1);
}
