use rsq::bench::Stats;
use rsq::server::{conn_step, max_connections, may_accept, ConnAction, ConnEvent, ConnState};

#[test]
fn connection_cap() {
    assert_eq!(max_connections(Some(1024)), 960);
    assert_eq!(max_connections(Some(64)), 0);
    assert_eq!(max_connections(Some(10)), 0);
    assert_eq!(max_connections(None), 512);
    assert!(may_accept(959, 960));
    assert!(!may_accept(960, 960));
    assert!(!may_accept(0, 0));
}

#[test]
fn connection_lifecycle() {
    let (s, a) = conn_step(ConnState::Init, ConnEvent::Registered);
    assert_eq!((s, a), (ConnState::Running, ConnAction::Start));
    let (s, a) = conn_step(s, ConnEvent::ReaderEnded);
    assert_eq!((s, a), (ConnState::Draining, ConnAction::CancelWriter));
    let (s, a) = conn_step(s, ConnEvent::WriterEnded);
    assert_eq!((s, a), (ConnState::Gone, ConnAction::Cleanup));
    assert_eq!(conn_step(s, ConnEvent::ReaderEnded), (ConnState::Gone, ConnAction::Idle));
    assert_eq!(
        conn_step(ConnState::Running, ConnEvent::WriterEnded),
        (ConnState::Draining, ConnAction::CancelReader)
    );
    assert_eq!(conn_step(ConnState::Init, ConnEvent::ReaderEnded), (ConnState::Init, ConnAction::Idle));
}

#[test]
fn stats_rates() {
    let s = Stats::new(2_000_000, 1000, 500_000);
    assert_eq!(s.msgs_per_sec(), 2000);
    assert_eq!(s.bytes_per_sec(), 4_000_000);
    let z = Stats::new(3, 5, 0);
    assert_eq!(z.msgs_per_sec(), 5_000_000);
}

#[test]
fn stats_average_and_total() {
    let v = vec![Stats::new(10, 4, 100), Stats::new(20, 7, 300)];
    assert_eq!(Stats::average(&v), Stats::new(15, 5, 200));
    assert_eq!(Stats::total(&v), Stats::new(30, 11, 200));
}

#[test]
fn stats_update_returns_difference() {
    let mut s = Stats::new(10, 1, 100);
    let d = s.update(25, 4, 160);
    assert_eq!(d, Stats::new(15, 3, 60));
    assert_eq!(s, Stats::new(25, 4, 160));
}
