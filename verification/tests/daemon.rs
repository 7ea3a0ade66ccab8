use avet::daemon::{env_u64, panic_message, poll_interval, Event, Next, ScanLoop};

#[test]
fn a_panic_is_reported_whatever_it_carries() {
    assert_eq!(panic_message(Some("boom"), None), "boom");
    assert_eq!(panic_message(None, Some("boom 5")), "boom 5");
    assert_ne!(panic_message(None, None), "");
}

#[test]
fn a_setting_that_is_no_number_falls_back() {
    assert_eq!(env_u64(None, 60), (60, false));
    assert_eq!(env_u64(Some("15"), 60), (15, false));
    assert_eq!(env_u64(Some("soon"), 60), (60, true));
}

#[test]
fn the_pause_between_scans_is_never_zero() {
    assert_eq!(poll_interval(Some("0")), 1);
    assert_eq!(poll_interval(Some("15")), 15);
    assert!(poll_interval(None) >= 1);
}

#[test]
fn every_job_is_run_and_a_failed_one_stops_nothing() {
    let mut s = ScanLoop::new(3);
    assert_eq!(s.after(Event::Scanned { jobs: 3 }, false), Next::Run { job: 0 });
    assert_eq!(s.after(Event::JobEnded { failed: true }, false), Next::Run { job: 1 });
    assert_eq!(s.after(Event::JobEnded { failed: false }, false), Next::Run { job: 2 });
    assert_eq!(s.after(Event::JobEnded { failed: true }, false), Next::Sleep);
    assert_eq!(s.after(Event::Slept, false), Next::Sleep);
    assert_eq!(s.after(Event::Slept, false), Next::Sleep);
    assert_eq!(s.after(Event::Slept, false), Next::Scan);
    assert_eq!(s.after(Event::Scanned { jobs: 0 }, false), Next::Sleep);
}

#[test]
fn a_signal_ends_the_service_between_two_jobs() {
    let mut s = ScanLoop::new(60);
    assert_eq!(s.after(Event::Scanned { jobs: 2 }, true), Next::Stop);
    assert_eq!(s.after(Event::Scanned { jobs: 2 }, false), Next::Run { job: 0 });
    assert_eq!(s.after(Event::JobEnded { failed: false }, true), Next::Stop);
    assert_eq!(s.after(Event::JobEnded { failed: true }, true), Next::Stop);
    assert_eq!(s.after(Event::Scanned { jobs: 0 }, true), Next::Sleep);
    assert_eq!(s.after(Event::Slept, true), Next::Stop);
}
