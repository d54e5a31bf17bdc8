use std::io::ErrorKind;

use rustscan::address::{Endpoint, HostAddr};
use rustscan::probe::{ConnectFailure, ConnectResult, ProbeOutcome, ProbeReport, ScanError};
use rustscan::scanner::Scanner;
use rustscan::timeout::Timeout;

fn scanner(quiet: bool) -> Scanner {
    let timeout = Timeout::new(0, 250_000_000).unwrap();
    Scanner::new(HostAddr::V4([10, 0, 0, 7]), 1, 1024, 100, timeout, quiet, false)
}

#[test]
fn does_it_run() {
    assert_eq!(1, 1);
}

#[test]
fn new_keeps_what_it_is_given() {
    let host = HostAddr::V6([0x2001, 0xdb8, 0, 0, 0, 0, 0, 1]);
    let timeout = Timeout::new(2, 5).unwrap();
    let scanner = Scanner::new(host, 20, 25, 2, timeout, true, true);
    assert_eq!(scanner.host(), host);
    assert_eq!(scanner.start(), 20);
    assert_eq!(scanner.end(), 25);
    assert_eq!(scanner.batch_size(), 2);
    assert_eq!(scanner.timeout(), Timeout { secs: 2, nanos: 5 });
    assert!(scanner.quiet());
    assert!(scanner.ipv6());
}

#[test]
fn endpoint_joins_host_and_port() {
    assert_eq!(
        scanner(true).endpoint(443),
        Endpoint { host: HostAddr::V4([10, 0, 0, 7]), port: 443 }
    );
}

#[test]
fn timeout_must_be_positive_and_well_formed() {
    assert_eq!(Timeout::new(1, 0), Some(Timeout { secs: 1, nanos: 0 }));
    assert_eq!(Timeout::new(0, 1), Some(Timeout { secs: 0, nanos: 1 }));
    assert_eq!(
        Timeout::new(u64::MAX, 999_999_999),
        Some(Timeout { secs: u64::MAX, nanos: 999_999_999 })
    );
    assert_eq!(Timeout::new(0, 0), None);
    assert_eq!(Timeout::new(3, 1_000_000_000), None);
    assert_eq!(Timeout::new(0, u32::MAX), None);
}

#[test]
fn connection_means_open_and_is_announced() {
    assert_eq!(
        scanner(false).scan_port(80, ConnectResult::Connected),
        Ok(ProbeReport { outcome: ProbeOutcome::Open(80), notice: Some(80) })
    );
}

#[test]
fn quiet_scanner_announces_nothing() {
    assert_eq!(
        scanner(true).scan_port(80, ConnectResult::Connected),
        Ok(ProbeReport { outcome: ProbeOutcome::Open(80), notice: None })
    );
}

#[test]
fn failure_to_connect_means_closed() {
    let closed = Ok(ProbeReport { outcome: ProbeOutcome::Closed, notice: None });
    for quiet in [false, true] {
        assert_eq!(
            scanner(quiet).scan_port(81, ConnectResult::Failed(ConnectFailure::ConnectFailed)),
            closed
        );
    }
}

#[test]
fn timeout_means_closed() {
    assert_eq!(
        scanner(false).scan_port(81, ConnectResult::Failed(ConnectFailure::TimedOut)),
        Ok(ProbeReport { outcome: ProbeOutcome::Closed, notice: None })
    );
}

#[test]
fn exhaustion_is_fatal() {
    for quiet in [false, true] {
        assert_eq!(
            scanner(quiet).scan_port(81, ConnectResult::Failed(ConnectFailure::ResourceExhausted)),
            Err(ScanError::ResourceExhausted)
        );
    }
    assert!(ConnectFailure::ResourceExhausted.fatal());
    assert!(!ConnectFailure::TimedOut.fatal());
    assert!(!ConnectFailure::ConnectFailed.fatal());
}

#[test]
fn error_kinds_are_read_as_failures() {
    assert_eq!(ConnectFailure::from_kind(ErrorKind::Other), ConnectFailure::ResourceExhausted);
    assert_eq!(ConnectFailure::from_kind(ErrorKind::TimedOut), ConnectFailure::TimedOut);
    for kind in [
        ErrorKind::ConnectionRefused,
        ErrorKind::ConnectionReset,
        ErrorKind::ConnectionAborted,
        ErrorKind::HostUnreachable,
        ErrorKind::NetworkUnreachable,
        ErrorKind::NetworkDown,
        ErrorKind::AddrNotAvailable,
        ErrorKind::PermissionDenied,
        ErrorKind::InvalidInput,
        ErrorKind::OutOfMemory,
        ErrorKind::Interrupted,
    ] {
        assert_eq!(ConnectFailure::from_kind(kind), ConnectFailure::ConnectFailed);
    }
}

#[test]
fn exhaustion_message_advises_a_smaller_batch() {
    assert_eq!(
        ScanError::ResourceExhausted.message(),
        "Too many open files. Please reduce batch size. The default is 5000. Try -b 2500."
    );
}

#[test]
fn every_error_has_its_message() {
    assert_eq!(
        ScanError::UnexpectedCompletion.message(),
        "A result arrived for a port that is not being probed."
    );
    assert_eq!(
        ScanError::Incomplete.message(),
        "The scan ended while probes were still in flight."
    );
}
