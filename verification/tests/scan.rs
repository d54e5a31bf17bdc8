use rustscan::address::HostAddr;
use rustscan::batch::Batch;
use rustscan::probe::{
    Completion, ConnectFailure, ConnectResult, ProbeOutcome, ProbeReport, ScanError,
};
use rustscan::scan::Step;
use rustscan::scanner::Scanner;
use rustscan::timeout::Timeout;

fn scanner(start: u16, end: u16, batch_size: u64) -> Scanner {
    let timeout = Timeout::new(1, 0).unwrap();
    Scanner::new(HostAddr::V4([127, 0, 0, 1]), start, end, batch_size, timeout, false, false)
}

fn open(port: u16) -> Completion {
    Completion { port, attempt: ConnectResult::Connected }
}

fn refused(port: u16) -> Completion {
    Completion { port, attempt: ConnectResult::Failed(ConnectFailure::ConnectFailed) }
}

fn timed_out(port: u16) -> Completion {
    Completion { port, attempt: ConnectResult::Failed(ConnectFailure::TimedOut) }
}

fn exhausted(port: u16) -> Completion {
    Completion { port, attempt: ConnectResult::Failed(ConnectFailure::ResourceExhausted) }
}

fn found_open(port: u16, launch: Option<Batch>) -> Result<Step, ScanError> {
    Ok(Step {
        report: ProbeReport { outcome: ProbeOutcome::Open(port), notice: Some(port) },
        launch,
    })
}

fn found_closed(launch: Option<Batch>) -> Result<Step, ScanError> {
    Ok(Step { report: ProbeReport { outcome: ProbeOutcome::Closed, notice: None }, launch })
}

#[test]
fn example_scan_finds_21_and_24() {
    let trace = [refused(20), open(21), timed_out(22), refused(23), open(24)];
    assert_eq!(scanner(20, 25, 2).run(&trace), Ok(vec![21, 24]));
}

#[test]
fn example_scan_whatever_the_order_within_a_batch() {
    let trace = [open(21), refused(20), refused(23), timed_out(22), open(24)];
    assert_eq!(scanner(20, 25, 2).run(&trace), Ok(vec![21, 24]));
}

#[test]
fn empty_range_yields_empty_list_without_a_probe() {
    let scanner = scanner(443, 443, 100);
    assert_eq!(scanner.run(&[]), Ok(vec![]));
    assert_eq!(scanner.batches(), vec![]);
    let scan = scanner.begin();
    assert_eq!(scan.batch(), None);
    assert_eq!(scan.in_flight(), 0);
    assert!(scan.is_finished());
    assert_eq!(scan.finish(), Ok(vec![]));
}

#[test]
fn empty_range_accepts_no_result() {
    let scanner = scanner(443, 443, 100);
    assert_eq!(scanner.run(&[open(443)]), Err(ScanError::UnexpectedCompletion));
    let mut scan = scanner.begin();
    assert_eq!(
        scan.complete(443, ConnectResult::Connected),
        Err(ScanError::UnexpectedCompletion)
    );
    assert!(scan.is_finished());
}

#[test]
fn open_ports_come_in_order_of_arrival() {
    let trace = [open(3), open(1), open(2), open(6), open(5), open(4), open(7)];
    assert_eq!(scanner(1, 8, 3).run(&trace), Ok(vec![3, 1, 2, 6, 5, 4, 7]));
}

#[test]
fn all_open_lists_every_port_once_and_batch_by_batch() {
    let (start, end, size) = (100u16, 1100u16, 64u64);
    let scanner = scanner(start, end, size);
    let mut trace = Vec::new();
    for batch in scanner.batches() {
        for port in (batch.start..batch.end).rev() {
            trace.push(open(port));
        }
    }
    let found = scanner.run(&trace).unwrap();
    assert_eq!(found.len(), (end - start) as usize);
    let mut sorted = found.clone();
    sorted.sort();
    let expected: Vec<u16> = (start..end).collect();
    assert_eq!(sorted, expected);
    for pair in found.windows(2) {
        let earlier = (pair[0] - start) as u64 / size;
        let later = (pair[1] - start) as u64 / size;
        assert!(earlier <= later);
    }
}

#[test]
fn exhaustion_ends_the_scan_without_a_list() {
    let trace = [open(20), refused(21), exhausted(23), open(22), open(24)];
    assert_eq!(scanner(20, 25, 2).run(&trace), Err(ScanError::ResourceExhausted));
}

#[test]
fn exhaustion_ends_the_scan_whatever_follows() {
    let scanner = scanner(20, 25, 2);
    assert_eq!(scanner.run(&[exhausted(20)]), Err(ScanError::ResourceExhausted));
    assert_eq!(
        scanner.run(&[exhausted(21), open(9999), open(21)]),
        Err(ScanError::ResourceExhausted)
    );
    assert_eq!(
        scanner.run(&[open(20), open(21), open(22), open(23), exhausted(24)]),
        Err(ScanError::ResourceExhausted)
    );
}

#[test]
fn result_out_of_turn_is_unexpected() {
    let scanner = scanner(20, 25, 2);
    assert_eq!(scanner.run(&[open(22)]), Err(ScanError::UnexpectedCompletion));
    assert_eq!(scanner.run(&[open(20), open(20)]), Err(ScanError::UnexpectedCompletion));
    assert_eq!(scanner.run(&[open(19)]), Err(ScanError::UnexpectedCompletion));
    assert_eq!(scanner.run(&[open(25)]), Err(ScanError::UnexpectedCompletion));
    assert_eq!(
        scanner.run(&[open(20), open(21), open(20)]),
        Err(ScanError::UnexpectedCompletion)
    );
    assert_eq!(
        scanner.run(&[open(20), open(21), open(22), open(23), open(24), open(24)]),
        Err(ScanError::UnexpectedCompletion)
    );
}

#[test]
fn first_fault_decides() {
    let scanner = scanner(20, 25, 2);
    assert_eq!(
        scanner.run(&[open(24), exhausted(20)]),
        Err(ScanError::UnexpectedCompletion)
    );
    assert_eq!(
        scanner.run(&[exhausted(20), open(24)]),
        Err(ScanError::ResourceExhausted)
    );
    assert_eq!(scanner.run(&[exhausted(24)]), Err(ScanError::UnexpectedCompletion));
}

#[test]
fn results_that_end_early_leave_the_scan_incomplete() {
    let scanner = scanner(20, 25, 2);
    assert_eq!(scanner.run(&[]), Err(ScanError::Incomplete));
    assert_eq!(scanner.run(&[open(21)]), Err(ScanError::Incomplete));
    assert_eq!(scanner.run(&[open(21), open(20)]), Err(ScanError::Incomplete));
    assert_eq!(
        scanner.run(&[open(21), open(20), refused(22), refused(23)]),
        Err(ScanError::Incomplete)
    );
}

#[test]
fn scan_begins_with_its_first_batch_in_flight() {
    let scan = scanner(20, 25, 2).begin();
    assert_eq!(scan.batch(), Some(Batch { start: 20, end: 22 }));
    assert_eq!(scan.in_flight(), 2);
    assert!(!scan.is_finished());
}

#[test]
fn next_batch_is_launched_when_the_last_result_of_a_batch_arrives() {
    let mut scan = scanner(20, 25, 2).begin();
    assert_eq!(scan.complete(21, ConnectResult::Connected), found_open(21, None));
    assert_eq!(scan.in_flight(), 1);
    assert_eq!(scan.batch(), Some(Batch { start: 20, end: 22 }));
    assert_eq!(
        scan.complete(20, ConnectResult::Failed(ConnectFailure::ConnectFailed)),
        found_closed(Some(Batch { start: 22, end: 24 }))
    );
    assert_eq!(scan.in_flight(), 2);
    assert_eq!(scan.batch(), Some(Batch { start: 22, end: 24 }));
    assert_eq!(
        scan.complete(22, ConnectResult::Failed(ConnectFailure::TimedOut)),
        found_closed(None)
    );
    assert_eq!(
        scan.complete(23, ConnectResult::Connected),
        found_open(23, Some(Batch { start: 24, end: 25 }))
    );
    assert_eq!(scan.in_flight(), 1);
    assert!(!scan.is_finished());
    assert_eq!(scan.complete(24, ConnectResult::Connected), found_open(24, None));
    assert_eq!(scan.in_flight(), 0);
    assert!(scan.is_finished());
    assert_eq!(scan.finish(), Ok(vec![21, 23, 24]));
}

#[test]
fn probes_in_flight_never_exceed_the_batch_size() {
    for (start, end, size) in [(0u16, 50u16, 1u64), (0, 50, 7), (0, 50, 50), (0, 50, 1000)] {
        let mut scan = scanner(start, end, size).begin();
        let mut launched: Vec<u16> = Vec::new();
        let mut next = scan.batch();
        assert!(scan.in_flight() as u64 <= size);
        while let Some(batch) = next.take() {
            assert_eq!(scan.in_flight(), (batch.end - batch.start) as usize);
            let mut awaited = scan.in_flight();
            for port in (batch.start..batch.end).rev() {
                launched.push(port);
                let step = scan.complete(port, ConnectResult::Connected).unwrap();
                awaited -= 1;
                if awaited > 0 {
                    assert_eq!(step.launch, None);
                    assert_eq!(scan.in_flight(), awaited);
                } else {
                    next = step.launch;
                }
                assert!(scan.in_flight() as u64 <= size);
            }
        }
        assert!(scan.is_finished());
        launched.sort();
        let every_port: Vec<u16> = (start..end).collect();
        assert_eq!(launched, every_port);
    }
}

#[test]
fn launched_batches_are_those_of_the_partition() {
    let scanner = scanner(1, 100, 8);
    let mut scan = scanner.begin();
    let mut launched = Vec::new();
    let mut next = scan.batch();
    while let Some(batch) = next.take() {
        launched.push(batch);
        for port in batch.start..batch.end {
            let step = scan.complete(port, ConnectResult::Failed(ConnectFailure::TimedOut));
            if let Some(batch) = step.unwrap().launch {
                next = Some(batch);
            }
        }
    }
    assert_eq!(launched, scanner.batches());
    assert_eq!(scan.finish(), Ok(vec![]));
}

#[test]
fn abandoned_scan_accepts_nothing_and_launches_nothing() {
    let mut scan = scanner(20, 25, 2).begin();
    assert_eq!(
        scan.complete(20, ConnectResult::Failed(ConnectFailure::ResourceExhausted)),
        Err(ScanError::ResourceExhausted)
    );
    assert_eq!(scan.in_flight(), 0);
    assert!(!scan.is_finished());
    assert_eq!(scan.batch(), Some(Batch { start: 20, end: 22 }));
    assert_eq!(scan.complete(21, ConnectResult::Connected), Err(ScanError::ResourceExhausted));
    assert_eq!(scan.complete(22, ConnectResult::Connected), Err(ScanError::ResourceExhausted));
    assert_eq!(scan.batch(), Some(Batch { start: 20, end: 22 }));
    assert_eq!(scan.finish(), Err(ScanError::ResourceExhausted));
}

#[test]
fn rejected_result_changes_nothing() {
    let mut scan = scanner(20, 25, 2).begin();
    assert_eq!(scan.complete(21, ConnectResult::Connected), found_open(21, None));
    assert_eq!(scan.complete(21, ConnectResult::Connected), Err(ScanError::UnexpectedCompletion));
    assert_eq!(
        scan.complete(23, ConnectResult::Failed(ConnectFailure::ResourceExhausted)),
        Err(ScanError::UnexpectedCompletion)
    );
    assert_eq!(scan.in_flight(), 1);
    assert_eq!(scan.batch(), Some(Batch { start: 20, end: 22 }));
    assert_eq!(
        scan.complete(20, ConnectResult::Connected),
        found_open(20, Some(Batch { start: 22, end: 24 }))
    );
}

#[test]
fn scan_under_way_has_no_list_yet() {
    let mut scan = scanner(20, 25, 2).begin();
    assert_eq!(scan.complete(21, ConnectResult::Connected), found_open(21, None));
    assert_eq!(scan.finish(), Err(ScanError::Incomplete));
}

#[test]
fn quiet_scan_finds_the_same_ports_silently() {
    let timeout = Timeout::new(1, 0).unwrap();
    let quiet = Scanner::new(HostAddr::V4([127, 0, 0, 1]), 20, 25, 2, timeout, true, false);
    let mut scan = quiet.begin();
    assert_eq!(
        scan.complete(20, ConnectResult::Connected),
        Ok(Step {
            report: ProbeReport { outcome: ProbeOutcome::Open(20), notice: None },
            launch: None,
        })
    );
    let trace = [refused(20), open(21), timed_out(22), refused(23), open(24)];
    assert_eq!(quiet.run(&trace), Ok(vec![21, 24]));
}

#[test]
fn whole_port_space_in_one_batch() {
    let scanner = scanner(0, 65535, u64::MAX);
    let mut trace = Vec::new();
    for port in 0..65535u16 {
        trace.push(if port % 1000 == 0 { open(port) } else { timed_out(port) });
    }
    let expected: Vec<u16> = (0..65535u16).filter(|port| port % 1000 == 0).collect();
    assert_eq!(scanner.run(&trace), Ok(expected));
    assert_eq!(scanner.begin().in_flight(), 65535);
}

/// A small generator of numbers that look random and are the same on every run.
struct Dice(u64);

impl Dice {
    fn roll(&mut self, sides: u64) -> u64 {
        self.0 = self.0.wrapping_mul(6364136223846793005).wrapping_add(1442695040888963407);
        (self.0 >> 33) % sides
    }
}

#[test]
fn scans_with_shuffled_arrivals_list_open_ports_as_they_arrive() {
    let mut dice = Dice(7);
    for round in 0..200u64 {
        let start = dice.roll(300) as u16;
        let end = start + dice.roll(60) as u16;
        let size = 1 + dice.roll(12);
        let scanner = scanner(start, end, size);
        let mut trace = Vec::new();
        let mut expected = Vec::new();
        for batch in scanner.batches() {
            let mut ports: Vec<u16> = (batch.start..batch.end).collect();
            while !ports.is_empty() {
                let port = ports.swap_remove(dice.roll(ports.len() as u64) as usize);
                match dice.roll(3) {
                    0 => {
                        trace.push(open(port));
                        expected.push(port);
                    }
                    1 => trace.push(refused(port)),
                    _ => trace.push(timed_out(port)),
                }
            }
        }
        assert_eq!(scanner.run(&trace), Ok(expected), "round {}", round);
        if !trace.is_empty() {
            let cut = dice.roll(trace.len() as u64) as usize;
            assert_eq!(scanner.run(&trace[..cut]), Err(ScanError::Incomplete));
            let port = trace[cut].port;
            let mut broken = trace.clone();
            broken[cut] = exhausted(port);
            assert_eq!(scanner.run(&broken), Err(ScanError::ResourceExhausted));
        }
    }
}

#[test]
fn host_timeout_and_flags_do_not_change_what_is_found() {
    let trace = [open(21), refused(20), refused(23), timed_out(22), open(24)];
    let plain = scanner(20, 25, 2);
    let other = Scanner::new(
        HostAddr::V6([0xfe80, 0, 0, 0, 0, 0, 0, 1]),
        20,
        25,
        2,
        Timeout::new(0, 1).unwrap(),
        true,
        true,
    );
    assert_eq!(plain.run(&trace), Ok(vec![21, 24]));
    assert_eq!(other.run(&trace), plain.run(&trace));
    assert_eq!(other.run(&trace[..3]), plain.run(&trace[..3]));
    assert_eq!(other.run(&[open(24)]), plain.run(&[open(24)]));
    assert_eq!(other.batches(), plain.batches());
}
