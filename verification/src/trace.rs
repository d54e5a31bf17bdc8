//! Whole scans: the state that a sequence of results leads to, and what
//! holds of it whatever the results are and in whatever order they arrive.

use crate::batch::port_range;
use crate::probe::{Completion, ConnectResult, ProbeOutcome, ScanError};
use crate::scan::ScanView;
use crate::scanner::ScanConfig;
use vstd::prelude::*;

verus! {

/// The state of a scan after the results `trace` have arrived in this order.
/// Results that are not accepted leave no mark.
pub open spec fn after(config: ScanConfig, trace: Seq<Completion>) -> ScanView
    decreases trace.len(),
{
    if trace.len() == 0 {
        ScanView::initial(config)
    } else {
        after(config, trace.drop_last()).complete(trace.last().port, trace.last().attempt)
    }
}

/// The state of a scan after the results `trace`, if each of them was
/// accepted and none was fatal; else the error that the first other one was
/// answered with.
pub open spec fn replay(config: ScanConfig, trace: Seq<Completion>) -> Result<ScanView, ScanError>
    decreases trace.len(),
{
    if trace.len() == 0 {
        Ok(ScanView::initial(config))
    } else {
        match replay(config, trace.drop_last()) {
            Ok(scan) => match scan.reply(trace.last().port, trace.last().attempt) {
                Ok(_) => Ok(scan.complete(trace.last().port, trace.last().attempt)),
                Err(error) => Err(error),
            },
            Err(error) => Err(error),
        }
    }
}

/// What a scan yields when its probes report `trace`: the open ports in the
/// order of arrival if the results are exactly those of a whole scan, else
/// the first error met.
pub open spec fn run_result(config: ScanConfig, trace: Seq<Completion>) -> Result<
    Seq<u16>,
    ScanError,
> {
    match replay(config, trace) {
        Ok(scan) => scan.result(),
        Err(error) => Err(error),
    }
}

/// Every result in `trace` is a connection.
pub open spec fn all_connected(trace: Seq<Completion>) -> bool {
    forall|i: int| 0 <= i < trace.len() ==> (#[trigger] trace[i]).attempt == ConnectResult::Connected
}

/// The invariant holds after any sequence of results.
pub proof fn lemma_after_inv(config: ScanConfig, trace: Seq<Completion>)
    requires
        config.wf(),
    ensures
        after(config, trace).inv(),
        after(config, trace).config == config,
    decreases trace.len(),
{
    if trace.len() == 0 {
        ScanView::lemma_initial_inv(config);
    } else {
        lemma_after_inv(config, trace.drop_last());
        after(config, trace.drop_last()).lemma_complete_inv(trace.last().port, trace.last().attempt);
    }
}

/// Where every result is accepted and none is fatal, `replay` and `after` agree.
pub proof fn lemma_replay_is_after(config: ScanConfig, trace: Seq<Completion>)
    ensures
        replay(config, trace) matches Ok(scan) ==> scan == after(config, trace),
    decreases trace.len(),
{
    if trace.len() > 0 {
        lemma_replay_is_after(config, trace.drop_last());
    }
}

/// An error, once met, is the answer to every longer sequence of results.
pub proof fn lemma_replay_error_stays(config: ScanConfig, trace: Seq<Completion>, n: int)
    requires
        0 <= n <= trace.len(),
        replay(config, trace.take(n)) is Err,
    ensures
        replay(config, trace) == replay(config, trace.take(n)),
    decreases trace.len() - n,
{
    if n < trace.len() {
        assert(trace.take(n + 1).drop_last() =~= trace.take(n));
        lemma_replay_error_stays(config, trace, n + 1);
    } else {
        assert(trace.take(n) =~= trace);
    }
}

/// The results `first` and then `more` lead to where `more` leads from
/// the state after `first`.
pub open spec fn after_from(scan: ScanView, more: Seq<Completion>) -> ScanView
    decreases more.len(),
{
    if more.len() == 0 {
        scan
    } else {
        after_from(scan, more.drop_last()).complete(more.last().port, more.last().attempt)
    }
}

/// `after` of a sequence in two parts goes through the state after the first part.
pub proof fn lemma_after_split(config: ScanConfig, first: Seq<Completion>, more: Seq<Completion>)
    ensures
        after(config, first + more) == after_from(after(config, first), more),
    decreases more.len(),
{
    if more.len() == 0 {
        assert(first + more =~= first);
    } else {
        assert((first + more).drop_last() =~= first + more.drop_last());
        lemma_after_split(config, first, more.drop_last());
    }
}

/// At no moment are more probes in flight than the batch size allows, and
/// all of them belong to the batch launched last.
pub proof fn lemma_in_flight_bounded(config: ScanConfig, trace: Seq<Completion>)
    requires
        config.wf(),
    ensures
        after(config, trace).in_flight.finite(),
        after(config, trace).in_flight.len() <= config.batch_size,
        forall|port: int| #[trigger]
            after(config, trace).in_flight.contains(port) ==> after(config, trace).batch.holds(port),
{
    lemma_after_inv(config, trace);
}

/// The batch launched last is always a batch of the partition of the
/// range: batches are launched as the partition gives them.
pub proof fn lemma_batches_are_of_partition(config: ScanConfig, trace: Seq<Completion>)
    requires
        config.wf(),
        after(config, trace).batch.start < after(config, trace).batch.end,
    ensures
        0 <= after(config, trace).batch_of(after(config, trace).batch.start) < config.batches().len(),
        after(config, trace).batch == config.batches()[after(config, trace).batch_of(
            after(config, trace).batch.start,
        )],
{
    lemma_after_inv(config, trace);
    after(config, trace).lemma_batch_of_partition();
}

/// Probes are launched for the ports of the range in ascending order, one
/// probe for each port, and when the scan is finished every port of the
/// range has been probed.
pub proof fn lemma_each_port_probed_once(config: ScanConfig, trace: Seq<Completion>)
    requires
        config.wf(),
    ensures
        after(config, trace).probed == port_range(
            config.start as int,
            after(config, trace).batch.end as int,
        ),
        after(config, trace).probed.no_duplicates(),
        after(config, trace).finished() ==> after(config, trace).probed == config.ports(),
{
    lemma_after_inv(config, trace);
}

/// A port found in an earlier batch stands before every port found in a
/// later batch, whatever the order in which results arrived; and no port
/// is listed twice.
pub proof fn lemma_open_ports_in_batch_order(config: ScanConfig, trace: Seq<Completion>)
    requires
        config.wf(),
    ensures
        after(config, trace).open_ports.no_duplicates(),
        forall|i: int, j: int|
            0 <= i < j < after(config, trace).open_ports.len() ==> after(config, trace).batch_of(
                #[trigger] after(config, trace).open_ports[i],
            ) <= after(config, trace).batch_of(#[trigger] after(config, trace).open_ports[j]),
{
    lemma_after_inv(config, trace);
}

/// Every launched port is in flight or listed as open.
spec fn accounted(scan: ScanView) -> bool {
    forall|port: u16|
        scan.config.start <= port < scan.batch.end ==> scan.in_flight.contains(port as int)
            || #[trigger] scan.open_ports.contains(port)
}

/// While every result is a connection, every launched port is in flight
/// or listed as open, and the scan is not abandoned.
proof fn lemma_all_connected_accounted(config: ScanConfig, trace: Seq<Completion>)
    requires
        config.wf(),
        all_connected(trace),
    ensures
        accounted(after(config, trace)),
        !after(config, trace).aborted,
    decreases trace.len(),
{
    if trace.len() == 0 {
        let scan = ScanView::initial(config);
        assert(accounted(scan));
    } else {
        let before = after(config, trace.drop_last());
        let port = trace.last().port;
        assert(trace.last().attempt == ConnectResult::Connected);
        assert(all_connected(trace.drop_last())) by {
            assert forall|i: int| 0 <= i < trace.drop_last().len() implies (
            #[trigger] trace.drop_last()[i]).attempt == ConnectResult::Connected by {
                assert(trace.drop_last()[i] == trace[i]);
            }
        }
        lemma_all_connected_accounted(config, trace.drop_last());
        lemma_after_inv(config, trace.drop_last());
        if before.accepts(port) {
            let noted = before.record(port, ProbeOutcome::Open(port));
            assert(accounted(noted)) by {
                assert forall|other: u16|
                    noted.config.start <= other < noted.batch.end implies noted.in_flight.contains(
                    other as int,
                ) || #[trigger] noted.open_ports.contains(other) by {
                    if other == port {
                        assert(noted.open_ports[before.open_ports.len() as int] == port);
                    } else if before.open_ports.contains(other) {
                        let i = choose|i: int|
                            0 <= i < before.open_ports.len() && before.open_ports[i] == other;
                        assert(noted.open_ports[i] == other);
                    }
                }
            }
            let launched = noted.advance();
            assert(accounted(launched)) by {
                assert forall|other: u16|
                    launched.config.start <= other < launched.batch.end implies launched.in_flight.contains(
                    other as int,
                ) || #[trigger] launched.open_ports.contains(other) by {
                    if other < noted.batch.end {
                        assert(noted.in_flight.contains(other as int) || noted.open_ports.contains(
                            other,
                        ));
                    }
                }
            }
        }
    }
}

/// If every probe finds its port open, the finished scan lists every port of
/// the range, each exactly once.
pub proof fn lemma_all_open(config: ScanConfig, trace: Seq<Completion>)
    requires
        config.wf(),
        all_connected(trace),
        after(config, trace).finished(),
    ensures
        after(config, trace).open_ports.no_duplicates(),
        after(config, trace).open_ports.len() == config.end - config.start,
        forall|port: u16|
            after(config, trace).open_ports.contains(port) <==> config.start <= port < config.end,
{
    let scan = after(config, trace);
    lemma_after_inv(config, trace);
    lemma_all_connected_accounted(config, trace);
    assert forall|port: u16| scan.open_ports.contains(port) <==> config.start <= port
        < config.end by {
        if config.start <= port < config.end {
            assert(scan.in_flight.contains(port as int) || scan.open_ports.contains(port));
        }
    }
    assert(scan.open_ports.to_set() =~= config.ports().to_set()) by {
        assert forall|port: u16| config.ports().contains(port) <==> config.start <= port
            < config.end by {
            if config.start <= port < config.end {
                assert(config.ports()[port - config.start] == port);
            }
        }
    }
    scan.open_ports.unique_seq_to_set();
    assert(config.ports().no_duplicates());
    config.ports().unique_seq_to_set();
}

/// Once a scan is abandoned nothing changes it: no result is accepted, no
/// further probe is launched, and it has no list of open ports to show.
pub proof fn lemma_abort_is_final(config: ScanConfig, trace: Seq<Completion>, more: Seq<Completion>)
    requires
        after(config, trace).aborted,
    ensures
        after(config, trace + more) == after(config, trace),
        after(config, trace + more).result() == Err::<Seq<u16>, ScanError>(
            ScanError::ResourceExhausted,
        ),
{
    lemma_after_split(config, trace, more);
    lemma_aborted_stays(after(config, trace), more);
}

/// Results that arrive after a scan is abandoned change nothing.
proof fn lemma_aborted_stays(scan: ScanView, more: Seq<Completion>)
    requires
        scan.aborted,
    ensures
        after_from(scan, more) == scan,
    decreases more.len(),
{
    if more.len() > 0 {
        lemma_aborted_stays(scan, more.drop_last());
    }
}

/// A result that tells of exhausted sockets or descriptors, arriving for a
/// probe in flight, abandons the scan: nothing stays in flight, nothing more
/// is launched, and the caller is told `ResourceExhausted`.
pub proof fn lemma_exhaustion_aborts(scan: ScanView, port: u16, attempt: ConnectResult)
    requires
        scan.accepts(port),
        attempt.is_fatal(),
    ensures
        scan.complete(port, attempt).aborted,
        scan.complete(port, attempt).in_flight.is_empty(),
        scan.complete(port, attempt).probed == scan.probed,
        scan.complete(port, attempt).open_ports == scan.open_ports,
        scan.reply(port, attempt) == Err::<crate::scan::Step, ScanError>(ScanError::ResourceExhausted),
{
}

/// Over an empty range a scan is finished before it begins: no probe is
/// launched, no result is accepted, and the list of open ports is empty.
pub proof fn lemma_empty_range(config: ScanConfig, trace: Seq<Completion>)
    requires
        config.start == config.end,
    ensures
        after(config, trace) == ScanView::idle(config),
        after(config, trace).finished(),
        after(config, trace).probed.len() == 0,
        after(config, trace).result() == Ok::<Seq<u16>, ScanError>(Seq::empty()),
        run_result(config, Seq::empty()) == Ok::<Seq<u16>, ScanError>(Seq::empty()),
    decreases trace.len(),
{
    if trace.len() > 0 {
        lemma_empty_range(config, trace.drop_last());
    }
}

} // verus!
