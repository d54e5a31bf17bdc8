//! Scans told from their results alone: which sequences of results make a
//! whole scan, and what a scan yields for any sequence.

use crate::batch::batch_index;
use crate::probe::{probe_verdict, Completion, ScanError};
use crate::scan::ScanView;
use crate::scanner::ScanConfig;
use crate::trace::{
    after, all_connected, lemma_after_inv, lemma_all_open, lemma_open_ports_in_batch_order,
    lemma_replay_error_stays, replay, run_result,
};
use vstd::prelude::*;

verus! {

/// The ports that the results in `trace` found open, in the order of arrival.
pub open spec fn open_in(trace: Seq<Completion>) -> Seq<u16> {
    trace.filter(|c: Completion| c.attempt.is_connected()).map_values(|c: Completion| c.port)
}

/// Result number `i` of `trace` arrives in its turn: results are still
/// awaited, it is for a port of the range that no earlier result was for,
/// and it arrives while the batch of that port is in flight. Since every
/// batch but the last is full, that is batch number `i / batch_size`.
pub open spec fn in_turn(config: ScanConfig, trace: Seq<Completion>, i: int) -> bool {
    &&& i < config.end - config.start
    &&& config.start <= trace[i].port < config.end
    &&& batch_index(config.start as int, config.batch_size as int, trace[i].port as int) == i / (
    config.batch_size as int)
    &&& forall|j: int| 0 <= j < i ==> (#[trigger] trace[j]).port != trace[i].port
}

/// Every result of `trace` arrives in its turn.
pub open spec fn orderly(config: ScanConfig, trace: Seq<Completion>) -> bool {
    forall|i: int| 0 <= i < trace.len() ==> #[trigger] in_turn(config, trace, i)
}

/// No result of `trace` tells of exhausted sockets or descriptors.
pub open spec fn none_fatal(trace: Seq<Completion>) -> bool {
    forall|i: int| 0 <= i < trace.len() ==> !(#[trigger] trace[i]).attempt.is_fatal()
}

/// Result number `at` of `trace` is the first that tells of exhausted
/// sockets or descriptors, and it and all before it arrive in their turn.
pub open spec fn exhausted_at(config: ScanConfig, trace: Seq<Completion>, at: int) -> bool {
    &&& 0 <= at < trace.len()
    &&& orderly(config, trace.take(at + 1))
    &&& none_fatal(trace.take(at))
    &&& trace[at].attempt.is_fatal()
}

/// Result number `at` of `trace` is the first that arrives out of turn, and
/// none before it is fatal.
pub open spec fn out_of_turn_at(config: ScanConfig, trace: Seq<Completion>, at: int) -> bool {
    &&& 0 <= at < trace.len()
    &&& orderly(config, trace.take(at))
    &&& none_fatal(trace.take(at))
    &&& !in_turn(config, trace, at)
}

/// Result number `at` of `trace` is the first fault: the first that is
/// fatal or arrives out of turn.
pub open spec fn first_fault_at(config: ScanConfig, trace: Seq<Completion>, at: int) -> bool {
    out_of_turn_at(config, trace, at) || exhausted_at(config, trace, at)
}

/// One of the first `i` results of `trace` is for `port`.
spec fn seen(trace: Seq<Completion>, i: int, port: int) -> bool {
    exists|j: int| 0 <= j < i && (#[trigger] trace[j]).port == port
}

/// The first `i` results of `trace` were all accepted and none was fatal,
/// and the scan stands where that leaves it.
spec fn on_course(config: ScanConfig, trace: Seq<Completion>, i: int) -> bool {
    let scan = after(config, trace.take(i));
    &&& replay(config, trace.take(i)) == Ok::<ScanView, ScanError>(scan)
    &&& !scan.aborted
    &&& scan.open_ports == open_in(trace.take(i))
    &&& scan.in_flight.len() == scan.batch.end - config.start - i
    &&& forall|j: int|
        0 <= j < i ==> (#[trigger] trace[j]).port < scan.batch.end && !scan.in_flight.contains(
            trace[j].port as int,
        )
    &&& forall|port: int|
        scan.batch.holds(port) && !(#[trigger] scan.in_flight.contains(port)) ==> seen(
            trace,
            i,
            port,
        )
}

/// The ports of a batch in flight are those of the range with its batch number.
proof fn lemma_batch_span(scan: ScanView, port: int)
    requires
        scan.inv(),
        scan.batch.start < scan.batch.end,
        scan.config.start <= port < scan.config.end,
    ensures
        scan.batch.holds(port) <==> batch_index(
            scan.config.start as int,
            scan.config.batch_size as int,
            port,
        ) == (scan.batch.start - scan.config.start) / (scan.config.batch_size as int),
{
    let start = scan.config.start as int;
    let size = scan.config.batch_size as int;
    let bs = scan.batch.start as int;
    let be = scan.batch.end as int;
    let k = (bs - start) / size;
    vstd::arithmetic::div_mod::lemma_fundamental_div_mod(bs - start, size);
    assert(size * k == k * size) by (nonlinear_arith);
    if be < scan.config.end {
        scan.lemma_full_batch();
    }
    if scan.batch.holds(port) {
        vstd::arithmetic::div_mod::lemma_fundamental_div_mod_converse(
            port - start,
            size,
            k,
            port - bs,
        );
    }
    if batch_index(start, size, port) == k {
        vstd::arithmetic::div_mod::lemma_fundamental_div_mod(port - start, size);
        vstd::arithmetic::div_mod::lemma_mod_bound(port - start, size);
    }
}

/// The results awaited of a batch in flight are those whose place in the
/// order of arrival has the batch's number.
proof fn lemma_turn_in_batch(scan: ScanView, i: int)
    requires
        scan.inv(),
        scan.batch.start - scan.config.start <= i < scan.batch.end - scan.config.start,
    ensures
        i / (scan.config.batch_size as int) == (scan.batch.start - scan.config.start) / (
        scan.config.batch_size as int),
{
    let start = scan.config.start as int;
    let size = scan.config.batch_size as int;
    let bs = scan.batch.start as int;
    let k = (bs - start) / size;
    vstd::arithmetic::div_mod::lemma_fundamental_div_mod(bs - start, size);
    assert(size * k == k * size) by (nonlinear_arith);
    vstd::arithmetic::div_mod::lemma_fundamental_div_mod_converse(i, size, k, i - (bs - start));
}

/// What `open_in` makes of one more result.
proof fn lemma_open_in_step(trace: Seq<Completion>, i: int)
    requires
        0 <= i < trace.len(),
    ensures
        open_in(trace.take(i + 1)) == if trace[i].attempt.is_connected() {
            open_in(trace.take(i)).push(trace[i].port)
        } else {
            open_in(trace.take(i))
        },
{
    reveal(Seq::filter);
    assert(trace.take(i + 1).drop_last() =~= trace.take(i));
    assert(trace.take(i + 1).last() == trace[i]);
    if trace[i].attempt.is_connected() {
        assert(open_in(trace.take(i + 1)) =~= open_in(trace.take(i)).push(trace[i].port));
    }
}

/// Before any result has arrived the scan is on course.
proof fn lemma_on_course_begin(config: ScanConfig, trace: Seq<Completion>)
    requires
        config.wf(),
    ensures
        on_course(config, trace, 0),
{
    reveal(Seq::filter);
    let scan = ScanView::initial(config);
    ScanView::lemma_initial_inv(config);
    assert(trace.take(0) =~= Seq::<Completion>::empty());
    assert(open_in(trace.take(0)) =~= Seq::<u16>::empty());
    if config.start < config.end {
        vstd::set_lib::lemma_int_range(scan.batch.start as int, scan.batch.end as int);
    }
}

/// On course, a result is accepted exactly if it arrives in its turn; and
/// if it is accepted and not fatal, the scan stays on course.
proof fn lemma_on_course_step(config: ScanConfig, trace: Seq<Completion>, i: int)
    requires
        config.wf(),
        0 <= i < trace.len(),
        on_course(config, trace, i),
    ensures
        after(config, trace.take(i)).accepts(trace[i].port) <==> in_turn(config, trace, i),
        in_turn(config, trace, i) && !trace[i].attempt.is_fatal() ==> on_course(config, trace, i + 1),
{
    let scan = after(config, trace.take(i));
    let port = trace[i].port;
    let attempt = trace[i].attempt;
    lemma_after_inv(config, trace.take(i));
    assert(trace.take(i + 1).drop_last() =~= trace.take(i));
    assert(trace.take(i + 1).last() == trace[i]);
    if scan.accepts(port) {
        lemma_batch_span(scan, port as int);
        lemma_turn_in_batch(scan, i);
        assert(in_turn(config, trace, i));
    }
    if in_turn(config, trace, i) {
        if scan.in_flight.is_empty() {
            assert(scan.in_flight.len() == 0);
        }
        assert(scan.in_flight.len() > 0);
        lemma_batch_span(scan, port as int);
        lemma_turn_in_batch(scan, i);
        assert(scan.batch.holds(port as int));
        if !scan.in_flight.contains(port as int) {
            assert(seen(trace, i, port as int));
        }
        assert(scan.accepts(port));
        if !attempt.is_fatal() {
            let report = probe_verdict(config.quiet, port, attempt)->Ok_0;
            let noted = scan.record(port, report.outcome);
            let next = noted.advance();
            scan.lemma_record_inv(port, report.outcome);
            noted.lemma_advance_inv();
            lemma_open_in_step(trace, i);
            assert(next == after(config, trace.take(i + 1)));
            assert(forall|j: int|
                0 <= j < i + 1 ==> (#[trigger] trace[j]).port < noted.batch.end
                    && !noted.in_flight.contains(trace[j].port as int));
            assert forall|other: int|
                noted.batch.holds(other) && !(#[trigger] noted.in_flight.contains(
                    other,
                )) implies seen(trace, i + 1, other) by {
                if other == port {
                    assert(trace[i].port == other);
                } else {
                    assert(seen(trace, i, other));
                    let j = choose|j: int| 0 <= j < i && (#[trigger] trace[j]).port == other;
                    assert(trace[j].port == other);
                }
            }
            if noted.can_launch() {
                vstd::set_lib::lemma_int_range(next.batch.start as int, next.batch.end as int);
            }
            assert(on_course(config, trace, i + 1));
        }
    }
}

/// As long as results arrive in their turn and none is fatal, the scan is on course.
proof fn lemma_orderly_on_course(config: ScanConfig, trace: Seq<Completion>, i: int)
    requires
        config.wf(),
        0 <= i <= trace.len(),
        orderly(config, trace.take(i)),
        none_fatal(trace.take(i)),
    ensures
        on_course(config, trace, i),
    decreases i,
{
    if i == 0 {
        lemma_on_course_begin(config, trace);
    } else {
        lemma_faultless_prefix(config, trace, i, i - 1);
        lemma_orderly_on_course(config, trace, i - 1);
        lemma_on_course_step(config, trace, i - 1);
        lemma_in_turn_of_prefix(config, trace, i, i - 1);
        assert(in_turn(config, trace.take(i), i - 1));
        assert(trace.take(i)[i - 1] == trace[i - 1]);
    }
}

/// Whether a result arrives in its turn depends on the results up to it alone.
proof fn lemma_in_turn_of_prefix(config: ScanConfig, trace: Seq<Completion>, n: int, i: int)
    requires
        0 <= i < n <= trace.len(),
    ensures
        in_turn(config, trace.take(n), i) == in_turn(config, trace, i),
{
    let prefix = trace.take(n);
    assert(prefix[i] == trace[i]);
    if in_turn(config, trace, i) {
        assert forall|j: int| 0 <= j < i implies (#[trigger] prefix[j]).port != prefix[i].port by {
            assert(prefix[j] == trace[j]);
        }
    }
    if in_turn(config, prefix, i) {
        assert forall|j: int| 0 <= j < i implies (#[trigger] trace[j]).port != trace[i].port by {
            assert(prefix[j] == trace[j]);
        }
    }
}

/// A sequence of results that were all accepted, none of them fatal, is orderly.
proof fn lemma_replay_ok_on_course(config: ScanConfig, trace: Seq<Completion>, i: int)
    requires
        config.wf(),
        0 <= i <= trace.len(),
        replay(config, trace.take(i)) is Ok,
    ensures
        on_course(config, trace, i),
        orderly(config, trace.take(i)),
        none_fatal(trace.take(i)),
    decreases i,
{
    if i == 0 {
        lemma_on_course_begin(config, trace);
    } else {
        assert(trace.take(i).drop_last() =~= trace.take(i - 1));
        assert(trace.take(i).last() == trace[i - 1]);
        lemma_replay_ok_on_course(config, trace, i - 1);
        lemma_on_course_step(config, trace, i - 1);
        lemma_faultless_extend(config, trace, i - 1);
    }
}

/// Where one result arrives for every port of the range, each in its turn,
/// and none is fatal, the scan yields the ports found open, in the order of
/// arrival. Where such results end early, the scan is incomplete.
pub proof fn lemma_run_orderly(config: ScanConfig, trace: Seq<Completion>)
    requires
        config.wf(),
        orderly(config, trace),
        none_fatal(trace),
    ensures
        run_result(config, trace) == if trace.len() == config.end - config.start {
            Ok::<Seq<u16>, ScanError>(open_in(trace))
        } else {
            Err::<Seq<u16>, ScanError>(ScanError::Incomplete)
        },
{
    let scan = after(config, trace);
    assert(trace.take(trace.len() as int) =~= trace);
    lemma_orderly_on_course(config, trace, trace.len() as int);
    lemma_after_inv(config, trace);
    if trace.len() == config.end - config.start {
        scan.in_flight.lemma_len0_is_empty();
    } else if scan.in_flight.is_empty() {
        assert(scan.in_flight.len() == 0);
    }
}

/// A scan yields a list only where one result arrived for every port of the
/// range, each in its turn, and none was fatal; and the list is then that of
/// the ports found open, in the order of arrival.
pub proof fn lemma_run_ok(config: ScanConfig, trace: Seq<Completion>)
    requires
        config.wf(),
        run_result(config, trace) is Ok,
    ensures
        orderly(config, trace),
        none_fatal(trace),
        trace.len() == config.end - config.start,
        run_result(config, trace) == Ok::<Seq<u16>, ScanError>(open_in(trace)),
{
    assert(trace.take(trace.len() as int) =~= trace);
    lemma_replay_ok_on_course(config, trace, trace.len() as int);
    lemma_after_inv(config, trace);
    assert(after(config, trace).in_flight.len() == 0);
}

/// The first result that tells of exhausted sockets or descriptors ends the
/// scan with `ResourceExhausted`, whatever follows it, if the results up to
/// it arrived in their turn.
pub proof fn lemma_run_exhausted(config: ScanConfig, trace: Seq<Completion>, at: int)
    requires
        config.wf(),
        exhausted_at(config, trace, at),
    ensures
        run_result(config, trace) == Err::<Seq<u16>, ScanError>(ScanError::ResourceExhausted),
{
    assert(orderly(config, trace.take(at))) by {
        assert forall|j: int| 0 <= j < at implies #[trigger] in_turn(config, trace.take(at), j) by {
            assert(in_turn(config, trace.take(at + 1), j));
            lemma_in_turn_of_prefix(config, trace, at + 1, j);
            lemma_in_turn_of_prefix(config, trace, at, j);
        }
    }
    lemma_orderly_on_course(config, trace, at);
    lemma_on_course_step(config, trace, at);
    assert(in_turn(config, trace.take(at + 1), at));
    lemma_in_turn_of_prefix(config, trace, at + 1, at);
    assert(trace.take(at + 1).drop_last() =~= trace.take(at));
    assert(trace.take(at + 1).last() == trace[at]);
    lemma_replay_error_stays(config, trace, at + 1);
}

/// The first result that arrives out of turn ends the scan with
/// `UnexpectedCompletion`, if none before it was fatal.
pub proof fn lemma_run_out_of_turn(config: ScanConfig, trace: Seq<Completion>, at: int)
    requires
        config.wf(),
        out_of_turn_at(config, trace, at),
    ensures
        run_result(config, trace) == Err::<Seq<u16>, ScanError>(ScanError::UnexpectedCompletion),
{
    lemma_orderly_on_course(config, trace, at);
    lemma_on_course_step(config, trace, at);
    assert(trace.take(at + 1).drop_last() =~= trace.take(at));
    assert(trace.take(at + 1).last() == trace[at]);
    lemma_replay_error_stays(config, trace, at + 1);
}

/// The first `at` results of an orderly sequence without a fatal result
/// are orderly too, and none of them is fatal.
proof fn lemma_faultless_prefix(config: ScanConfig, trace: Seq<Completion>, n: int, at: int)
    requires
        0 <= at <= n <= trace.len(),
        orderly(config, trace.take(n)),
        none_fatal(trace.take(n)),
    ensures
        orderly(config, trace.take(at)),
        none_fatal(trace.take(at)),
{
    assert forall|j: int| 0 <= j < at implies #[trigger] in_turn(config, trace.take(at), j) by {
        assert(in_turn(config, trace.take(n), j));
        lemma_in_turn_of_prefix(config, trace, n, j);
        lemma_in_turn_of_prefix(config, trace, at, j);
    }
    assert forall|j: int| 0 <= j < at implies !(#[trigger] trace.take(at)[j]).attempt.is_fatal() by {
        assert(trace.take(n)[j] == trace.take(at)[j]);
    }
}

/// An orderly sequence without a fatal result stays so with one more
/// result that arrives in its turn and is not fatal.
proof fn lemma_faultless_extend(config: ScanConfig, trace: Seq<Completion>, at: int)
    requires
        0 <= at < trace.len(),
        orderly(config, trace.take(at)),
        none_fatal(trace.take(at)),
        in_turn(config, trace, at),
    ensures
        orderly(config, trace.take(at + 1)),
        !trace[at].attempt.is_fatal() ==> none_fatal(trace.take(at + 1)),
{
    assert forall|j: int| 0 <= j < at + 1 implies #[trigger] in_turn(config, trace.take(at + 1), j) by {
        lemma_in_turn_of_prefix(config, trace, at + 1, j);
        if j < at {
            assert(in_turn(config, trace.take(at), j));
            lemma_in_turn_of_prefix(config, trace, at, j);
        }
    }
    if !trace[at].attempt.is_fatal() {
        assert forall|j: int| 0 <= j < at + 1 implies !(#[trigger] trace.take(at + 1)[j]).attempt.is_fatal() by {
            if j < at {
                assert(trace.take(at)[j] == trace.take(at + 1)[j]);
            }
        }
    }
}

/// Either the first `n` results of `trace` arrive in their turn and none
/// is fatal, or one of them is the first fault.
proof fn lemma_first_fault(config: ScanConfig, trace: Seq<Completion>, n: int)
    requires
        0 <= n <= trace.len(),
    ensures
        (orderly(config, trace.take(n)) && none_fatal(trace.take(n))) || exists|at: int|
            0 <= at < n && #[trigger] first_fault_at(config, trace, at),
    decreases n,
{
    if n > 0 {
        lemma_first_fault(config, trace, n - 1);
        if orderly(config, trace.take(n - 1)) && none_fatal(trace.take(n - 1)) {
            let at = n - 1;
            if in_turn(config, trace, at) {
                lemma_faultless_extend(config, trace, at);
                if trace[at].attempt.is_fatal() {
                    assert(first_fault_at(config, trace, at));
                }
            } else {
                assert(first_fault_at(config, trace, at));
            }
        } else {
            let at = choose|at: int| 0 <= at < n - 1 && #[trigger] first_fault_at(config, trace, at);
            assert(first_fault_at(config, trace, at));
        }
    } else {
        assert(trace.take(0) =~= Seq::<Completion>::empty());
    }
}

/// What a scan yields, told from the results alone: a list exactly where
/// one result arrives for every port, each in its turn and none fatal, and
/// then the ports found open in the order of arrival; `ResourceExhausted`
/// exactly where a fatal result is the first fault; `UnexpectedCompletion`
/// exactly where a result out of turn is; and `Incomplete` exactly where
/// faultless results end early.
pub proof fn lemma_run_verdict(config: ScanConfig, trace: Seq<Completion>)
    requires
        config.wf(),
    ensures
        run_result(config, trace) is Ok <==> orderly(config, trace) && none_fatal(trace)
            && trace.len() == config.end - config.start,
        run_result(config, trace) is Ok ==> run_result(config, trace) == Ok::<Seq<u16>, ScanError>(
            open_in(trace),
        ),
        run_result(config, trace) == Err::<Seq<u16>, ScanError>(ScanError::ResourceExhausted)
            <==> exists|at: int| exhausted_at(config, trace, at),
        run_result(config, trace) == Err::<Seq<u16>, ScanError>(ScanError::UnexpectedCompletion)
            <==> exists|at: int| out_of_turn_at(config, trace, at),
        run_result(config, trace) == Err::<Seq<u16>, ScanError>(ScanError::Incomplete) <==> orderly(
            config,
            trace,
        ) && none_fatal(trace) && trace.len() < config.end - config.start,
{
    assert(trace.take(trace.len() as int) =~= trace);
    lemma_first_fault(config, trace, trace.len() as int);
    if !(orderly(config, trace) && none_fatal(trace)) {
        let at = choose|at: int| 0 <= at < trace.len() && #[trigger] first_fault_at(config, trace, at);
        if out_of_turn_at(config, trace, at) {
            lemma_run_out_of_turn(config, trace, at);
        } else {
            lemma_run_exhausted(config, trace, at);
        }
    }
    if run_result(config, trace) is Ok {
        lemma_run_ok(config, trace);
    }
    if orderly(config, trace) && none_fatal(trace) {
        lemma_run_orderly(config, trace);
        assert(trace.len() <= config.end - config.start) by {
            if trace.len() > 0 {
                assert(in_turn(config, trace, trace.len() - 1));
            }
        }
    }
    assert forall|at: int| exhausted_at(config, trace, at) implies run_result(config, trace) == Err::<
        Seq<u16>,
        ScanError,
    >(ScanError::ResourceExhausted) by {
        lemma_run_exhausted(config, trace, at);
    }
    assert forall|at: int| out_of_turn_at(config, trace, at) implies run_result(config, trace)
        == Err::<Seq<u16>, ScanError>(ScanError::UnexpectedCompletion) by {
        lemma_run_out_of_turn(config, trace, at);
    }
}

/// If every probe finds its port open, a whole scan yields every port of
/// the range, each exactly once, and every port of an earlier batch before
/// every port of a later one, whatever the order of arrival within a batch.
pub proof fn lemma_run_all_open(config: ScanConfig, trace: Seq<Completion>)
    requires
        config.wf(),
        orderly(config, trace),
        all_connected(trace),
        trace.len() == config.end - config.start,
    ensures
        run_result(config, trace) == Ok::<Seq<u16>, ScanError>(open_in(trace)),
        open_in(trace).len() == config.end - config.start,
        open_in(trace).no_duplicates(),
        forall|port: u16| open_in(trace).contains(port) <==> config.start <= port < config.end,
        forall|i: int, j: int|
            0 <= i < j < open_in(trace).len() ==> batch_index(
                config.start as int,
                config.batch_size as int,
                #[trigger] open_in(trace)[i] as int,
            ) <= batch_index(
                config.start as int,
                config.batch_size as int,
                #[trigger] open_in(trace)[j] as int,
            ),
{
    assert(none_fatal(trace));
    lemma_run_orderly(config, trace);
    assert(trace.take(trace.len() as int) =~= trace);
    lemma_orderly_on_course(config, trace, trace.len() as int);
    lemma_after_inv(config, trace);
    after(config, trace).in_flight.lemma_len0_is_empty();
    lemma_all_open(config, trace);
    lemma_open_ports_in_batch_order(config, trace);
}

/// Whether results arrive in their turn depends on the range and the
/// batch size alone.
proof fn lemma_orderly_of_like_configs(a: ScanConfig, b: ScanConfig, trace: Seq<Completion>)
    requires
        a.start == b.start,
        a.end == b.end,
        a.batch_size == b.batch_size,
    ensures
        orderly(a, trace) == orderly(b, trace),
{
    if orderly(a, trace) {
        assert forall|i: int| 0 <= i < trace.len() implies #[trigger] in_turn(b, trace, i) by {
            assert(in_turn(a, trace, i));
        }
    }
    if orderly(b, trace) {
        assert forall|i: int| 0 <= i < trace.len() implies #[trigger] in_turn(a, trace, i) by {
            assert(in_turn(b, trace, i));
        }
    }
}

/// What a scan yields depends on the range and the batch size alone: the
/// host, the timeout, quietness and the address family have no part in it.
pub proof fn lemma_run_of_like_configs(a: ScanConfig, b: ScanConfig, trace: Seq<Completion>)
    requires
        a.wf(),
        b.wf(),
        a.start == b.start,
        a.end == b.end,
        a.batch_size == b.batch_size,
    ensures
        run_result(a, trace) == run_result(b, trace),
{
    lemma_run_verdict(a, trace);
    lemma_run_verdict(b, trace);
    lemma_orderly_of_like_configs(a, b, trace);
    assert forall|at: int| exhausted_at(a, trace, at) == exhausted_at(b, trace, at) by {
        if 0 <= at < trace.len() {
            lemma_orderly_of_like_configs(a, b, trace.take(at + 1));
        }
    }
    assert forall|at: int| out_of_turn_at(a, trace, at) == out_of_turn_at(b, trace, at) by {
        if 0 <= at < trace.len() {
            lemma_orderly_of_like_configs(a, b, trace.take(at));
        }
    }
    match run_result(a, trace) {
        Ok(_) => {},
        Err(ScanError::ResourceExhausted) => {
            let at = choose|at: int| exhausted_at(a, trace, at);
            assert(exhausted_at(b, trace, at));
        },
        Err(ScanError::UnexpectedCompletion) => {
            let at = choose|at: int| out_of_turn_at(a, trace, at);
            assert(out_of_turn_at(b, trace, at));
        },
        Err(ScanError::Incomplete) => {},
    }
}

} // verus!
