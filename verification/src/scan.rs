//! A scan in progress: which probes are in flight, what has been found, and
//! what happens when a probe's result arrives.

use crate::batch::{batch_from, batch_index, batch_limit, port_range, Batch};
use crate::probe::{probe_verdict, ConnectResult, ProbeOutcome, ProbeReport, ScanError};
use crate::scanner::{ScanConfig, Scanner};
use vstd::prelude::*;
use vstd::set_lib::{lemma_int_range, set_int_range};

verus! {

/// What the arrival of one result led to.
#[derive(Clone, Copy, Debug, PartialEq, Eq, Structural)]
pub struct Step {
    /// What the probe found.
    pub report: ProbeReport,
    /// The batch to probe next, if this result was the last one awaited of
    /// its batch and ports are left.
    pub launch: Option<Batch>,
}

/// The state of a scan.
pub struct ScanView {
    pub config: ScanConfig,
    /// The batch launched last; empty before the first launch.
    pub batch: Batch,
    /// The ports whose probes have been launched and have not yet settled.
    pub in_flight: Set<int>,
    /// Every port for which a probe was launched, in the order of launch.
    pub probed: Seq<u16>,
    /// The ports found open, in the order in which their results arrived.
    pub open_ports: Seq<u16>,
    /// Whether the scan was abandoned for want of sockets or descriptors.
    pub aborted: bool,
}

impl ScanView {
    /// The scan before any probe is launched.
    pub open spec fn idle(config: ScanConfig) -> ScanView {
        ScanView {
            config,
            batch: Batch { start: config.start, end: config.start },
            in_flight: Set::empty(),
            probed: Seq::empty(),
            open_ports: Seq::empty(),
            aborted: false,
        }
    }

    /// A new batch is launched only when no probe is in flight, the scan has
    /// not been abandoned, and ports are left.
    pub open spec fn can_launch(self) -> bool {
        &&& !self.aborted
        &&& self.in_flight.is_empty()
        &&& self.batch.end < self.config.end
    }

    /// The batch that follows the one launched last.
    pub open spec fn next_batch(self) -> Batch {
        Batch {
            start: self.batch.end,
            end: batch_limit(
                self.batch.end as int,
                self.config.end as int,
                self.config.batch_size as int,
            ) as u16,
        }
    }

    /// The scan after the next batch is launched: all of its ports are in flight.
    pub open spec fn launch(self) -> ScanView {
        let next = self.next_batch();
        ScanView {
            batch: next,
            in_flight: set_int_range(next.start as int, next.end as int),
            probed: self.probed + next.ports(),
            ..self
        }
    }

    /// The scan after the next batch is launched, if one can be.
    pub open spec fn advance(self) -> ScanView {
        if self.can_launch() {
            self.launch()
        } else {
            self
        }
    }

    /// The scan at its beginning: the first batch is in flight.
    pub open spec fn initial(config: ScanConfig) -> ScanView {
        ScanView::idle(config).advance()
    }

    /// A result is accepted for a port whose probe is in flight.
    pub open spec fn accepts(self, port: u16) -> bool {
        !self.aborted && self.in_flight.contains(port as int)
    }

    /// The scan after the probe of `port` is taken out of flight and its
    /// outcome is noted.
    pub open spec fn record(self, port: u16, outcome: ProbeOutcome) -> ScanView {
        ScanView {
            in_flight: self.in_flight.remove(port as int),
            open_ports: match outcome {
                ProbeOutcome::Open(open) => self.open_ports.push(open),
                ProbeOutcome::Closed => self.open_ports,
            },
            ..self
        }
    }

    /// The scan after everything is dropped for want of sockets or descriptors.
    pub open spec fn abort(self) -> ScanView {
        ScanView { in_flight: Set::empty(), aborted: true, ..self }
    }

    /// The scan after the result `attempt` arrives for `port`. A result that
    /// is not accepted changes nothing. A fatal one abandons the scan.
    /// Any other is recorded, and if it was the last one awaited, the next
    /// batch is launched.
    pub open spec fn complete(self, port: u16, attempt: ConnectResult) -> ScanView {
        if !self.accepts(port) {
            self
        } else {
            match probe_verdict(self.config.quiet, port, attempt) {
                Ok(report) => self.record(port, report.outcome).advance(),
                Err(_) => self.abort(),
            }
        }
    }

    /// What the caller is told when the result `attempt` arrives for `port`.
    pub open spec fn reply(self, port: u16, attempt: ConnectResult) -> Result<Step, ScanError> {
        if self.aborted {
            Err(ScanError::ResourceExhausted)
        } else if !self.in_flight.contains(port as int) {
            Err(ScanError::UnexpectedCompletion)
        } else {
            match probe_verdict(self.config.quiet, port, attempt) {
                Ok(report) => Ok(
                    Step {
                        report,
                        launch: if self.record(port, report.outcome).can_launch() {
                            Some(self.record(port, report.outcome).next_batch())
                        } else {
                            None
                        },
                    },
                ),
                Err(error) => Err(error),
            }
        }
    }

    /// Every port has been probed and every probe has settled.
    pub open spec fn finished(self) -> bool {
        &&& !self.aborted
        &&& self.in_flight.is_empty()
        &&& self.batch.end == self.config.end
    }

    /// What the scan has to show: the open ports once it is finished, and no
    /// list at all if it was abandoned or is still under way.
    pub open spec fn result(self) -> Result<Seq<u16>, ScanError> {
        if self.aborted {
            Err(ScanError::ResourceExhausted)
        } else if self.finished() {
            Ok(self.open_ports)
        } else {
            Err(ScanError::Incomplete)
        }
    }

    /// The number of the batch that `port` belongs to.
    pub open spec fn batch_of(self, port: u16) -> int {
        batch_index(self.config.start as int, self.config.batch_size as int, port as int)
    }

    /// What holds of a scan at every moment, also between the arrival of a
    /// result and the launch that may follow it.
    pub open spec fn base_inv(self) -> bool {
        &&& self.config.wf()
        &&& self.config.start <= self.batch.start <= self.batch.end <= self.config.end
        &&& self.batch.end - self.batch.start <= self.config.batch_size
        &&& (self.batch.start - self.config.start) % (self.config.batch_size as int) == 0
        &&& self.batch.end < self.config.end ==> (self.batch.end - self.config.start) % (
        self.config.batch_size as int) == 0
        &&& self.in_flight.finite()
        &&& self.in_flight.subset_of(set_int_range(self.batch.start as int, self.batch.end as int))
        &&& self.in_flight.len() <= self.batch.end - self.batch.start
        &&& self.probed == port_range(self.config.start as int, self.batch.end as int)
        &&& self.open_ports.no_duplicates()
        &&& forall|i: int|
            0 <= i < self.open_ports.len() ==> {
                &&& self.config.start <= #[trigger] self.open_ports[i] < self.batch.end
                &&& !self.in_flight.contains(self.open_ports[i] as int)
            }
        &&& forall|i: int, j: int|
            0 <= i < j < self.open_ports.len() ==> self.batch_of(#[trigger] self.open_ports[i])
                <= self.batch_of(#[trigger] self.open_ports[j])
        &&& self.aborted ==> self.in_flight.is_empty()
    }

    /// What holds of a scan whenever it waits for a result: besides the
    /// above, that probes are in flight unless the scan is over.
    pub open spec fn inv(self) -> bool {
        &&& self.base_inv()
        &&& !self.aborted && self.in_flight.is_empty() ==> self.batch.end == self.config.end
    }

    /// Launching the next batch, where one can be launched, leaves the scan waiting.
    pub proof fn lemma_advance_inv(self)
        requires
            self.base_inv(),
        ensures
            self.advance().inv(),
    {
        if self.can_launch() {
            let next = self.next_batch();
            let after = self.launch();
            let start = self.config.start as int;
            let size = self.config.batch_size as int;
            lemma_int_range(next.start as int, next.end as int);
            crate::batch::lemma_port_range_join(start, next.start as int, next.end as int);
            assert(after.in_flight.contains(next.start as int));
            if next.end < self.config.end {
                vstd::arithmetic::div_mod::lemma_mod_add_multiples_vanish(next.start - start, size);
            }
        }
    }

    /// All ports of the batch in flight have the same batch number, and no
    /// port before them has a higher one.
    pub proof fn lemma_batch_numbers(self, port: u16, earlier: u16)
        requires
            self.base_inv(),
            self.batch.holds(port as int),
            self.config.start <= earlier < self.batch.end,
        ensures
            self.batch_of(earlier) <= self.batch_of(port),
    {
        let start = self.config.start as int;
        let size = self.config.batch_size as int;
        let first = self.batch.start - start;
        let k = first / size;
        vstd::arithmetic::div_mod::lemma_fundamental_div_mod(first, size);
        assert(size * k == k * size) by (nonlinear_arith);
        vstd::arithmetic::div_mod::lemma_fundamental_div_mod_converse(
            port - start,
            size,
            k,
            port - self.batch.start,
        );
        if earlier < self.batch.start {
            vstd::arithmetic::div_mod::lemma_div_is_ordered(earlier - start, port - start, size);
        } else {
            vstd::arithmetic::div_mod::lemma_fundamental_div_mod_converse(
                earlier - start,
                size,
                k,
                earlier - self.batch.start,
            );
        }
    }

    /// A batch that is not the last one of its range holds `batch_size` ports.
    pub proof fn lemma_full_batch(self)
        requires
            self.base_inv(),
            self.batch.start < self.batch.end < self.config.end,
        ensures
            self.batch.end == self.batch.start + self.config.batch_size,
    {
        let start = self.config.start as int;
        let size = self.config.batch_size as int;
        let k = (self.batch.start - start) / size;
        let m = (self.batch.end - start) / size;
        vstd::arithmetic::div_mod::lemma_fundamental_div_mod(self.batch.start - start, size);
        vstd::arithmetic::div_mod::lemma_fundamental_div_mod(self.batch.end - start, size);
        assert(size * k == k * size) by (nonlinear_arith);
        assert(size * m == m * size) by (nonlinear_arith);
        assert(m == k + 1) by (nonlinear_arith)
            requires
                size >= 1,
                0 < m * size - k * size <= size,
        ;
        assert((k + 1) * size == k * size + size) by (nonlinear_arith);
    }

    /// The batch launched last is a batch of the partition of the range:
    /// the one that its first port falls in.
    pub proof fn lemma_batch_of_partition(self)
        requires
            self.base_inv(),
            self.batch.start < self.batch.end,
        ensures
            0 <= self.batch_of(self.batch.start) < self.config.batches().len(),
            self.batch == self.config.batches()[self.batch_of(self.batch.start)],
    {
        let start = self.config.start as int;
        let end = self.config.end as int;
        let size = self.config.batch_size as int;
        let k = self.batch_of(self.batch.start);
        crate::batch::lemma_port_in_one_batch(start, end, size, self.batch.start as int);
        crate::batch::lemma_partition_shape(start, end, size);
        vstd::arithmetic::div_mod::lemma_fundamental_div_mod(self.batch.start - start, size);
        assert(size * k == k * size) by (nonlinear_arith);
        if self.batch.end < end {
            self.lemma_full_batch();
        }
    }

    /// Noting the outcome of a probe in flight keeps what holds at every moment.
    pub proof fn lemma_record_inv(self, port: u16, outcome: ProbeOutcome)
        requires
            self.inv(),
            self.accepts(port),
            outcome == ProbeOutcome::Open(port) || outcome == ProbeOutcome::Closed,
        ensures
            self.record(port, outcome).base_inv(),
    {
        let after = self.record(port, outcome);
        if outcome == ProbeOutcome::Open(port) {
            assert forall|i: int, j: int| 0 <= i < j < after.open_ports.len() implies after.batch_of(
                #[trigger] after.open_ports[i],
            ) <= after.batch_of(#[trigger] after.open_ports[j]) by {
                if j == self.open_ports.len() {
                    self.lemma_batch_numbers(port, self.open_ports[i]);
                }
            }
        }
    }

    /// The arrival of a result, whatever it is, keeps what holds of a waiting scan.
    pub proof fn lemma_complete_inv(self, port: u16, attempt: ConnectResult)
        requires
            self.inv(),
        ensures
            self.complete(port, attempt).inv(),
    {
        if self.accepts(port) {
            match probe_verdict(self.config.quiet, port, attempt) {
                Ok(report) => {
                    self.lemma_record_inv(port, report.outcome);
                    self.record(port, report.outcome).lemma_advance_inv();
                },
                Err(_) => {},
            }
        }
    }

    /// A scan begins in a state of which the invariant holds.
    pub proof fn lemma_initial_inv(config: ScanConfig)
        requires
            config.wf(),
        ensures
            ScanView::initial(config).inv(),
    {
        let idle = ScanView::idle(config);
        assert(port_range(config.start as int, config.start as int) =~= Seq::<u16>::empty());
        assert(set_int_range(config.start as int, config.start as int) =~= Set::<int>::empty());
        assert(0int % (config.batch_size as int) == 0) by (nonlinear_arith)
            requires
                config.batch_size >= 1,
        ;
        idle.lemma_advance_inv();
    }
}

/// A scan under way. The caller launches the probes of a batch, hands in
/// each result as it arrives, and is told when to launch the next batch.
#[derive(Debug)]
pub struct Scan {
    scanner: Scanner,
    batch: Batch,
    /// For each port of `batch`, whether its result has arrived.
    done: Vec<bool>,
    /// The number of probes in flight.
    pending: usize,
    open_ports: Vec<u16>,
    aborted: bool,
}

impl View for Scan {
    type V = ScanView;

    closed spec fn view(&self) -> ScanView {
        ScanView {
            config: self.scanner@,
            batch: self.batch,
            in_flight: if self.aborted {
                Set::empty()
            } else {
                Set::new(|port: int| self.batch.holds(port) && !self.done@[port - self.batch.start])
            },
            probed: port_range(self.scanner@.start as int, self.batch.end as int),
            open_ports: self.open_ports@,
            aborted: self.aborted,
        }
    }
}

impl Scan {
    /// The fields fit together, and the invariant holds but for the launch
    /// that may be due.
    closed spec fn wf_base(&self) -> bool {
        &&& self.batch.start <= self.batch.end
        &&& self.done@.len() == self.batch.end - self.batch.start
        &&& self.pending == self@.in_flight.len()
        &&& self@.base_inv()
    }

    /// The scan is in a state that `begin` and `complete` lead to.
    pub closed spec fn wf(&self) -> bool {
        &&& self.wf_base()
        &&& self@.inv()
    }

    /// Of a well-formed scan the invariant holds.
    pub proof fn lemma_wf(&self)
        requires
            self.wf(),
        ensures
            self@.inv(),
    {
    }

    /// A scan of the scanner's range with its first batch in flight.
    pub(crate) fn start(scanner: Scanner) -> (scan: Scan)
        requires
            scanner@.wf(),
        ensures
            scan.wf(),
            scan@ == ScanView::initial(scanner@),
    {
        let from = scanner.start();
        let mut scan = Scan {
            scanner,
            batch: Batch { start: from, end: from },
            done: Vec::new(),
            pending: 0,
            open_ports: Vec::new(),
            aborted: false,
        };
        proof {
            let idle = ScanView::idle(scanner@);
            assert(scan@.in_flight =~= idle.in_flight);
            assert(scan@.probed =~= idle.probed);
            assert(scan@ == idle);
            assert(0int % (scanner@.batch_size as int) == 0) by (nonlinear_arith)
                requires
                    scanner@.batch_size >= 1,
            ;
        }
        scan.advance();
        scan
    }

    /// Launches the next batch if one is due, and says which.
    fn advance(&mut self) -> (launch: Option<Batch>)
        requires
            old(self).wf_base(),
        ensures
            final(self).wf(),
            final(self)@ == old(self)@.advance(),
            launch == if old(self)@.can_launch() {
                Some(old(self)@.next_batch())
            } else {
                None
            },
    {
        proof {
            self@.lemma_advance_inv();
            if self.pending == 0 {
                self@.in_flight.lemma_len0_is_empty();
            }
        }
        if self.aborted || self.pending > 0 {
            return None;
        }
        match batch_from(self.batch.end, self.scanner.end(), self.scanner.batch_size()) {
            None => None,
            Some(next) => {
                let ghost before = self@;
                let count = (next.end - next.start) as usize;
                let mut done: Vec<bool> = Vec::new();
                while done.len() < count
                    invariant
                        done.len() <= count,
                        forall|i: int| 0 <= i < done.len() ==> !done[i],
                    decreases count - done.len(),
                {
                    done.push(false);
                }
                self.batch = next;
                self.done = done;
                self.pending = count;
                proof {
                    lemma_int_range(next.start as int, next.end as int);
                    crate::batch::lemma_port_range_join(
                        before.config.start as int,
                        next.start as int,
                        next.end as int,
                    );
                    assert(self@.in_flight =~= before.launch().in_flight);
                    assert(self@ == before.launch());
                }
                Some(next)
            },
        }
    }

    /// Takes in the result `attempt` of the probe of `port`.
    ///
    /// Once the scan is abandoned every result is answered with
    /// `ResourceExhausted`, and a result for a port with no probe in flight
    /// with `UnexpectedCompletion`; neither changes the scan. A result that
    /// tells of exhausted sockets or descriptors abandons the scan. Any other
    /// result is recorded: an open port joins the list of open ports, and the
    /// answer names the batch to launch next if this result ended its batch.
    pub fn complete(&mut self, port: u16, attempt: ConnectResult) -> (reply: Result<
        Step,
        ScanError,
    >)
        requires
            old(self).wf(),
        ensures
            final(self).wf(),
            final(self)@ == old(self)@.complete(port, attempt),
            reply == old(self)@.reply(port, attempt),
    {
        if self.aborted {
            return Err(ScanError::ResourceExhausted);
        }
        if !self.batch.contains(port) {
            return Err(ScanError::UnexpectedCompletion);
        }
        let slot = (port - self.batch.start) as usize;
        if self.done[slot] {
            return Err(ScanError::UnexpectedCompletion);
        }
        let ghost before = self@;
        match self.scanner.scan_port(port, attempt) {
            Ok(report) => {
                self.done.set(slot, true);
                self.pending = self.pending - 1;
                match report.outcome {
                    ProbeOutcome::Open(open) => {
                        self.open_ports.push(open);
                    },
                    ProbeOutcome::Closed => {},
                }
                proof {
                    before.lemma_record_inv(port, report.outcome);
                    assert(self@.in_flight =~= before.in_flight.remove(port as int));
                    assert(self@ == before.record(port, report.outcome));
                }
                let launch = self.advance();
                Ok(Step { report, launch })
            },
            Err(error) => {
                self.aborted = true;
                self.pending = 0;
                proof {
                    assert(self@ == before.abort());
                }
                Err(error)
            },
        }
    }

    /// The number of probes in flight.
    pub fn in_flight(&self) -> (count: usize)
        requires
            self.wf(),
        ensures
            count == self@.in_flight.len(),
            count <= self@.config.batch_size,
    {
        self.pending
    }

    /// The batch whose probes were launched last, if any was launched.
    pub fn batch(&self) -> (batch: Option<Batch>)
        ensures
            batch == if self@.batch.start < self@.batch.end {
                Some(self@.batch)
            } else {
                None
            },
    {
        if self.batch.start < self.batch.end {
            Some(self.batch)
        } else {
            None
        }
    }

    /// Whether every port has been probed and every probe has settled.
    pub fn is_finished(&self) -> (finished: bool)
        requires
            self.wf(),
        ensures
            finished == self@.finished(),
    {
        proof {
            if self.pending == 0 {
                self@.in_flight.lemma_len0_is_empty();
            }
        }
        !self.aborted && self.pending == 0 && self.batch.end == self.scanner.end()
    }

    /// Ends the scan: the open ports in the order in which they were found,
    /// if every probe has settled; `ResourceExhausted` if the scan was
    /// abandoned; `Incomplete` if results are still awaited.
    pub fn finish(self) -> (found: Result<Vec<u16>, ScanError>)
        requires
            self.wf(),
        ensures
            match found {
                Ok(ports) => self@.result() == Ok::<Seq<u16>, ScanError>(ports@),
                Err(error) => self@.result() == Err::<Seq<u16>, ScanError>(error),
            },
    {
        if self.aborted {
            Err(ScanError::ResourceExhausted)
        } else if self.is_finished() {
            Ok(self.open_ports)
        } else {
            Err(ScanError::Incomplete)
        }
    }
}

} // verus!
