//! The scan configuration and what it decides about a single probe.

use crate::address::{Endpoint, HostAddr};
use crate::batch::{batches, partition, ports_of, Batch};
use crate::probe::{
    probe_verdict, Completion, ConnectResult, ProbeOutcome, ProbeReport, ScanError,
};
use crate::scan::{Scan, ScanView};
use crate::timeout::Timeout;
use crate::trace::{lemma_empty_range, lemma_replay_error_stays, replay, run_result};
use crate::turns::{
    exhausted_at, lemma_run_verdict, none_fatal, open_in, orderly, out_of_turn_at,
};
use vstd::prelude::*;

verus! {

/// What a scanner is configured with.
pub struct ScanConfig {
    /// The host whose ports are probed.
    pub host: HostAddr,
    /// The first port of the range.
    pub start: u16,
    /// The port after the last one of the range.
    pub end: u16,
    /// The most probes that may be in flight at once.
    pub batch_size: u64,
    /// The time allowed for one connection attempt.
    pub timeout: Timeout,
    /// Whether open ports are found silently.
    pub quiet: bool,
    /// Whether the scan is meant as an IPv6 scan.
    pub ipv6: bool,
}

impl ScanConfig {
    /// The range is not reversed, a batch holds at least one port, and the
    /// timeout is a positive span.
    pub open spec fn wf(self) -> bool {
        &&& self.start <= self.end
        &&& self.batch_size >= 1
        &&& self.timeout.wf()
    }

    /// The ports to scan, in ascending order.
    pub open spec fn ports(self) -> Seq<u16> {
        crate::batch::port_range(self.start as int, self.end as int)
    }

    /// The batches in which the ports are probed.
    pub open spec fn batches(self) -> Seq<Batch> {
        partition(self.start as int, self.end as int, self.batch_size as int)
    }
}

/// Scans the ports `[start, end)` of one host, `batch_size` at a time.
#[derive(Clone, Copy, Debug)]
pub struct Scanner {
    host: HostAddr,
    start: u16,
    end: u16,
    batch_size: u64,
    timeout: Timeout,
    quiet: bool,
    ipv6: bool,
}

impl View for Scanner {
    type V = ScanConfig;

    closed spec fn view(&self) -> ScanConfig {
        ScanConfig {
            host: self.host,
            start: self.start,
            end: self.end,
            batch_size: self.batch_size,
            timeout: self.timeout,
            quiet: self.quiet,
            ipv6: self.ipv6,
        }
    }
}

impl Scanner {
    #[verifier::type_invariant]
    closed spec fn valid(self) -> bool {
        self@.wf()
    }

    /// A scanner for the ports `[start, end)` of `host`.
    pub fn new(
        host: HostAddr,
        start: u16,
        end: u16,
        batch_size: u64,
        timeout: Timeout,
        quiet: bool,
        ipv6: bool,
    ) -> (scanner: Scanner)
        requires
            start <= end,
            batch_size >= 1,
            timeout.wf(),
        ensures
            scanner@ == (ScanConfig { host, start, end, batch_size, timeout, quiet, ipv6 }),
            scanner@.wf(),
    {
        Scanner { host, start, end, batch_size, timeout, quiet, ipv6 }
    }

    /// The host whose ports are probed.
    pub fn host(&self) -> (host: HostAddr)
        ensures
            host == self@.host,
    {
        self.host
    }

    /// The first port of the range.
    pub fn start(&self) -> (start: u16)
        ensures
            start == self@.start,
    {
        self.start
    }

    /// The port after the last one of the range.
    pub fn end(&self) -> (end: u16)
        ensures
            end == self@.end,
    {
        self.end
    }

    /// The most probes that may be in flight at once.
    pub fn batch_size(&self) -> (batch_size: u64)
        ensures
            batch_size == self@.batch_size,
    {
        self.batch_size
    }

    /// The time allowed for one connection attempt.
    pub fn timeout(&self) -> (timeout: Timeout)
        ensures
            timeout == self@.timeout,
            timeout.wf(),
    {
        proof {
            use_type_invariant(self);
        }
        self.timeout
    }

    /// Whether open ports are found silently.
    pub fn quiet(&self) -> (quiet: bool)
        ensures
            quiet == self@.quiet,
    {
        self.quiet
    }

    /// Whether the scan is meant as an IPv6 scan.
    pub fn ipv6(&self) -> (ipv6: bool)
        ensures
            ipv6 == self@.ipv6,
    {
        self.ipv6
    }

    /// The address that a probe of `port` connects to.
    pub fn endpoint(&self, port: u16) -> (target: Endpoint)
        ensures
            target == (Endpoint { host: self@.host, port }),
    {
        Endpoint { host: self.host, port }
    }

    /// The batches in which the range is probed, in order. Together they
    /// hold every port of the range exactly once.
    pub fn batches(&self) -> (all: Vec<Batch>)
        ensures
            self@.wf(),
            all@ == self@.batches(),
            ports_of(all@) == self@.ports(),
    {
        proof {
            use_type_invariant(self);
        }
        batches(self.start, self.end, self.batch_size)
    }

    /// Reads the result of one probe: a connection means that `port` is
    /// open, and is announced unless the scanner is quiet; running out of
    /// sockets or descriptors is fatal to the scan; every other failure,
    /// a timeout among them, means that the port is closed.
    pub fn scan_port(&self, port: u16, attempt: ConnectResult) -> (report: Result<
        ProbeReport,
        ScanError,
    >)
        ensures
            report == probe_verdict(self@.quiet, port, attempt),
    {
        match attempt {
            ConnectResult::Connected => {
                let notice = if self.quiet {
                    None
                } else {
                    Some(port)
                };
                Ok(ProbeReport { outcome: ProbeOutcome::Open(port), notice })
            },
            ConnectResult::Failed(failure) => {
                if failure.fatal() {
                    Err(ScanError::ResourceExhausted)
                } else {
                    Ok(ProbeReport { outcome: ProbeOutcome::Closed, notice: None })
                }
            },
        }
    }

    /// Begins a scan: its first batch is in flight, if the range holds any port.
    pub fn begin(&self) -> (scan: Scan)
        ensures
            self@.wf(),
            scan.wf(),
            scan@ == ScanView::initial(self@),
    {
        proof {
            use_type_invariant(self);
        }
        Scan::start(*self)
    }

    /// Scans the range against probes that report `completions`, in this
    /// order of arrival.
    ///
    /// The ports found open are returned, in the order in which their results
    /// arrived, exactly if `completions` holds one result for every port of
    /// the range, each arriving in its turn (while the batch of its port is
    /// in flight) and none telling of exhausted sockets or descriptors. The
    /// first result that does tell of them ends the scan with
    /// `ResourceExhausted`, the first that arrives out of turn with
    /// `UnexpectedCompletion`, whichever comes first; and if the results end
    /// before every probe has settled, the answer is `Incomplete`.
    ///
    /// Result by result, this is what `Scan::complete` makes of them.
    pub fn run(&self, completions: &[Completion]) -> (outcome: Result<Vec<u16>, ScanError>)
        ensures
            match outcome {
                Ok(ports) => run_result(self@, completions@) == Ok::<Seq<u16>, ScanError>(ports@),
                Err(error) => run_result(self@, completions@) == Err::<Seq<u16>, ScanError>(error),
            },
            outcome is Ok <==> orderly(self@, completions@) && none_fatal(completions@)
                && completions@.len() == self@.end - self@.start,
            outcome matches Ok(ports) ==> ports@ == open_in(completions@),
            outcome == Err::<Vec<u16>, ScanError>(ScanError::ResourceExhausted) <==> exists|at: int|
                exhausted_at(self@, completions@, at),
            outcome == Err::<Vec<u16>, ScanError>(ScanError::UnexpectedCompletion) <==> exists|
                at: int,
            | out_of_turn_at(self@, completions@, at),
            outcome == Err::<Vec<u16>, ScanError>(ScanError::Incomplete) <==> orderly(
                self@,
                completions@,
            ) && none_fatal(completions@) && completions@.len() < self@.end - self@.start,
            self@.start == self@.end && completions@.len() == 0 ==> (outcome matches Ok(ports)
                && ports@.len() == 0),
    {
        proof {
            use_type_invariant(self);
            if self@.start == self@.end && completions@.len() == 0 {
                lemma_empty_range(self@, completions@);
                assert(completions@ =~= Seq::<Completion>::empty());
            }
        }
        let mut scan = self.begin();
        let mut arrived: usize = 0;
        while arrived < completions.len()
            invariant
                self@.wf(),
                arrived <= completions.len(),
                scan.wf(),
                replay(self@, completions@.take(arrived as int)) == Ok::<ScanView, ScanError>(scan@),
            decreases completions.len() - arrived,
        {
            let completion = completions[arrived];
            proof {
                assert(completions@.take(arrived + 1).drop_last() =~= completions@.take(
                    arrived as int,
                ));
            }
            match scan.complete(completion.port, completion.attempt) {
                Ok(_) => {},
                Err(error) => {
                    proof {
                        lemma_replay_error_stays(self@, completions@, arrived + 1);
                        lemma_run_verdict(self@, completions@);
                    }
                    return Err(error);
                },
            }
            arrived = arrived + 1;
        }
        proof {
            assert(completions@.take(arrived as int) =~= completions@);
            lemma_run_verdict(self@, completions@);
        }
        scan.finish()
    }
}

} // verus!
