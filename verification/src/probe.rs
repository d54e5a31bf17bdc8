//! What a single connection attempt can report, and how a report is read.

use vstd::prelude::*;

verus! {

/// The kinds of I/O error of the standard library, `std::io::ErrorKind`,
/// made known to the verifier with the variants that the type has. Nothing
/// is claimed of it beyond its own definition.
#[verifier::external_type_specification]
pub struct ExErrorKind(std::io::ErrorKind);

/// Why a connection attempt did not produce a connection.
#[derive(Clone, Copy, Debug, PartialEq, Eq, Structural)]
pub enum ConnectFailure {
    /// The connection was refused or reset, or the host could not be reached.
    ConnectFailed,
    /// The time allowed ran out before the attempt settled.
    TimedOut,
    /// The operating system could not provide another socket or descriptor.
    ResourceExhausted,
}

impl ConnectFailure {
    /// Resource exhaustion is the only failure that ends a scan; every other
    /// failure says something about one port only.
    pub open spec fn is_fatal(self) -> bool {
        self == ConnectFailure::ResourceExhausted
    }

    /// Whether this failure ends the whole scan.
    pub fn fatal(&self) -> (b: bool)
        ensures
            b == self.is_fatal(),
    {
        match self {
            ConnectFailure::ResourceExhausted => true,
            _ => false,
        }
    }

    /// What the kind of an I/O error says of a failed connection attempt:
    /// an error of no particular kind stands for exhausted sockets or
    /// descriptors, a timeout is a timeout, and every other kind is a
    /// failure to connect.
    pub open spec fn of_kind(kind: std::io::ErrorKind) -> ConnectFailure {
        match kind {
            std::io::ErrorKind::Other => ConnectFailure::ResourceExhausted,
            std::io::ErrorKind::TimedOut => ConnectFailure::TimedOut,
            _ => ConnectFailure::ConnectFailed,
        }
    }

    /// Reads the kind of the I/O error that ended a connection attempt.
    pub fn from_kind(kind: std::io::ErrorKind) -> (failure: ConnectFailure)
        ensures
            failure == ConnectFailure::of_kind(kind),
    {
        match kind {
            std::io::ErrorKind::Other => ConnectFailure::ResourceExhausted,
            std::io::ErrorKind::TimedOut => ConnectFailure::TimedOut,
            _ => ConnectFailure::ConnectFailed,
        }
    }
}

/// How one time-bounded connection attempt settled.
#[derive(Clone, Copy, Debug, PartialEq, Eq, Structural)]
pub enum ConnectResult {
    /// The connection was established (and has been shut down again).
    Connected,
    /// The attempt failed, or its time ran out.
    Failed(ConnectFailure),
}

impl ConnectResult {
    /// The attempt hit the limit on sockets or descriptors.
    pub open spec fn is_fatal(self) -> bool {
        self matches ConnectResult::Failed(failure) && failure.is_fatal()
    }

    /// The attempt reached the port.
    pub open spec fn is_connected(self) -> bool {
        self == ConnectResult::Connected
    }
}

/// What a probe says about its port.
#[derive(Clone, Copy, Debug, PartialEq, Eq, Structural)]
pub enum ProbeOutcome {
    /// The port accepted a connection.
    Open(u16),
    /// The port refused, could not be reached, or did not answer in time.
    Closed,
}

/// The result of one probe: its outcome, and the notification to emit for it.
#[derive(Clone, Copy, Debug, PartialEq, Eq, Structural)]
pub struct ProbeReport {
    pub outcome: ProbeOutcome,
    /// The port to announce as open right away, if any.
    pub notice: Option<u16>,
}

/// The arrival of one probe's result.
#[derive(Clone, Copy, Debug, PartialEq, Eq, Structural)]
pub struct Completion {
    pub port: u16,
    pub attempt: ConnectResult,
}

/// Why a scan did not produce a list of open ports.
#[derive(Clone, Copy, Debug, PartialEq, Eq, Structural)]
pub enum ScanError {
    /// A probe hit the limit on sockets or descriptors; the scan was abandoned.
    ResourceExhausted,
    /// A result arrived for a port that had no probe in flight.
    UnexpectedCompletion,
    /// The results ended while probes were still in flight.
    Incomplete,
}

impl ScanError {
    /// The text shown to the user for this error.
    pub open spec fn spec_message(self) -> Seq<char> {
        match self {
            ScanError::ResourceExhausted =>
                "Too many open files. Please reduce batch size. The default is 5000. Try -b 2500."@,
            ScanError::UnexpectedCompletion => "A result arrived for a port that is not being probed."@,
            ScanError::Incomplete => "The scan ended while probes were still in flight."@,
        }
    }

    /// The text shown to the user for this error. For resource exhaustion it
    /// advises a smaller batch size.
    pub fn message(&self) -> (text: String)
        ensures
            text@ == self.spec_message(),
    {
        match self {
            ScanError::ResourceExhausted =>
                "Too many open files. Please reduce batch size. The default is 5000. Try -b 2500.".to_owned(),
            ScanError::UnexpectedCompletion => "A result arrived for a port that is not being probed.".to_owned(),
            ScanError::Incomplete => "The scan ended while probes were still in flight.".to_owned(),
        }
    }
}

/// How a probe of `port` that settled as `attempt` is read: a connection
/// means the port is open, and is announced unless the scan is quiet;
/// resource exhaustion is fatal; any other failure means the port is closed.
pub open spec fn probe_verdict(quiet: bool, port: u16, attempt: ConnectResult) -> Result<
    ProbeReport,
    ScanError,
> {
    match attempt {
        ConnectResult::Connected => Ok(
            ProbeReport {
                outcome: ProbeOutcome::Open(port),
                notice: if quiet {
                    None
                } else {
                    Some(port)
                },
            },
        ),
        ConnectResult::Failed(failure) => if failure.is_fatal() {
            Err(ScanError::ResourceExhausted)
        } else {
            Ok(ProbeReport { outcome: ProbeOutcome::Closed, notice: None })
        },
    }
}

/// Every failure but resource exhaustion means that the port is
/// closed, and nothing is announced; a timeout is such a failure.
pub proof fn lemma_failure_is_closed(quiet: bool, port: u16, failure: ConnectFailure)
    requires
        !failure.is_fatal(),
    ensures
        probe_verdict(quiet, port, ConnectResult::Failed(failure)) == Ok::<ProbeReport, ScanError>(
            ProbeReport { outcome: ProbeOutcome::Closed, notice: None },
        ),
        !ConnectFailure::TimedOut.is_fatal(),
{
}

} // verus!
