//! The core of a TCP port scanner: a range of ports of one host is probed
//! batch by batch, and the ports that accept a connection are collected.
//!
//! The library decides; it does not touch the network. A caller launches the
//! probes of a batch, hands each result to the scan as it arrives, and is
//! told what was found and when to launch the next batch.
//!
//! - [`address`] and [`timeout`] hold a host address and a time limit as
//!   plain values.
//! - [`batch`] splits a range into batches.
//! - [`probe`] says what a connection attempt can report and how a report
//!   is read.
//! - [`scanner`] holds the configuration, reads single probes and runs whole
//!   scans against given results.
//! - [`scan`] is a scan under way.
//! - [`trace`] states what holds of a scan whatever the results are.
//! - [`turns`] tells from the results alone what a scan yields.

pub mod address;
pub mod batch;
pub mod probe;
pub mod scan;
pub mod scanner;
pub mod timeout;
pub mod trace;
pub mod turns;
