//! Which failures of a connection are worth a warning.

use std::io::ErrorKind;
use vstd::prelude::*;

verus! {

/// The ways in which a connection fails.
#[derive(Clone, Copy, Debug, PartialEq, Eq, Structural)]
pub enum FailureKind {
    ConnectionRefused,
    ConnectionReset,
    ConnectionAborted,
    NotConnected,
    HostUnreachable,
    NetworkUnreachable,
    AddrInUse,
    BrokenPipe,
    TimedOut,
    WriteZero,
    Interrupted,
    UnexpectedEof,
    /// Any other.
    Other,
}

/// The kind of an I/O error.
pub uninterp spec fn failure_kind(e: std::io::Error) -> FailureKind;

/// Calls `std::io::Error::kind`, which gives the kind of an error. The kinds that have nothing
/// to do with connections are not told apart.
#[verifier::external_body]
fn kind_of(e: &std::io::Error) -> (kind: FailureKind)
    ensures
        kind == failure_kind(*e),
{
    match e.kind() {
        ErrorKind::ConnectionRefused => FailureKind::ConnectionRefused,
        ErrorKind::ConnectionReset => FailureKind::ConnectionReset,
        ErrorKind::ConnectionAborted => FailureKind::ConnectionAborted,
        ErrorKind::NotConnected => FailureKind::NotConnected,
        ErrorKind::HostUnreachable => FailureKind::HostUnreachable,
        ErrorKind::NetworkUnreachable => FailureKind::NetworkUnreachable,
        ErrorKind::AddrInUse => FailureKind::AddrInUse,
        ErrorKind::BrokenPipe => FailureKind::BrokenPipe,
        ErrorKind::TimedOut => FailureKind::TimedOut,
        ErrorKind::WriteZero => FailureKind::WriteZero,
        ErrorKind::Interrupted => FailureKind::Interrupted,
        ErrorKind::UnexpectedEof => FailureKind::UnexpectedEof,
        _ => FailureKind::Other,
    }
}

/// The peer has closed, reset or lost the connection, or let it time out: a failure of one of
/// these kinds is the ordinary end of a connection.
pub open spec fn interruption(kind: FailureKind) -> bool {
    ||| kind is ConnectionReset
    ||| kind is ConnectionAborted
    ||| kind is BrokenPipe
    ||| kind is NotConnected
    ||| kind is UnexpectedEof
    ||| kind is TimedOut
    ||| kind is WriteZero
}

/// Whether a failure of this kind is the ordinary end of a connection.
pub fn is_interruption(kind: FailureKind) -> (benign: bool)
    ensures
        benign == interruption(kind),
{
    match kind {
        FailureKind::ConnectionReset | FailureKind::ConnectionAborted | FailureKind::BrokenPipe => {
            true
        },
        FailureKind::NotConnected | FailureKind::UnexpectedEof => true,
        FailureKind::TimedOut | FailureKind::WriteZero => true,
        _ => false,
    }
}

/// A connection has come to an ordinary end, though with an error. `None` is a failure that is
/// not an I/O error.
pub fn is_benign(e: Option<&std::io::Error>) -> (benign: bool)
    ensures
        benign == (e matches Some(e) && interruption(failure_kind(*e))),
{
    match e {
        Some(e) => is_interruption(kind_of(e)),
        None => false,
    }
}

} // verus!
