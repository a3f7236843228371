//! The decisions of the interactive TCP port tester.

use vstd::prelude::*;
use vstd::string::StringExecFns;

verus! {

/// How long the reader waits when no data has arrived, in milliseconds.
pub const READ_RETRY_MILLIS: u64 = 100;

/// What one non-blocking read of the connection gave.
pub enum ReadOutcome {
    /// The server closed the connection (a read of zero bytes).
    Closed,
    /// This many bytes arrived.
    Data(usize),
    /// No data yet.
    WouldBlock,
    /// Any other error.
    Failed,
}

/// What the reader does next.
pub enum ReaderAction {
    /// Stop reading.
    Stop,
    /// Read again at once.
    ReadAgain,
    /// Release the connection and wait this many milliseconds, then read again.
    Wait(u64),
}

/// The reader's next action: stop when the server closes or the read fails,
/// read again after data, and wait a moment when nothing has arrived.
pub fn reader_step(outcome: ReadOutcome) -> (a: ReaderAction)
    ensures
        outcome is Closed ==> a == ReaderAction::Stop,
        outcome is Failed ==> a == ReaderAction::Stop,
        outcome is Data ==> a == ReaderAction::ReadAgain,
        outcome is WouldBlock ==> a == ReaderAction::Wait(READ_RETRY_MILLIS),
{
    match outcome {
        ReadOutcome::Closed => ReaderAction::Stop,
        ReadOutcome::Data(_) => ReaderAction::ReadAgain,
        ReadOutcome::WouldBlock => ReaderAction::Wait(READ_RETRY_MILLIS),
        ReadOutcome::Failed => ReaderAction::Stop,
    }
}

/// The message sent for one typed line: the line and a line feed.
pub fn line_message(input: &str) -> (m: String)
    ensures
        m@ == input@ + "\n"@,
{
    let mut m = input.to_owned();
    m.append("\n");
    m
}

} // verus!
