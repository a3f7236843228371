//! The decisions of the streamer's session: connect, build a cycle, play its
//! tracks in order, build the next cycle, and pause before reconnecting
//! whenever the connection fails.
//!
//! The caller performs each action (the network, the files, the sleeping)
//! and reports what came of it as the next event.

use vstd::prelude::*;

verus! {

/// How long the streamer waits before it connects again, in seconds.
pub const RECONNECT_DELAY_SECS: u64 = 5;

/// Where the session stands.
pub struct SessionState {
    /// Whether the source connection is open.
    pub connected: bool,
    /// How many tracks the current cycle has.
    pub cycle_len: usize,
    /// The track of the cycle that is playing, or was played last.
    pub next_track: usize,
}

/// What came of the last action.
pub enum SessionEvent {
    /// The source connection was opened and accepted.
    Connected,
    /// The connection could not be opened, or was refused.
    ConnectFailed,
    /// A new cycle of this many tracks was built.
    CycleBuilt(usize),
    /// The current track was streamed to its end.
    TrackDone,
    /// Streaming the current track failed.
    TrackFailed,
    /// The pause is over.
    Paused,
}

/// What to do next.
pub enum SessionAction {
    /// Open and authenticate the source connection.
    Connect,
    /// Build the next cycle of the playlist.
    BuildCycle,
    /// Stream the track at this position of the cycle.
    PlayTrack(usize),
    /// Wait this many seconds.
    Pause(u64),
}

impl SessionState {
    /// A session that has not connected yet.
    pub fn new() -> (s: Self)
        ensures
            !s.connected,
            s.cycle_len == 0,
            s.next_track == 0,
    {
        SessionState { connected: false, cycle_len: 0, next_track: 0 }
    }
}

/// The first thing a session does: connect.
pub fn first_action() -> (a: SessionAction)
    ensures
        a == SessionAction::Connect,
{
    SessionAction::Connect
}

/// The session's next state and action after `event`: connect first, build
/// a cycle once connected, play its tracks in order, build the next cycle
/// after the last one, and pause before reconnecting whenever the connection
/// fails.
pub open spec fn next_step(s: SessionState, event: SessionEvent) -> (SessionState, SessionAction) {
    match event {
        SessionEvent::Connected => (
            SessionState { connected: true, cycle_len: 0, next_track: 0 },
            SessionAction::BuildCycle,
        ),
        SessionEvent::ConnectFailed | SessionEvent::TrackFailed => (
            SessionState { connected: false, cycle_len: 0, next_track: 0 },
            SessionAction::Pause(RECONNECT_DELAY_SECS),
        ),
        SessionEvent::CycleBuilt(n) => (
            SessionState { connected: s.connected, cycle_len: n, next_track: 0 },
            if n > 0 { SessionAction::PlayTrack(0) } else { SessionAction::BuildCycle },
        ),
        SessionEvent::TrackDone => if s.next_track + 1 < s.cycle_len {
            (
                SessionState { connected: s.connected, cycle_len: s.cycle_len, next_track: (s.next_track + 1) as usize },
                SessionAction::PlayTrack((s.next_track + 1) as usize),
            )
        } else {
            (s, SessionAction::BuildCycle)
        },
        SessionEvent::Paused => (s, SessionAction::Connect),
    }
}

/// The state after `k` tracks of the cycle in `s` played to their end.
pub open spec fn after_tracks(s: SessionState, k: nat) -> SessionState
    decreases k,
{
    if k == 0 {
        s
    } else {
        next_step(after_tracks(s, (k - 1) as nat), SessionEvent::TrackDone).0
    }
}

/// Once a cycle of `n` tracks is built, the tracks are played one after
/// another from the first, and the end of the last one builds a new cycle.
pub proof fn lemma_cycle_played_in_order(connected: bool, n: usize, k: nat)
    requires
        k < n,
    ensures
        ({
            let built = next_step(SessionState { connected, cycle_len: 0, next_track: 0 }, SessionEvent::CycleBuilt(n));
            &&& built.1 == SessionAction::PlayTrack(0)
            &&& after_tracks(built.0, k) == (SessionState { connected, cycle_len: n, next_track: k as usize })
            &&& next_step(after_tracks(built.0, k), SessionEvent::TrackDone).1 == (if k + 1 < n {
                SessionAction::PlayTrack((k + 1) as usize)
            } else {
                SessionAction::BuildCycle
            })
        }),
    decreases k,
{
    if k > 0 {
        lemma_cycle_played_in_order(connected, n, (k - 1) as nat);
    }
}

/// The session's next state and action after `event`.
pub fn session_step(s: &SessionState, event: SessionEvent) -> (r: (SessionState, SessionAction))
    ensures
        r == next_step(*s, event),
        event is Connected ==> r.0 == (SessionState { connected: true, cycle_len: 0, next_track: 0 })
            && r.1 == SessionAction::BuildCycle,
        event is ConnectFailed ==> r.0 == (SessionState { connected: false, cycle_len: 0, next_track: 0 })
            && r.1 == SessionAction::Pause(RECONNECT_DELAY_SECS),
        event matches SessionEvent::CycleBuilt(n) ==> r.0 == (SessionState { connected: s.connected, cycle_len: n, next_track: 0 })
            && r.1 == (if n > 0 { SessionAction::PlayTrack(0) } else { SessionAction::BuildCycle }),
        event is TrackDone ==> if s.next_track + 1 < s.cycle_len {
            &&& r.0 == (SessionState { connected: s.connected, cycle_len: s.cycle_len, next_track: (s.next_track + 1) as usize })
            &&& r.1 == SessionAction::PlayTrack((s.next_track + 1) as usize)
        } else {
            &&& r.0 == *s
            &&& r.1 == SessionAction::BuildCycle
        },
        event is TrackFailed ==> r.0 == (SessionState { connected: false, cycle_len: 0, next_track: 0 })
            && r.1 == SessionAction::Pause(RECONNECT_DELAY_SECS),
        event is Paused ==> r.0 == (SessionState { connected: s.connected, cycle_len: s.cycle_len, next_track: s.next_track })
            && r.1 == SessionAction::Connect,
{
    match event {
        SessionEvent::Connected => (
            SessionState { connected: true, cycle_len: 0, next_track: 0 },
            SessionAction::BuildCycle,
        ),
        SessionEvent::ConnectFailed => (
            SessionState { connected: false, cycle_len: 0, next_track: 0 },
            SessionAction::Pause(RECONNECT_DELAY_SECS),
        ),
        SessionEvent::CycleBuilt(n) => {
            let action = if n > 0 {
                SessionAction::PlayTrack(0)
            } else {
                SessionAction::BuildCycle
            };
            (SessionState { connected: s.connected, cycle_len: n, next_track: 0 }, action)
        },
        SessionEvent::TrackDone => {
            if s.cycle_len > 0 && s.next_track < s.cycle_len - 1 {
                let next = s.next_track + 1;
                (
                    SessionState { connected: s.connected, cycle_len: s.cycle_len, next_track: next },
                    SessionAction::PlayTrack(next),
                )
            } else {
                (
                    SessionState { connected: s.connected, cycle_len: s.cycle_len, next_track: s.next_track },
                    SessionAction::BuildCycle,
                )
            }
        },
        SessionEvent::TrackFailed => (
            SessionState { connected: false, cycle_len: 0, next_track: 0 },
            SessionAction::Pause(RECONNECT_DELAY_SECS),
        ),
        SessionEvent::Paused => (
            SessionState { connected: s.connected, cycle_len: s.cycle_len, next_track: s.next_track },
            SessionAction::Connect,
        ),
    }
}

} // verus!
