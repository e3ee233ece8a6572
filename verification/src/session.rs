//! The per-session state machine.  A session multiplexes two event
//! sources — an inbound client line and the broadcast wake — and drives
//! the shared game state.  `session_step` is the pure decision kernel: it
//! maps one event to the state transition, the reply line to write, and
//! whether to publish a broadcast wake; the surrounding loop performs the
//! waiting and the writing.  A decode error is ignored and never closes
//! the session; only `exit`, end of input, or broadcast teardown does.

use vstd::prelude::*;

use crate::protocol::split_ws;
use crate::protocol::DecodeError;
use crate::protocol::ServerMessage;
use crate::protocol::UserCommand;
use crate::state::ServerState;

verus! {

/// An event a session wakes on.
#[derive(Debug, Clone, PartialEq, Eq)]
pub enum SessionEvent {
    /// One inbound line from the client.
    Line { line: String },
    /// The client closed its end of the stream.
    InputClosed,
    /// The broadcast hub signalled a new current word.
    Notified,
    /// The broadcast hub was torn down.
    NotifyClosed,
}

/// What the session loop must do after one step.
#[derive(Debug, Clone, PartialEq, Eq)]
pub enum SessionOutcome {
    /// Write this line to the client; publish a broadcast wake if asked.
    Reply { line: String, publish: bool },
    /// A malformed line: report it locally and carry on.
    Ignored,
    /// The session is over.
    Close,
}

/// The views of two states agree: same word, same used set, same
/// dictionary.
pub open spec fn same_snapshot(a: ServerState, b: ServerState) -> bool {
    &&& a.word_view() == b.word_view()
    &&& a.used_view() == b.used_view()
    &&& a.dict_view() == b.dict_view()
}

/// Drive one step of the session: decode and apply one event against the
/// shared state.  A `guess` line is committed or rejected atomically with
/// the matching reply and, on success, a publish request; `exit`, end of
/// input and broadcast teardown close the session without touching the
/// state; a broadcast wake re-reads the current word and pushes an update
/// line; a malformed line is ignored.
pub fn session_step(state: &mut ServerState, ev: SessionEvent) -> (out: SessionOutcome)
    requires
        old(state).wf(),
    ensures
        final(state).wf(),
        final(state).dict_view() == old(state).dict_view(),
        ({
            match ev {
                SessionEvent::Line { line } => ({
                    let toks = split_ws(line@);
                    if toks.len() == 1 && toks[0] == "exit"@ {
                        out == SessionOutcome::Close && same_snapshot(*old(state), *final(state))
                    } else if toks.len() == 2 && toks[0] == "guess"@ {
                        let accepted = old(state).accepts(toks[1]);
                        &&& out matches SessionOutcome::Reply { line: l, publish }
                            && l@ == (if accepted { "accept\n"@ } else { "reject\n"@ })
                            && publish == accepted
                        &&& accepted ==> final(state).word_view() == toks[1]
                            && final(state).used_view() == old(state).used_view().insert(toks[1])
                        &&& !accepted ==> same_snapshot(*old(state), *final(state))
                    } else {
                        out == SessionOutcome::Ignored && same_snapshot(*old(state), *final(state))
                    }
                }),
                SessionEvent::InputClosed => out == SessionOutcome::Close
                    && same_snapshot(*old(state), *final(state)),
                SessionEvent::Notified => same_snapshot(*old(state), *final(state))
                    && (out matches SessionOutcome::Reply { line: l, publish }
                    && l@ == "update "@ + old(state).word_view() + "\n"@
                    && publish == false),
                SessionEvent::NotifyClosed => out == SessionOutcome::Close
                    && same_snapshot(*old(state), *final(state)),
            }
        }),
{
    match ev {
        SessionEvent::Line { line } => {
            match UserCommand::parse_line(line.as_str()) {
                Ok(UserCommand::Guess { guess }) => {
                    let accepted = state.try_accept(guess.as_str());
                    let reply = if accepted {
                        ServerMessage::Accepted
                    } else {
                        ServerMessage::Rejected
                    };
                    let rendered = reply.render_line();
                    SessionOutcome::Reply { line: rendered, publish: accepted }
                },
                Ok(UserCommand::Exit) => SessionOutcome::Close,
                Err(_) => SessionOutcome::Ignored,
            }
        },
        SessionEvent::InputClosed => SessionOutcome::Close,
        SessionEvent::Notified => {
            let word = state.current_word();
            let msg = ServerMessage::Update { new_riddle: word };
            let rendered = msg.render_line();
            SessionOutcome::Reply { line: rendered, publish: false }
        },
        SessionEvent::NotifyClosed => SessionOutcome::Close,
    }
}

} // verus!
