//! A multiplayer word-chain game library.
//!
//! A server holds one shared current word; clients submit guesses over a
//! line protocol, and an accepted guess becomes the new current word.  The
//! pieces here are the suffix-continuation matcher that decides whether a
//! guess legally follows the current word, the shared game state with its
//! guess-commit rule, the line-protocol codec, and the per-session state
//! machine that drives both.

pub mod matcher;
pub mod protocol;
pub mod session;
pub mod state;

pub use matcher::SuffixMatcher;
pub use protocol::DecodeError;
pub use protocol::ServerMessage;
pub use protocol::UserCommand;
pub use session::SessionEvent;
pub use session::SessionOutcome;
pub use state::ServerState;
pub use state::StateError;
