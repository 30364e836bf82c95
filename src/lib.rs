//! Ballot sessions for a chat surface: participants open a private ballot, change it and
//! submit it while a vote runs, and the submitted ballots are counted by approval, score,
//! limited score or Borda count.
//!
//! `session` holds the state of a running vote and decides, for each action of a participant,
//! how the state changes and what is shown; the surface performs what it is told. `ballot`
//! holds one participant's ballot and the rules of each method, `tally` counts submitted
//! ballots, `decimal` reads entered scores, and `config` sets a vote up before it starts.

pub mod method;
pub mod decimal;
pub mod ballot;
pub mod tally;
pub mod session;
pub mod config;
