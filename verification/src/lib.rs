//! Deterministic simulation core for a rising-stack, match-three puzzle game.
//!
//! The crate owns all gameplay state transitions: the board of colored and
//! garbage blocks, match detection and clearing, gravity (including rigid
//! multi-cell garbage components), chain and combo scoring, staged per-player
//! timers, and the two-player garbage exchange. A presentation layer drives it
//! once per frame through explicit time-delta ticks and samples its state
//! read-only.

pub mod block;
pub mod connect;
pub mod cursor;
pub mod garbage;
pub mod gravity;
pub mod grid;
pub mod matches;
pub mod player;
pub mod refill;
pub mod rng;
pub mod session;
pub mod timer;
pub mod util;

pub use block::Block;
pub use block::BlockColor;
pub use cursor::Cursor;
pub use cursor::SwapCmd;
pub use grid::Grid;
pub use matches::ClearStats;
pub use player::Dir;
pub use player::PlayerState;
pub use session::MatchState;
pub use session::PlayerId;
pub use timer::TickTimer;
