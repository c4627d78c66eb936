//! Verified core of the League client helper: parsing of client credentials,
//! a plain model of the client's JSON replies, the stable floor order of a
//! match, and the grouping of friends into teams for a red packet game.

pub mod connection;
pub mod credentials;
pub mod error;
pub mod game;
pub mod json;
pub mod order;
pub mod teams;
pub mod text;
