//! A note's classroom: its room, the booths in it, and the relay in front of it.

pub mod apply;
pub mod booths;
pub mod fold;
pub mod history;
pub mod login;
pub mod post;
pub mod pull;
pub mod relay;
pub mod send;
pub mod socket;
pub mod visit;
