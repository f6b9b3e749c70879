//! The room side and the HTTP side of a classroom note client.

pub mod cloud;
pub mod collabo;
pub mod collections;
pub mod encoding;
pub mod error;
pub mod http;
pub mod json;
pub mod model;
pub mod text;
pub mod transport;
