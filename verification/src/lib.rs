//! Content-addressed blob storage with a typed object layer on top, plus a
//! few small utilities (byte sinks, a list monad, list-widget state).

pub mod blob;
pub mod object;
pub mod utils;
pub mod widgets;
