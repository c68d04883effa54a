//! The calendar behind rationality-munich.com: reading event feeds, merging
//! cross-posts, and writing pages, feeds and calendar files.

pub mod text;
pub mod time;
pub mod event;
pub mod ics;
pub mod render;
pub mod markup;
pub mod kind;
pub mod stats;
pub mod feed;
pub mod attendance;
pub mod site;
pub mod sources;
pub mod turnout;
