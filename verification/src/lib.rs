//! Functional reactive programming: streams of discrete events, and signals
//! that vary over time.
//!
//! Start with [`network::Network`] and [`stream::Sink`]. What can be relied on is
//! stated in the modules whose names end in `laws`.
#![allow(unused_imports)]

pub mod building;
pub mod consistency;
pub mod copies;
pub mod course_laws;
pub mod cover;
pub mod feed_laws;
pub mod flow;
pub mod function;
pub mod function_laws;
pub mod life;
pub mod life_laws;
pub mod made_laws;
pub mod model;
pub mod network;
pub mod network_laws;
pub mod primitive;
pub mod results;
pub mod signal;
pub mod signal_laws;
pub mod sound;
pub mod source;
pub mod steady;
pub mod stream;
pub mod stream_laws;
pub mod switch_laws;
pub mod value;
