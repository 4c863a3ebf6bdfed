//! Real-draw data toolkit for Chinese lotteries: draw structure descriptions,
//! record parsing and validation, draw-notice JSON extraction and data-file
//! building, a small HTTP request/response layer, the deterministic generator and
//! the simulated randomness experiments, and the counting core of the analysis of
//! real draws.
pub mod game_spec;
pub mod text;
pub mod order;
pub mod realdata;
pub mod ssq;
pub mod rng;
pub mod fetch;
pub mod server;
pub mod stats;
pub mod sim;
pub mod analysis;
pub mod reload;
pub mod roundtrip;
pub mod odds;
