//! Statistics and skill-rating core for go-kart race sessions ("heats").
//!
//! The library works over normalized in-memory records: heats, drivers,
//! karts and laps.  Lap times are held in whole milliseconds and driver
//! ratings in millionths, so every computation here is exact integer
//! arithmetic; the surrounding application converts to and from the
//! floating-point representations used for display, persistence and the
//! external rating model.

pub mod api;
pub mod cache;
pub mod game;
pub mod grouping;
pub mod helpers;
pub mod math;
pub mod models;
pub mod rating;
pub mod stats;
