//! Turns declarative map descriptions into static satellite map requests:
//! a geocode cache that only grows, a viewport planner that fits a set of
//! points into a bounded canvas, and a content-addressed download cache.
pub mod download;
pub mod error;
pub mod geo;
pub mod gmaps;
pub mod location;
pub mod viewport;
