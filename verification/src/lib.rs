//! Playback of time-stamped activations over a fixed set of markers.
//!
//! The library holds the markers of a circuit and the events that light them,
//! advances a cursor through the events as simulated time passes, and lays the
//! markers out on a canvas. Coordinates are fixed-point integers and canvas
//! positions are whole canvas units, so every rule here is stated and proved
//! over the integers.

pub mod canvas;
pub mod clock;
pub mod decimal;
pub mod error;
pub mod loader;
pub mod playback;
pub mod simulation;
pub mod table;
pub mod timestamp;
pub mod track;
