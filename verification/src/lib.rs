//! A frame-stepped tower-defense simulation core on fixed-point integers.
//!
//! Towers fire on a repeating cooldown at the nearest target, projectiles fly
//! in a straight line until they hit something or run out of lifetime, and
//! targets walk along the x axis until their health is used up.
//!
//! Units: time is counted in microseconds, lengths in thousandths of a world
//! unit, speeds in thousandths of a world unit per second.
//!
//! Rounding: every movement is a whole number of thousandths per coordinate
//! and tick, rounded toward zero. What is cut off, less than one thousandth
//! per coordinate and tick, is not carried over to the next tick. A body
//! therefore falls behind by up to one thousandth per tick, and one that
//! would move less than a thousandth in a tick does not move at all: at a
//! speed of 50 a tick has to last 20000 microseconds for a step to be made.
//! Choose ticks long enough for the slowest body.

pub mod bullet;
pub mod entity;
pub mod geometry;
pub mod laws;
pub mod target;
pub mod timer;
pub mod tower;
pub mod world;
