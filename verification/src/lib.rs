//! A serial bus in software: a clock line and one or two data lines, driven
//! and sampled one bit at a time through plain digital pins.
//!
//! [`full_duplex::SoftSpi`] has a data line for each direction;
//! [`half_duplex::SoftSpi`] shares one pulled-up data line. Both idle the
//! clock high, frame every bit with one low-then-high pulse, and move every
//! word most significant bit first.
//!
//! What an operation does is stated over the records of the pins themselves,
//! [`pin::Line`]: the levels that each pin was told to drive and the levels
//! that sampling it gave. The order of events across the lines is stated
//! over [`wire::Signal`] sequences.

pub mod full_duplex;
pub mod half_duplex;
pub mod pin;
mod shift;
pub mod wire;
