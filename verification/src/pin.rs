//! The pins that a bus is built from, and what a bus operation reports.

use vstd::prelude::*;

verus! {

/// A pin could not carry out what was asked of it.
#[derive(Debug, Clone, Copy, PartialEq, Eq)]
pub struct PinFault;

/// A bus operation failed. The operations of this crate drop pin faults where
/// they occur, so none of them returns it.
#[derive(Debug, Clone, Copy, PartialEq, Eq)]
pub enum BusError {
    /// A fault with no closer description.
    Other,
}

/// A run of levels on one line, oldest first; `true` is high.
pub type Levels = Seq<bool>;

/// What has been asked of a pin so far. Only the methods of [`OutputPin`] and
/// [`InputPin`] add to these two records, each to its own.
///
/// Both records are ghost: contracts and proofs speak of them and nothing
/// runs them. Every proof about a bus rests on the clauses that the methods
/// of the two pin traits carry here; they hold of any pin once the records
/// are read as the history of its calls. An implementation that Verus does
/// not read gives the two functions a body that is never run.
pub trait Line {
    /// The levels that the pin was told to drive its line to, oldest first;
    /// `true` is high. A call counts whether or not the pin reports a fault.
    spec fn levels_driven(&self) -> Levels;

    /// The levels that sampling the pin has given, oldest first, as
    /// [`level_of`] counts them.
    spec fn levels_sampled(&self) -> Levels;
}

/// A pin that the bus drives.
///
/// What a call returns is looked at only to be dropped.
pub trait OutputPin: Line {
    /// Drives the line low.
    fn set_low(&mut self) -> (done: Result<(), PinFault>)
        ensures
            final(self).levels_driven() == old(self).levels_driven().push(false),
            final(self).levels_sampled() == old(self).levels_sampled(),
    ;

    /// Drives the line high.
    fn set_high(&mut self) -> (done: Result<(), PinFault>)
        ensures
            final(self).levels_driven() == old(self).levels_driven().push(true),
            final(self).levels_sampled() == old(self).levels_sampled(),
    ;

    /// Drives the line high where `high` holds, low where it does not.
    fn set_state(&mut self, high: bool) -> (done: Result<(), PinFault>)
        ensures
            final(self).levels_driven() == old(self).levels_driven().push(high),
            final(self).levels_sampled() == old(self).levels_sampled(),
    ;
}

/// A pin that the bus samples.
pub trait InputPin: Line {
    /// Whether the line is high at this moment.
    fn is_high(&mut self) -> (answer: Result<bool, PinFault>)
        ensures
            final(self).levels_sampled() == old(self).levels_sampled().push(
                level_is_high(answer),
            ),
            final(self).levels_driven() == old(self).levels_driven(),
    ;
}

/// The level that a sample stands for: high where the pin answered that the
/// line is high, low where it answered low and where it failed.
pub open spec fn level_is_high(answer: Result<bool, PinFault>) -> bool {
    answer matches Ok(level) && level
}

/// The level that the bus takes a sample to be: a sample that the pin failed
/// to deliver counts as low.
pub fn level_of(answer: Result<bool, PinFault>) -> (high: bool)
    ensures
        high == level_is_high(answer),
{
    match answer {
        Ok(level) => level,
        Err(_) => false,
    }
}

} // verus!
