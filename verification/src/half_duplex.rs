//! The bus with one data line for both directions.

use crate::pin::{BusError, InputPin, OutputPin};
use crate::shift::{shift_words_in, shift_words_out};
use crate::wire::{
    clock_idle, clock_in, clock_level, clock_out, driven, lemma_clock_in_level,
    lemma_clock_out_level, lemma_concat_shows, lemma_pulse_levels_rest, levels_of, pulse_levels,
    sampled, Signal,
};
use vstd::prelude::*;

verus! {

/// A bus over two lines: a clock, which it drives, and one data line, which
/// it drives when it sends and samples when it receives. The data line needs
/// a pull-up; the bus cannot tell whether it has one.
pub struct SoftSpi<Out, InOut> where Out: OutputPin, InOut: InputPin + OutputPin {
    sck: Out,
    sda: InOut,
    trace: Ghost<Seq<Signal>>,
}

impl<Out, InOut> SoftSpi<Out, InOut> where Out: OutputPin, InOut: InputPin + OutputPin {
    /// The levels that the clock pin was told to drive, oldest first.
    pub closed spec fn clock_driven(&self) -> Seq<bool> {
        self.sck.levels_driven()
    }

    /// The levels that the data pin was told to drive, oldest first.
    pub closed spec fn data_driven(&self) -> Seq<bool> {
        self.sda.levels_driven()
    }

    /// The levels that sampling the data pin has given, oldest first.
    pub closed spec fn data_sampled(&self) -> Seq<bool> {
        self.sda.levels_sampled()
    }

    /// What the bus has done to its two lines since it was made, in the order
    /// in which it did it across the lines. Driving the data line is a
    /// `DataOut`, sampling it a `DataIn`.
    pub closed spec fn trace(&self) -> Seq<Signal> {
        self.trace@
    }

    /// The clock pin was last told to drive its line high.
    pub open spec fn clock_rests_high(&self) -> bool {
        self.clock_driven().len() > 0 && self.clock_driven().last()
    }

    /// What `words` pulses and an ordered run of signals add to the clock
    /// line and to the trace of a bus that was `before`.
    pub open spec fn clocked(&self, before: Self, words: nat, signals: Seq<Signal>) -> bool {
        &&& self.clock_driven() == before.clock_driven() + pulse_levels(8 * words)
        &&& self.trace() == before.trace() + signals
        &&& before.clock_rests_high() ==> self.clock_rests_high()
        &&& clock_idle(before.trace()) ==> clock_idle(self.trace())
    }

    /// Takes the two pins and drives the clock high, where it rests. The data
    /// line is left as it is.
    pub fn new(sck: Out, sda: InOut) -> (bus: Self)
        ensures
            bus.clock_driven() == sck.levels_driven().push(true),
            bus.data_driven() == sda.levels_driven(),
            bus.data_sampled() == sda.levels_sampled(),
            bus.trace() == seq![Signal::ClockHigh],
            bus.clock_rests_high(),
            clock_idle(bus.trace()),
    {
        let mut sck = sck;
        let _ = sck.set_high();
        let bus = SoftSpi { sck, sda, trace: Ghost(Seq::empty().push(Signal::ClockHigh)) };
        assert(bus.trace@ == seq![Signal::ClockHigh]);
        bus
    }

    /// Fills `words` from the data line. The line is first driven high, so
    /// that the other side can pull it low; then come eight pulses for each
    /// word, a sample after each rising edge, the first sample being the
    /// word's most significant bit. What `words` held before does not matter.
    pub fn read(&mut self, words: &mut [u8]) -> (outcome: Result<(), BusError>)
        ensures
            outcome is Ok,
            final(words)@.len() == old(words)@.len(),
            final(self).data_driven() == old(self).data_driven().push(true),
            final(self).data_sampled() == old(self).data_sampled() + levels_of(final(words)@),
            final(self).clocked(
                *old(self),
                old(words)@.len(),
                seq![Signal::DataOut(true)] + clock_in(levels_of(final(words)@)),
            ),
    {
        let ghost before = *self;
        let ghost start = self.trace@;
        let _ = self.sda.set_high();
        proof {
            self.trace@ = start.push(Signal::DataOut(true));
        }
        let ghost freed = self.trace@;
        proof {
            assert(freed.drop_last() == start);
            assert(clock_level(freed) == clock_level(start));
        }
        shift_words_in(&mut self.sck, &mut self.sda, words, &mut self.trace);
        proof {
            lemma_clock_in_level(freed, levels_of(words@));
            lemma_pulse_levels_rest(before.clock_driven(), 8 * words@.len());
            assert(freed + clock_in(levels_of(words@)) == start + (seq![Signal::DataOut(true)]
                + clock_in(levels_of(words@))));
        }
        Ok(())
    }

    /// Sends `words` on the data line: each bit is put on the line and then
    /// framed by one pulse, most significant bit first. The line is not
    /// sampled, and stays at the level of the last bit.
    pub fn write(&mut self, words: &[u8]) -> (outcome: Result<(), BusError>)
        ensures
            outcome is Ok,
            final(self).data_driven() == old(self).data_driven() + levels_of(words@),
            final(self).data_sampled() == old(self).data_sampled(),
            final(self).clocked(*old(self), words@.len(), clock_out(levels_of(words@))),
    {
        let ghost before = *self;
        shift_words_out(&mut self.sck, &mut self.sda, words, &mut self.trace);
        proof {
            lemma_pulse_levels_rest(before.clock_driven(), 8 * words@.len());
            lemma_clock_out_level(before.trace(), levels_of(words@));
        }
        Ok(())
    }

    /// Does nothing and reports success: one line cannot carry a bit each way
    /// at once. No line is touched and `read` keeps what it held, whatever the
    /// lengths of the two buffers. To exchange data, `write` and then `read`.
    pub fn transfer(&mut self, read: &mut [u8], write: &[u8]) -> (outcome: Result<(), BusError>)
        ensures
            outcome is Ok,
            final(read)@ == old(read)@,
            *final(self) == *old(self),
    {
        Ok(())
    }

    /// Does nothing and reports success, as `transfer` does: no line is
    /// touched and `words` keeps what it held.
    pub fn transfer_in_place(&mut self, words: &mut [u8]) -> (outcome: Result<(), BusError>)
        ensures
            outcome is Ok,
            final(words)@ == old(words)@,
            *final(self) == *old(self),
    {
        Ok(())
    }

    /// Waits until the bus is done. Every operation is done when it returns,
    /// so there is nothing to wait for and nothing changes.
    pub fn flush(&mut self) -> (outcome: Result<(), BusError>)
        ensures
            outcome is Ok,
            *final(self) == *old(self),
    {
        Ok(())
    }
}

/// A write and then a read over a data line whose far end plays back, level
/// for level, what the write put on it: the read yields the words written.
/// The level that the read drives first, to free the line, is no sample and
/// takes no part in it.
pub proof fn lemma_write_then_read_echoes(written: Seq<u8>, read: Seq<u8>)
    requires
        sampled(seq![Signal::DataOut(true)] + clock_in(levels_of(read))) == driven(
            clock_out(levels_of(written)),
        ),
    ensures
        read == written,
{
    let freeing = seq![Signal::DataOut(true)];
    lemma_concat_shows(freeing, clock_in(levels_of(read)));
    assert(sampled(freeing) == Seq::<bool>::empty()) by {
        reveal_with_fuel(sampled, 2);
    }
    assert(Seq::<bool>::empty() + sampled(clock_in(levels_of(read))) == sampled(
        clock_in(levels_of(read)),
    ));
    crate::wire::lemma_write_then_read_echoes(written, read);
}

} // verus!
