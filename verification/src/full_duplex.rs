//! The bus with a data line for each direction.

use crate::pin::{BusError, InputPin, OutputPin};
use crate::shift::{shift_both, shift_words_in, shift_words_out};
use crate::wire::{
    bits_of, clock_both, clock_idle, clock_in, clock_out, lemma_clock_both_level,
    lemma_clock_both_word, lemma_clock_in_level, lemma_clock_out_level, lemma_levels_of_push,
    lemma_pulse_levels_add, lemma_pulse_levels_rest, levels_of, pulse_levels, Signal,
};
use vstd::prelude::*;

verus! {

/// A bus over three lines: a clock and an outgoing data line, which it
/// drives, and an incoming data line, which it samples.
pub struct SoftSpi<In: InputPin, Out: OutputPin> {
    sck: Out,
    miso: In,
    mosi: Out,
    trace: Ghost<Seq<Signal>>,
}

impl<In: InputPin, Out: OutputPin> SoftSpi<In, Out> {
    /// The levels that the clock pin was told to drive, oldest first.
    pub closed spec fn clock_driven(&self) -> Seq<bool> {
        self.sck.levels_driven()
    }

    /// The levels that the outgoing data pin was told to drive, oldest first.
    pub closed spec fn data_driven(&self) -> Seq<bool> {
        self.mosi.levels_driven()
    }

    /// The levels that sampling the incoming data pin has given, oldest
    /// first.
    pub closed spec fn data_sampled(&self) -> Seq<bool> {
        self.miso.levels_sampled()
    }

    /// What the bus has done to its three lines since it was made, in the
    /// order in which it did it across the lines.
    pub closed spec fn trace(&self) -> Seq<Signal> {
        self.trace@
    }

    /// The clock pin was last told to drive its line high.
    pub open spec fn clock_rests_high(&self) -> bool {
        self.clock_driven().len() > 0 && self.clock_driven().last()
    }

    /// What `words` pulses and an ordered run of signals add to the clock
    /// line and to the trace of a bus that was `before`.
    pub open spec fn clocked(&self, before: Self, words: nat, signals: Seq<Signal>) -> bool {
        &&& self.clock_driven() == before.clock_driven() + pulse_levels(8 * words)
        &&& self.trace() == before.trace() + signals
        &&& before.clock_rests_high() ==> self.clock_rests_high()
        &&& clock_idle(before.trace()) ==> clock_idle(self.trace())
    }

    /// What an exchange of `sent` for `received` does to the lines of a bus
    /// that was `before`: eight pulses for each word, every bit of `sent` on
    /// the outgoing line, every bit of `received` a sample of the incoming
    /// one.
    pub open spec fn exchanged(&self, before: Self, sent: Seq<u8>, received: Seq<u8>) -> bool {
        &&& self.clocked(before, sent.len(), clock_both(levels_of(sent), levels_of(received)))
        &&& self.data_driven() == before.data_driven() + levels_of(sent)
        &&& self.data_sampled() == before.data_sampled() + levels_of(received)
    }

    /// Takes the three pins and drives the clock high, where it rests. The
    /// data pins are not touched.
    pub fn new(sck: Out, miso: In, mosi: Out) -> (bus: SoftSpi<In, Out>)
        ensures
            bus.clock_driven() == sck.levels_driven().push(true),
            bus.data_driven() == mosi.levels_driven(),
            bus.data_sampled() == miso.levels_sampled(),
            bus.trace() == seq![Signal::ClockHigh],
            bus.clock_rests_high(),
            clock_idle(bus.trace()),
    {
        let mut sck = sck;
        let _ = sck.set_high();
        let bus = SoftSpi { sck, miso, mosi, trace: Ghost(Seq::empty().push(Signal::ClockHigh)) };
        assert(bus.trace@ == seq![Signal::ClockHigh]);
        bus
    }

    /// Fills `words` from the incoming data line: eight pulses for each word,
    /// a sample after each rising edge, the first sample being the word's most
    /// significant bit. What `words` held before does not matter, and the
    /// outgoing data line is left alone.
    pub fn read(&mut self, words: &mut [u8]) -> (outcome: Result<(), BusError>)
        ensures
            outcome is Ok,
            final(words)@.len() == old(words)@.len(),
            final(self).data_sampled() == old(self).data_sampled() + levels_of(final(words)@),
            final(self).data_driven() == old(self).data_driven(),
            final(self).clocked(
                *old(self),
                old(words)@.len(),
                clock_in(levels_of(final(words)@)),
            ),
    {
        let ghost before = *self;
        shift_words_in(&mut self.sck, &mut self.miso, words, &mut self.trace);
        proof {
            lemma_pulse_levels_rest(before.clock_driven(), 8 * words@.len());
            lemma_clock_in_level(before.trace(), levels_of(words@));
        }
        Ok(())
    }

    /// Sends `words` on the outgoing data line: each bit is put on the line
    /// and then framed by one pulse, most significant bit first. The incoming
    /// data line is not sampled.
    pub fn write(&mut self, words: &[u8]) -> (outcome: Result<(), BusError>)
        ensures
            outcome is Ok,
            final(self).data_driven() == old(self).data_driven() + levels_of(words@),
            final(self).data_sampled() == old(self).data_sampled(),
            final(self).clocked(*old(self), words@.len(), clock_out(levels_of(words@))),
    {
        let ghost before = *self;
        shift_words_out(&mut self.sck, &mut self.mosi, words, &mut self.trace);
        proof {
            lemma_pulse_levels_rest(before.clock_driven(), 8 * words@.len());
            lemma_clock_out_level(before.trace(), levels_of(words@));
        }
        Ok(())
    }

    /// Sends `write` and fills `read` at once, bit by bit: the outgoing bit is
    /// put on its line, the clock pulses, and the incoming line is sampled.
    /// The two buffers must be of one length.
    pub fn transfer(&mut self, read: &mut [u8], write: &[u8]) -> (outcome: Result<(), BusError>)
        requires
            old(read)@.len() == write@.len(),
        ensures
            outcome is Ok,
            final(read)@.len() == old(read)@.len(),
            final(self).exchanged(*old(self), write@, final(read)@),
    {
        let ghost before = *self;
        let n = read.len();
        let mut i: usize = 0;
        while i < n
            invariant
                i <= n,
                read@.len() == n,
                write@.len() == n,
                self.sck.levels_driven() == before.sck.levels_driven() + pulse_levels(8 * i as nat),
                self.mosi.levels_driven() == before.mosi.levels_driven() + levels_of(
                    write@.take(i as int),
                ),
                self.miso.levels_sampled() == before.miso.levels_sampled() + levels_of(
                    read@.take(i as int),
                ),
                self.trace@ == before.trace@ + clock_both(
                    levels_of(write@.take(i as int)),
                    levels_of(read@.take(i as int)),
                ),
            decreases n - i,
        {
            let ghost sent = write@.take(i as int);
            let ghost received = read@.take(i as int);
            let word = shift_both(
                &mut self.sck,
                &mut self.mosi,
                &mut self.miso,
                write[i],
                &mut self.trace,
            );
            read[i] = word;
            proof {
                assert(write@.take(i + 1) == sent.push(write@[i as int]));
                assert(read@.take(i + 1) == received.push(word));
                Self::lemma_one_more_word(before, sent, received, write@[i as int], word);
            }
            i += 1;
        }
        proof {
            assert(write@.take(n as int) == write@);
            assert(read@.take(n as int) == read@);
            lemma_pulse_levels_rest(before.clock_driven(), 8 * write@.len());
            lemma_clock_both_level(before.trace(), levels_of(write@), levels_of(read@));
        }
        Ok(())
    }

    /// Does what `transfer` does where the two buffers are of one length, and
    /// nothing where they are not: then no line is touched and `read` keeps
    /// what it held.
    pub fn try_transfer(&mut self, read: &mut [u8], write: &[u8]) -> (outcome: Option<
        Result<(), BusError>,
    >)
        ensures
            outcome is Some <==> old(read)@.len() == write@.len(),
            outcome is None ==> *final(self) == *old(self) && final(read)@ == old(read)@,
            outcome matches Some(done) ==> done is Ok && final(read)@.len() == old(read)@.len()
                && final(self).exchanged(*old(self), write@, final(read)@),
    {
        if read.len() == write.len() {
            Some(self.transfer(read, write))
        } else {
            None
        }
    }

    /// Sends `words` and puts what comes in at once in their place. Each word
    /// is sent whole as it stood before it is overwritten.
    pub fn transfer_in_place(&mut self, words: &mut [u8]) -> (outcome: Result<(), BusError>)
        ensures
            outcome is Ok,
            final(words)@.len() == old(words)@.len(),
            final(self).exchanged(*old(self), old(words)@, final(words)@),
    {
        let ghost before = *self;
        let ghost sending = words@;
        let n = words.len();
        let mut i: usize = 0;
        while i < n
            invariant
                i <= n,
                words@.len() == n,
                sending.len() == n,
                forall|j: int| i <= j < n ==> words@[j] == sending[j],
                self.sck.levels_driven() == before.sck.levels_driven() + pulse_levels(8 * i as nat),
                self.mosi.levels_driven() == before.mosi.levels_driven() + levels_of(
                    sending.take(i as int),
                ),
                self.miso.levels_sampled() == before.miso.levels_sampled() + levels_of(
                    words@.take(i as int),
                ),
                self.trace@ == before.trace@ + clock_both(
                    levels_of(sending.take(i as int)),
                    levels_of(words@.take(i as int)),
                ),
            decreases n - i,
        {
            let ghost sent = sending.take(i as int);
            let ghost received = words@.take(i as int);
            let word = shift_both(
                &mut self.sck,
                &mut self.mosi,
                &mut self.miso,
                words[i],
                &mut self.trace,
            );
            words[i] = word;
            proof {
                assert(sending.take(i + 1) == sent.push(sending[i as int]));
                assert(words@.take(i + 1) == received.push(word));
                Self::lemma_one_more_word(before, sent, received, sending[i as int], word);
            }
            i += 1;
        }
        proof {
            assert(sending.take(n as int) == sending);
            assert(words@.take(n as int) == words@);
            lemma_pulse_levels_rest(before.clock_driven(), 8 * sending.len());
            lemma_clock_both_level(before.trace(), levels_of(sending), levels_of(words@));
        }
        Ok(())
    }

    /// Waits until the bus is done. Every operation is done when it returns,
    /// so there is nothing to wait for and nothing changes.
    pub fn flush(&mut self) -> (outcome: Result<(), BusError>)
        ensures
            outcome is Ok,
            *final(self) == *old(self),
    {
        Ok(())
    }

    /// An exchange of words and then of one more word is the exchange of them
    /// all, on every line.
    proof fn lemma_one_more_word(before: Self, sent: Seq<u8>, received: Seq<u8>, out: u8, inp: u8)
        requires
            sent.len() == received.len(),
        ensures
            before.sck.levels_driven() + pulse_levels(8 * sent.len()) + pulse_levels(8)
                == before.sck.levels_driven() + pulse_levels(8 * (sent.len() + 1)),
            before.mosi.levels_driven() + levels_of(sent) + bits_of(out)
                == before.mosi.levels_driven() + levels_of(sent.push(out)),
            before.miso.levels_sampled() + levels_of(received) + bits_of(inp)
                == before.miso.levels_sampled() + levels_of(received.push(inp)),
            before.trace@ + clock_both(levels_of(sent), levels_of(received)) + clock_both(
                bits_of(out),
                bits_of(inp),
            ) == before.trace@ + clock_both(
                levels_of(sent.push(out)),
                levels_of(received.push(inp)),
            ),
    {
        lemma_pulse_levels_add(before.sck.levels_driven(), 8 * sent.len(), 8);
        lemma_levels_of_push(sent, out);
        lemma_levels_of_push(received, inp);
        assert(before.mosi.levels_driven() + (levels_of(sent) + bits_of(out))
            == before.mosi.levels_driven() + levels_of(sent) + bits_of(out));
        assert(before.miso.levels_sampled() + (levels_of(received) + bits_of(inp))
            == before.miso.levels_sampled() + levels_of(received) + bits_of(inp));
        lemma_clock_both_word(before.trace@, sent, received, out, inp);
    }
}

} // verus!
