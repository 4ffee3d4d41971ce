//! What happens on the lines of a bus, as a sequence of signals, and the laws
//! of that sequence.

use vstd::prelude::*;

verus! {

/// One thing that a bus does to a line, or learns from one.
pub enum Signal {
    /// The clock line is driven low.
    ClockLow,
    /// The clock line is driven high.
    ClockHigh,
    /// The outgoing data line is driven to this level; `true` is high.
    DataOut(bool),
    /// The incoming data line is sampled and taken to be at this level. A
    /// sample that the pin failed to deliver counts as low.
    DataIn(bool),
}

/// Bit `k` of `word`, counted from the most significant one: bit 0 weighs 128
/// and bit 7 weighs 1.
pub open spec fn bit_of(word: u8, k: u8) -> bool {
    (word >> ((7 - k) as u8)) & 1 == 1
}

/// The eight bits of `word`, most significant first.
pub open spec fn bits_of(word: u8) -> Seq<bool> {
    Seq::new(8, |k: int| bit_of(word, k as u8))
}

/// The bits of all `words` in the order in which they cross a line: word by
/// word, and within a word most significant bit first.
pub open spec fn levels_of(words: Seq<u8>) -> Seq<bool> {
    Seq::new(8 * words.len(), |j: int| bit_of(words[j / 8], (j % 8) as u8))
}

/// What a level adds to a word when it stands at a place of the given weight.
pub open spec fn weigh(level: bool, weight: int) -> int {
    if level {
        weight
    } else {
        0
    }
}

/// The word that eight levels spell, the first one being its most significant
/// bit.
pub open spec fn word_of(levels: Seq<bool>) -> u8
    recommends
        levels.len() == 8,
{
    (weigh(levels[0], 128) + weigh(levels[1], 64) + weigh(levels[2], 32) + weigh(levels[3], 16)
        + weigh(levels[4], 8) + weigh(levels[5], 4) + weigh(levels[6], 2) + weigh(
        levels[7],
        1,
    )) as u8
}

/// The words that `levels` spell, eight levels to a word; levels beyond the
/// last full word are left out.
pub open spec fn words_of(levels: Seq<bool>) -> Seq<u8> {
    Seq::new(levels.len() / 8, |i: int| word_of(levels.subrange(8 * i, 8 * i + 8)))
}

/// Shifting `levels` out: each one is put on the outgoing data line and then
/// framed by one clock pulse, low and high again.
pub open spec fn clock_out(levels: Seq<bool>) -> Seq<Signal>
    decreases levels.len(),
{
    if levels.len() == 0 {
        Seq::empty()
    } else {
        clock_out(levels.drop_last()) + seq![
            Signal::DataOut(levels.last()),
            Signal::ClockLow,
            Signal::ClockHigh,
        ]
    }
}

/// Shifting `levels` in: one clock pulse for each, with the incoming data
/// line sampled right after the rising edge.
pub open spec fn clock_in(levels: Seq<bool>) -> Seq<Signal>
    decreases levels.len(),
{
    if levels.len() == 0 {
        Seq::empty()
    } else {
        clock_in(levels.drop_last()) + seq![
            Signal::ClockLow,
            Signal::ClockHigh,
            Signal::DataIn(levels.last()),
        ]
    }
}

/// Exchanging `sent` for `received`, bit by bit: the outgoing level is put on
/// its line, the clock pulses, and the incoming line is sampled.
pub open spec fn clock_both(sent: Seq<bool>, received: Seq<bool>) -> Seq<Signal>
    recommends
        sent.len() == received.len(),
    decreases sent.len(),
{
    if sent.len() == 0 || received.len() == 0 {
        Seq::empty()
    } else {
        clock_both(sent.drop_last(), received.drop_last()) + seq![
            Signal::DataOut(sent.last()),
            Signal::ClockLow,
            Signal::ClockHigh,
            Signal::DataIn(received.last()),
        ]
    }
}

/// The levels that a clock line goes through in `count` pulses: low and high
/// again, `count` times.
pub open spec fn pulse_levels(count: nat) -> Seq<bool> {
    Seq::new(2 * count, |i: int| i % 2 == 1)
}

/// The level that the clock line was last driven to, if it was driven at all.
pub open spec fn clock_level(trace: Seq<Signal>) -> Option<bool>
    decreases trace.len(),
{
    if trace.len() == 0 {
        None
    } else {
        match trace.last() {
            Signal::ClockLow => Some(false),
            Signal::ClockHigh => Some(true),
            _ => clock_level(trace.drop_last()),
        }
    }
}

/// The clock line rests high: it has been driven, and last of all high.
pub open spec fn clock_idle(trace: Seq<Signal>) -> bool {
    clock_level(trace) == Some(true)
}

/// The number of clock pulses in `trace`: the times the clock line is driven
/// low.
pub open spec fn pulses(trace: Seq<Signal>) -> nat
    decreases trace.len(),
{
    if trace.len() == 0 {
        0
    } else {
        pulses(trace.drop_last()) + if trace.last() == Signal::ClockLow {
            1nat
        } else {
            0nat
        }
    }
}

/// The levels that `trace` puts on the outgoing data line, in order.
pub open spec fn driven(trace: Seq<Signal>) -> Seq<bool>
    decreases trace.len(),
{
    if trace.len() == 0 {
        Seq::empty()
    } else {
        match trace.last() {
            Signal::DataOut(level) => driven(trace.drop_last()).push(level),
            _ => driven(trace.drop_last()),
        }
    }
}

/// The levels that `trace` samples from the incoming data line, in order.
pub open spec fn sampled(trace: Seq<Signal>) -> Seq<bool>
    decreases trace.len(),
{
    if trace.len() == 0 {
        Seq::empty()
    } else {
        match trace.last() {
            Signal::DataIn(level) => sampled(trace.drop_last()).push(level),
            _ => sampled(trace.drop_last()),
        }
    }
}

/// Shifting one more level out adds its three signals to the end of the trace.
pub proof fn lemma_clock_out_push(before: Seq<Signal>, levels: Seq<bool>, level: bool)
    ensures
        before + clock_out(levels.push(level)) == (before + clock_out(levels)).push(
            Signal::DataOut(level),
        ).push(Signal::ClockLow).push(Signal::ClockHigh),
{
    assert(levels.push(level).drop_last() == levels);
}

/// Shifting one more level in adds its three signals to the end of the trace.
pub proof fn lemma_clock_in_push(before: Seq<Signal>, levels: Seq<bool>, level: bool)
    ensures
        before + clock_in(levels.push(level)) == (before + clock_in(levels)).push(
            Signal::ClockLow,
        ).push(Signal::ClockHigh).push(Signal::DataIn(level)),
{
    assert(levels.push(level).drop_last() == levels);
}

/// Exchanging one more pair of levels adds its four signals to the end of the
/// trace.
pub proof fn lemma_clock_both_push(
    before: Seq<Signal>,
    sent: Seq<bool>,
    received: Seq<bool>,
    out: bool,
    inp: bool,
)
    ensures
        before + clock_both(sent.push(out), received.push(inp)) == (before + clock_both(
            sent,
            received,
        )).push(Signal::DataOut(out)).push(Signal::ClockLow).push(Signal::ClockHigh).push(
            Signal::DataIn(inp),
        ),
{
    assert(sent.push(out).drop_last() == sent);
    assert(received.push(inp).drop_last() == received);
}

/// The levels of a sequence of words with one more word at its end are the
/// levels of the sequence, then the bits of that word.
pub proof fn lemma_levels_of_push(words: Seq<u8>, word: u8)
    ensures
        levels_of(words.push(word)) == levels_of(words) + bits_of(word),
{
    let whole = levels_of(words.push(word));
    let parts = levels_of(words) + bits_of(word);
    assert(whole.len() == parts.len());
    assert forall|j: int| 0 <= j < whole.len() implies whole[j] == parts[j] by {
        if j >= 8 * words.len() {
            assert(j / 8 == words.len());
            assert(j % 8 == j - 8 * words.len());
        }
    }
}

/// Shifting out one run of levels after another is shifting out the two runs
/// joined.
pub proof fn lemma_clock_out_concat(first: Seq<bool>, second: Seq<bool>)
    ensures
        clock_out(first + second) == clock_out(first) + clock_out(second),
    decreases second.len(),
{
    if second.len() == 0 {
        assert(first + second == first);
    } else {
        lemma_clock_out_concat(first, second.drop_last());
        assert((first + second).drop_last() == first + second.drop_last());
    }
}

/// Shifting in one run of levels after another is shifting in the two runs
/// joined.
pub proof fn lemma_clock_in_concat(first: Seq<bool>, second: Seq<bool>)
    ensures
        clock_in(first + second) == clock_in(first) + clock_in(second),
    decreases second.len(),
{
    if second.len() == 0 {
        assert(first + second == first);
    } else {
        lemma_clock_in_concat(first, second.drop_last());
        assert((first + second).drop_last() == first + second.drop_last());
    }
}

/// Exchanging one run of levels after another is exchanging the two runs
/// joined, where each outgoing run is as long as its incoming one.
pub proof fn lemma_clock_both_concat(
    sent: Seq<bool>,
    received: Seq<bool>,
    more_sent: Seq<bool>,
    more_received: Seq<bool>,
)
    requires
        sent.len() == received.len(),
        more_sent.len() == more_received.len(),
    ensures
        clock_both(sent + more_sent, received + more_received) == clock_both(sent, received)
            + clock_both(more_sent, more_received),
    decreases more_sent.len(),
{
    if more_sent.len() == 0 {
        assert(sent + more_sent == sent);
        assert(received + more_received == received);
    } else {
        lemma_clock_both_concat(sent, received, more_sent.drop_last(), more_received.drop_last());
        assert((sent + more_sent).drop_last() == sent + more_sent.drop_last());
        assert((received + more_received).drop_last() == received + more_received.drop_last());
    }
}

/// Shifting out a sequence of words with one more word at its end is shifting
/// out the sequence and then that word.
pub proof fn lemma_clock_out_word(before: Seq<Signal>, words: Seq<u8>, word: u8)
    ensures
        before + clock_out(levels_of(words.push(word))) == before + clock_out(levels_of(words))
            + clock_out(bits_of(word)),
{
    lemma_levels_of_push(words, word);
    lemma_clock_out_concat(levels_of(words), bits_of(word));
    assert(before + (clock_out(levels_of(words)) + clock_out(bits_of(word))) == before
        + clock_out(levels_of(words)) + clock_out(bits_of(word)));
}

/// Shifting in a sequence of words with one more word at its end is shifting
/// in the sequence and then that word.
pub proof fn lemma_clock_in_word(before: Seq<Signal>, words: Seq<u8>, word: u8)
    ensures
        before + clock_in(levels_of(words.push(word))) == before + clock_in(levels_of(words))
            + clock_in(bits_of(word)),
{
    lemma_levels_of_push(words, word);
    lemma_clock_in_concat(levels_of(words), bits_of(word));
    assert(before + (clock_in(levels_of(words)) + clock_in(bits_of(word))) == before + clock_in(
        levels_of(words),
    ) + clock_in(bits_of(word)));
}

/// Exchanging two sequences of words, each with one more word at its end, is
/// exchanging the sequences and then those two words.
pub proof fn lemma_clock_both_word(
    before: Seq<Signal>,
    sent: Seq<u8>,
    received: Seq<u8>,
    out: u8,
    inp: u8,
)
    requires
        sent.len() == received.len(),
    ensures
        before + clock_both(levels_of(sent.push(out)), levels_of(received.push(inp))) == before
            + clock_both(levels_of(sent), levels_of(received)) + clock_both(
            bits_of(out),
            bits_of(inp),
        ),
{
    lemma_levels_of_push(sent, out);
    lemma_levels_of_push(received, inp);
    lemma_clock_both_concat(levels_of(sent), levels_of(received), bits_of(out), bits_of(inp));
    assert(before + (clock_both(levels_of(sent), levels_of(received)) + clock_both(
        bits_of(out),
        bits_of(inp),
    )) == before + clock_both(levels_of(sent), levels_of(received)) + clock_both(
        bits_of(out),
        bits_of(inp),
    ));
}

/// Shifting levels out leaves the clock line where it was if there are no
/// levels, and high otherwise.
pub proof fn lemma_clock_out_level(before: Seq<Signal>, levels: Seq<bool>)
    ensures
        clock_level(before + clock_out(levels)) == if levels.len() == 0 {
            clock_level(before)
        } else {
            Some(true)
        },
{
    if levels.len() == 0 {
        assert(before + clock_out(levels) == before);
    }
}

/// Shifting levels in leaves the clock line where it was if there are no
/// levels, and high otherwise.
pub proof fn lemma_clock_in_level(before: Seq<Signal>, levels: Seq<bool>)
    ensures
        clock_level(before + clock_in(levels)) == if levels.len() == 0 {
            clock_level(before)
        } else {
            Some(true)
        },
{
    if levels.len() == 0 {
        assert(before + clock_in(levels) == before);
    } else {
        let after = before + clock_in(levels);
        assert(after.last() == Signal::DataIn(levels.last()));
        assert(after.drop_last().last() == Signal::ClockHigh);
        reveal_with_fuel(clock_level, 2);
    }
}

/// Exchanging levels leaves the clock line where it was if there are no
/// levels, and high otherwise.
pub proof fn lemma_clock_both_level(before: Seq<Signal>, sent: Seq<bool>, received: Seq<bool>)
    requires
        sent.len() == received.len(),
    ensures
        clock_level(before + clock_both(sent, received)) == if sent.len() == 0 {
            clock_level(before)
        } else {
            Some(true)
        },
{
    if sent.len() == 0 {
        assert(before + clock_both(sent, received) == before);
    } else {
        let after = before + clock_both(sent, received);
        assert(after.last() == Signal::DataIn(received.last()));
        assert(after.drop_last().last() == Signal::ClockHigh);
        reveal_with_fuel(clock_level, 2);
    }
}

/// A word is the sum of the weights of its set bits.
proof fn lemma_word_is_weighed(word: u8)
    by (bit_vector)
    ensures
        word == (if (word >> 7u8) & 1 == 1 { 128u8 } else { 0u8 })
            + (if (word >> 6u8) & 1 == 1 { 64u8 } else { 0u8 })
            + (if (word >> 5u8) & 1 == 1 { 32u8 } else { 0u8 })
            + (if (word >> 4u8) & 1 == 1 { 16u8 } else { 0u8 })
            + (if (word >> 3u8) & 1 == 1 { 8u8 } else { 0u8 })
            + (if (word >> 2u8) & 1 == 1 { 4u8 } else { 0u8 })
            + (if (word >> 1u8) & 1 == 1 { 2u8 } else { 0u8 })
            + (if (word >> 0u8) & 1 == 1 { 1u8 } else { 0u8 }),
{
}

/// The bits of a word spell that word.
pub proof fn lemma_word_of_bits(word: u8)
    ensures
        word_of(bits_of(word)) == word,
{
    lemma_word_is_weighed(word);
}

/// The levels of a sequence of words spell those words: no two sequences of
/// words cross a line as the same levels.
pub proof fn lemma_words_of_levels(words: Seq<u8>)
    ensures
        words_of(levels_of(words)) == words,
{
    let levels = levels_of(words);
    assert(words_of(levels).len() == words.len());
    assert forall|i: int| 0 <= i < words.len() implies words_of(levels)[i] == words[i] by {
        let part = levels.subrange(8 * i, 8 * i + 8);
        assert forall|k: int| 0 <= k < 8 implies part[k] == bits_of(words[i])[k] by {
            assert((8 * i + k) / 8 == i);
            assert((8 * i + k) % 8 == k);
        }
        assert(part == bits_of(words[i]));
        lemma_word_of_bits(words[i]);
    }
}

/// Words that cross a line as the same levels are the same words. So a read
/// that samples, level for level, what a write drove yields the words
/// written, and an exchange that samples what it drives yields the words
/// sent.
pub proof fn lemma_same_levels_same_words(first: Seq<u8>, second: Seq<u8>)
    requires
        levels_of(first) == levels_of(second),
    ensures
        first == second,
{
    lemma_words_of_levels(first);
    lemma_words_of_levels(second);
}

/// What two traces in a row drive, sample and pulse is what the first does
/// and then what the second does.
pub proof fn lemma_concat_shows(first: Seq<Signal>, second: Seq<Signal>)
    ensures
        driven(first + second) == driven(first) + driven(second),
        sampled(first + second) == sampled(first) + sampled(second),
        pulses(first + second) == pulses(first) + pulses(second),
    decreases second.len(),
{
    if second.len() == 0 {
        assert(first + second == first);
    } else {
        lemma_concat_shows(first, second.drop_last());
        assert((first + second).drop_last() == first + second.drop_last());
    }
}

/// Shifting levels out drives exactly those levels, in order, samples
/// nothing, and takes one pulse for each level.
pub proof fn lemma_clock_out_shows(levels: Seq<bool>)
    ensures
        driven(clock_out(levels)) == levels,
        sampled(clock_out(levels)) == Seq::<bool>::empty(),
        pulses(clock_out(levels)) == levels.len(),
    decreases levels.len(),
{
    if levels.len() > 0 {
        let bit = seq![Signal::DataOut(levels.last()), Signal::ClockLow, Signal::ClockHigh];
        lemma_clock_out_shows(levels.drop_last());
        lemma_concat_shows(clock_out(levels.drop_last()), bit);
        reveal_with_fuel(driven, 4);
        reveal_with_fuel(sampled, 4);
        reveal_with_fuel(pulses, 4);
        assert(driven(bit) == seq![levels.last()]);
        assert(sampled(bit) == Seq::<bool>::empty());
        assert(pulses(bit) == 1);
        assert(levels == levels.drop_last() + seq![levels.last()]);
    }
}

/// Shifting levels in samples exactly those levels, in order, drives no data
/// line, and takes one pulse for each level.
pub proof fn lemma_clock_in_shows(levels: Seq<bool>)
    ensures
        driven(clock_in(levels)) == Seq::<bool>::empty(),
        sampled(clock_in(levels)) == levels,
        pulses(clock_in(levels)) == levels.len(),
    decreases levels.len(),
{
    if levels.len() > 0 {
        let bit = seq![Signal::ClockLow, Signal::ClockHigh, Signal::DataIn(levels.last())];
        lemma_clock_in_shows(levels.drop_last());
        lemma_concat_shows(clock_in(levels.drop_last()), bit);
        reveal_with_fuel(driven, 4);
        reveal_with_fuel(sampled, 4);
        reveal_with_fuel(pulses, 4);
        assert(driven(bit) == Seq::<bool>::empty());
        assert(sampled(bit) == seq![levels.last()]);
        assert(pulses(bit) == 1);
        assert(levels == levels.drop_last() + seq![levels.last()]);
    }
}

/// Exchanging levels drives exactly the levels sent and samples exactly the
/// levels received, each in order, and takes one pulse for each pair.
pub proof fn lemma_clock_both_shows(sent: Seq<bool>, received: Seq<bool>)
    requires
        sent.len() == received.len(),
    ensures
        driven(clock_both(sent, received)) == sent,
        sampled(clock_both(sent, received)) == received,
        pulses(clock_both(sent, received)) == sent.len(),
    decreases sent.len(),
{
    if sent.len() > 0 {
        let bit = seq![
            Signal::DataOut(sent.last()),
            Signal::ClockLow,
            Signal::ClockHigh,
            Signal::DataIn(received.last()),
        ];
        lemma_clock_both_shows(sent.drop_last(), received.drop_last());
        lemma_concat_shows(clock_both(sent.drop_last(), received.drop_last()), bit);
        reveal_with_fuel(driven, 5);
        reveal_with_fuel(sampled, 5);
        reveal_with_fuel(pulses, 5);
        assert(driven(bit) == seq![sent.last()]);
        assert(sampled(bit) == seq![received.last()]);
        assert(pulses(bit) == 1);
        assert(sent == sent.drop_last() + seq![sent.last()]);
        assert(received == received.drop_last() + seq![received.last()]);
    }
}

/// A write and then a read from a line that plays back, level for level,
/// what the write put on it: the read yields the words written.
pub proof fn lemma_write_then_read_echoes(written: Seq<u8>, read: Seq<u8>)
    requires
        sampled(clock_in(levels_of(read))) == driven(clock_out(levels_of(written))),
    ensures
        read == written,
{
    lemma_clock_in_shows(levels_of(read));
    lemma_clock_out_shows(levels_of(written));
    lemma_words_of_levels(read);
    lemma_words_of_levels(written);
}

/// An exchange over a line that hands every level straight back: the words
/// received are the words sent.
pub proof fn lemma_exchange_echoes(sent: Seq<u8>, received: Seq<u8>)
    requires
        sent.len() == received.len(),
        sampled(clock_both(levels_of(sent), levels_of(received))) == driven(
            clock_both(levels_of(sent), levels_of(received)),
        ),
    ensures
        received == sent,
{
    lemma_clock_both_shows(levels_of(sent), levels_of(received));
    lemma_words_of_levels(sent);
    lemma_words_of_levels(received);
}

/// Two exchanges in a row over a line that hands every level straight back,
/// the second sending what the first received: the words stay what they
/// were, as after a write and a read of them over such a line.
pub proof fn lemma_exchange_twice_echoes(first: Seq<u8>, second: Seq<u8>, third: Seq<u8>)
    requires
        first.len() == second.len(),
        second.len() == third.len(),
        sampled(clock_both(levels_of(first), levels_of(second))) == driven(
            clock_both(levels_of(first), levels_of(second)),
        ),
        sampled(clock_both(levels_of(second), levels_of(third))) == driven(
            clock_both(levels_of(second), levels_of(third)),
        ),
    ensures
        second == first,
        third == first,
{
    lemma_exchange_echoes(first, second);
    lemma_exchange_echoes(second, third);
}

/// Every word takes eight pulses, whichever way it goes.
pub proof fn lemma_eight_pulses_a_word(sent: Seq<u8>, received: Seq<u8>)
    requires
        sent.len() == received.len(),
    ensures
        pulses(clock_out(levels_of(sent))) == 8 * sent.len(),
        pulses(clock_in(levels_of(received))) == 8 * received.len(),
        pulses(clock_both(levels_of(sent), levels_of(received))) == 8 * sent.len(),
{
    lemma_clock_out_shows(levels_of(sent));
    lemma_clock_in_shows(levels_of(received));
    lemma_clock_both_shows(levels_of(sent), levels_of(received));
}

/// One run of pulses after another is one run of as many pulses as both.
pub proof fn lemma_pulse_levels_add(before: Seq<bool>, first: nat, second: nat)
    ensures
        before + pulse_levels(first) + pulse_levels(second) == before + pulse_levels(
            first + second,
        ),
        before + pulse_levels(first + 1) == (before + pulse_levels(first)).push(false).push(true),
{
    let joined = before + pulse_levels(first) + pulse_levels(second);
    let whole = before + pulse_levels(first + second);
    assert(joined.len() == whole.len());
    assert forall|i: int| 0 <= i < joined.len() implies joined[i] == whole[i] by {
        if i >= before.len() + 2 * first {
            assert((i - before.len() - 2 * first) % 2 == (i - before.len()) % 2);
        }
    }
    let longer = before + pulse_levels(first + 1);
    let pushed = (before + pulse_levels(first)).push(false).push(true);
    assert(longer.len() == pushed.len());
    assert forall|i: int| 0 <= i < longer.len() implies longer[i] == pushed[i] by {
        if i >= before.len() + 2 * first {
            assert((i - before.len()) % 2 == (i - before.len() - 2 * first) % 2);
        }
    }
}

/// A clock line that pulses ends high; one that does not pulse stays as it
/// was.
pub proof fn lemma_pulse_levels_rest(before: Seq<bool>, count: nat)
    ensures
        count == 0 ==> before + pulse_levels(count) == before,
        count > 0 ==> (before + pulse_levels(count)).len() > 0 && (before + pulse_levels(
            count,
        )).last(),
{
    if count > 0 {
        let after = before + pulse_levels(count);
        assert(after.last() == pulse_levels(count)[2 * count - 1]);
    }
}

} // verus!
