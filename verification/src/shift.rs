//! Moving words over the lines, a bit at a time.

use crate::pin::{level_of, InputPin, OutputPin};
use crate::wire::{
    bits_of, clock_both, clock_in, clock_out, lemma_clock_both_push, lemma_clock_in_push,
    lemma_clock_in_word, lemma_clock_out_push, lemma_clock_out_word, lemma_levels_of_push,
    lemma_pulse_levels_add, levels_of, pulse_levels, Signal,
};
use vstd::prelude::*;

verus! {

/// Bit `i` of `word`, counted from the least significant one.
pub(crate) open spec fn low_bit(word: u8, i: u8) -> bool {
    (word >> i) & 1 == 1
}

/// `word` after it has taken `high` in at its low end.
pub(crate) open spec fn taken_in(word: u8, high: bool) -> u8 {
    if high {
        (word << 1) | 1
    } else {
        word << 1
    }
}

/// The mask that picks bit `k`, most significant first, once the word has
/// been moved left by `k`, is the top bit.
proof fn lemma_top_bit(word: u8, k: u8)
    by (bit_vector)
    requires
        k < 8,
    ensures
        ((word << k) & 0x80 != 0) == ((word >> ((7 - k) as u8)) & 1 == 1),
{
}

/// After a word has taken a level in at its low end, that level is its bit 0
/// and every bit that stays has moved up by one.
proof fn lemma_take_in(word: u8, high: bool, next: u8, i: u8)
    by (bit_vector)
    requires
        next == if high {
            (word << 1) | 1
        } else {
            word << 1
        },
        i < 7,
    ensures
        ((next >> 0) & 1 == 1) == high,
        ((next >> ((i + 1) as u8)) & 1 == 1) == ((word >> i) & 1 == 1),
{
}

/// A word that holds `k` levels in its low bits, the oldest highest, holds
/// `k + 1` of them after it has taken one more in.
proof fn lemma_taken_in(got: Seq<bool>, word: u8, high: bool, k: u8)
    requires
        k < 8,
        got.len() == k,
        forall|j: int| 0 <= j < k ==> got[j] == low_bit(word, (k - 1 - j) as u8),
    ensures
        forall|j: int|
            0 <= j < k + 1 ==> got.push(high)[j] == low_bit(taken_in(word, high), (k - j) as u8),
{
    assert forall|j: int| 0 <= j < k + 1 implies got.push(high)[j] == low_bit(
        taken_in(word, high),
        (k - j) as u8,
    ) by {
        if j < k {
            lemma_take_in(word, high, taken_in(word, high), (k - 1 - j) as u8);
        } else {
            lemma_take_in(word, high, taken_in(word, high), 0);
        }
    }
}

/// Moves `word` up by one bit and puts `high` in at its low end.
fn take_in(word: u8, high: bool) -> (next: u8)
    ensures
        next == taken_in(word, high),
{
    let moved: u8 = word << 1;
    if high {
        moved | 1
    } else {
        moved
    }
}

/// One clock pulse: low, then high again.
pub(crate) fn pulse<C: OutputPin>(sck: &mut C, log: &mut Ghost<Seq<Signal>>)
    ensures
        final(sck).levels_driven() == old(sck).levels_driven().push(false).push(true),
        final(log)@ == old(log)@.push(Signal::ClockLow).push(Signal::ClockHigh),
{
    let _ = sck.set_low();
    let _ = sck.set_high();
    proof {
        log@ = log@.push(Signal::ClockLow).push(Signal::ClockHigh);
    }
}

/// Puts `high` on the outgoing data line.
pub(crate) fn put<D: OutputPin>(data: &mut D, high: bool, log: &mut Ghost<Seq<Signal>>)
    ensures
        final(data).levels_driven() == old(data).levels_driven().push(high),
        final(data).levels_sampled() == old(data).levels_sampled(),
        final(log)@ == old(log)@.push(Signal::DataOut(high)),
{
    let _ = data.set_state(high);
    proof {
        log@ = log@.push(Signal::DataOut(high));
    }
}

/// Samples the incoming data line. A pin that fails counts as low.
pub(crate) fn take<D: InputPin>(data: &mut D, log: &mut Ghost<Seq<Signal>>) -> (high: bool)
    ensures
        final(data).levels_sampled() == old(data).levels_sampled().push(high),
        final(data).levels_driven() == old(data).levels_driven(),
        final(log)@ == old(log)@.push(Signal::DataIn(high)),
{
    let high = level_of(data.is_high());
    proof {
        log@ = log@.push(Signal::DataIn(high));
    }
    high
}

/// Shifts `word` out, most significant bit first.
pub(crate) fn shift_out<C: OutputPin, D: OutputPin>(
    sck: &mut C,
    data: &mut D,
    word: u8,
    log: &mut Ghost<Seq<Signal>>,
)
    ensures
        final(sck).levels_driven() == old(sck).levels_driven() + pulse_levels(8),
        final(data).levels_driven() == old(data).levels_driven() + bits_of(word),
        final(data).levels_sampled() == old(data).levels_sampled(),
        final(log)@ == old(log)@ + clock_out(bits_of(word)),
{
    let ghost start = log@;
    let ghost clock = sck.levels_driven();
    let ghost line = data.levels_driven();
    let ghost heard = data.levels_sampled();
    let mut k: u8 = 0;
    while k < 8
        invariant
            k <= 8,
            sck.levels_driven() == clock + pulse_levels(k as nat),
            data.levels_driven() == line + bits_of(word).take(k as int),
            data.levels_sampled() == heard,
            log@ == start + clock_out(bits_of(word).take(k as int)),
        decreases 8 - k,
    {
        let bit: u8 = (word << k) & 0x80;
        proof {
            lemma_top_bit(word, k);
            let sent = bits_of(word).take(k as int);
            assert(bits_of(word).take(k + 1) == sent.push(bit != 0));
            assert(line + sent.push(bit != 0) == (line + sent).push(bit != 0));
            lemma_clock_out_push(start, sent, bit != 0);
            lemma_pulse_levels_add(clock, k as nat, 0);
        }
        put(data, bit != 0, log);
        pulse(sck, log);
        k = k + 1;
    }
    assert(bits_of(word).take(8) == bits_of(word));
}

/// Shifts a word in, most significant bit first.
pub(crate) fn shift_in<C: OutputPin, D: InputPin>(
    sck: &mut C,
    data: &mut D,
    log: &mut Ghost<Seq<Signal>>,
) -> (word: u8)
    ensures
        final(sck).levels_driven() == old(sck).levels_driven() + pulse_levels(8),
        final(data).levels_sampled() == old(data).levels_sampled() + bits_of(word),
        final(data).levels_driven() == old(data).levels_driven(),
        final(log)@ == old(log)@ + clock_in(bits_of(word)),
{
    let ghost start = log@;
    let ghost clock = sck.levels_driven();
    let ghost line = data.levels_sampled();
    let ghost told = data.levels_driven();
    let ghost mut got: Seq<bool> = Seq::empty();
    let mut word: u8 = 0;
    let mut k: u8 = 0;
    while k < 8
        invariant
            k <= 8,
            got.len() == k,
            forall|j: int| 0 <= j < k ==> got[j] == low_bit(word, (k - 1 - j) as u8),
            sck.levels_driven() == clock + pulse_levels(k as nat),
            data.levels_sampled() == line + got,
            data.levels_driven() == told,
            log@ == start + clock_in(got),
        decreases 8 - k,
    {
        pulse(sck, log);
        let high = take(data, log);
        proof {
            lemma_taken_in(got, word, high, k);
            lemma_clock_in_push(start, got, high);
            lemma_pulse_levels_add(clock, k as nat, 0);
            assert(line + got.push(high) == (line + got).push(high));
            got = got.push(high);
        }
        word = take_in(word, high);
        k = k + 1;
    }
    assert(got == bits_of(word));
    word
}

/// Shifts `sent` out and a word in at once, most significant bit first: each
/// outgoing bit is on its line before the pulse, each incoming one is sampled
/// after it.
pub(crate) fn shift_both<C: OutputPin, O: OutputPin, I: InputPin>(
    sck: &mut C,
    data_out: &mut O,
    data_in: &mut I,
    sent: u8,
    log: &mut Ghost<Seq<Signal>>,
) -> (word: u8)
    ensures
        final(sck).levels_driven() == old(sck).levels_driven() + pulse_levels(8),
        final(data_out).levels_driven() == old(data_out).levels_driven() + bits_of(sent),
        final(data_in).levels_sampled() == old(data_in).levels_sampled() + bits_of(word),
        final(log)@ == old(log)@ + clock_both(bits_of(sent), bits_of(word)),
{
    let ghost start = log@;
    let ghost clock = sck.levels_driven();
    let ghost line_out = data_out.levels_driven();
    let ghost line_in = data_in.levels_sampled();
    let ghost mut got: Seq<bool> = Seq::empty();
    let mut word: u8 = 0;
    let mut k: u8 = 0;
    while k < 8
        invariant
            k <= 8,
            got.len() == k,
            forall|j: int| 0 <= j < k ==> got[j] == low_bit(word, (k - 1 - j) as u8),
            sck.levels_driven() == clock + pulse_levels(k as nat),
            data_out.levels_driven() == line_out + bits_of(sent).take(k as int),
            data_in.levels_sampled() == line_in + got,
            log@ == start + clock_both(bits_of(sent).take(k as int), got),
        decreases 8 - k,
    {
        let bit: u8 = (sent << k) & 0x80;
        put(data_out, bit != 0, log);
        pulse(sck, log);
        let high = take(data_in, log);
        proof {
            lemma_top_bit(sent, k);
            let done = bits_of(sent).take(k as int);
            assert(bits_of(sent).take(k + 1) == done.push(bit != 0));
            assert(line_out + done.push(bit != 0) == (line_out + done).push(bit != 0));
            lemma_clock_both_push(start, done, got, bit != 0, high);
            lemma_taken_in(got, word, high, k);
            lemma_pulse_levels_add(clock, k as nat, 0);
            assert(line_in + got.push(high) == (line_in + got).push(high));
            got = got.push(high);
        }
        word = take_in(word, high);
        k = k + 1;
    }
    assert(bits_of(sent).take(8) == bits_of(sent));
    assert(got == bits_of(word));
    word
}

/// Shifts `words` out, one after the other.
pub(crate) fn shift_words_out<C: OutputPin, D: OutputPin>(
    sck: &mut C,
    data: &mut D,
    words: &[u8],
    log: &mut Ghost<Seq<Signal>>,
)
    ensures
        final(sck).levels_driven() == old(sck).levels_driven() + pulse_levels(8 * words@.len()),
        final(data).levels_driven() == old(data).levels_driven() + levels_of(words@),
        final(data).levels_sampled() == old(data).levels_sampled(),
        final(log)@ == old(log)@ + clock_out(levels_of(words@)),
{
    let ghost start = log@;
    let ghost clock = sck.levels_driven();
    let ghost line = data.levels_driven();
    let ghost heard = data.levels_sampled();
    let n = words.len();
    let mut i: usize = 0;
    while i < n
        invariant
            i <= n,
            words@.len() == n,
            sck.levels_driven() == clock + pulse_levels(8 * i as nat),
            data.levels_driven() == line + levels_of(words@.take(i as int)),
            data.levels_sampled() == heard,
            log@ == start + clock_out(levels_of(words@.take(i as int))),
        decreases n - i,
    {
        let word = words[i];
        shift_out(sck, data, word, log);
        proof {
            let done = words@.take(i as int);
            assert(words@.take(i + 1) == done.push(word));
            lemma_clock_out_word(start, done, word);
            lemma_levels_of_push(done, word);
            assert(line + (levels_of(done) + bits_of(word)) == line + levels_of(done) + bits_of(
                word,
            ));
            lemma_pulse_levels_add(clock, 8 * i as nat, 8);
        }
        i += 1;
    }
    assert(words@.take(n as int) == words@);
}

/// Fills `words` with words shifted in, one after the other.
pub(crate) fn shift_words_in<C: OutputPin, D: InputPin>(
    sck: &mut C,
    data: &mut D,
    words: &mut [u8],
    log: &mut Ghost<Seq<Signal>>,
)
    ensures
        final(words)@.len() == old(words)@.len(),
        final(sck).levels_driven() == old(sck).levels_driven() + pulse_levels(
            8 * old(words)@.len(),
        ),
        final(data).levels_sampled() == old(data).levels_sampled() + levels_of(final(words)@),
        final(data).levels_driven() == old(data).levels_driven(),
        final(log)@ == old(log)@ + clock_in(levels_of(final(words)@)),
{
    let ghost start = log@;
    let ghost clock = sck.levels_driven();
    let ghost line = data.levels_sampled();
    let ghost told = data.levels_driven();
    let n = words.len();
    let mut i: usize = 0;
    while i < n
        invariant
            i <= n,
            words@.len() == n,
            sck.levels_driven() == clock + pulse_levels(8 * i as nat),
            data.levels_sampled() == line + levels_of(words@.take(i as int)),
            data.levels_driven() == told,
            log@ == start + clock_in(levels_of(words@.take(i as int))),
        decreases n - i,
    {
        let ghost done = words@.take(i as int);
        let word = shift_in(sck, data, log);
        words[i] = word;
        proof {
            assert(words@.take(i + 1) == done.push(word));
            lemma_clock_in_word(start, done, word);
            lemma_levels_of_push(done, word);
            assert(line + (levels_of(done) + bits_of(word)) == line + levels_of(done) + bits_of(
                word,
            ));
            lemma_pulse_levels_add(clock, 8 * i as nat, 8);
        }
        i += 1;
    }
    assert(words@.take(n as int) == words@);
}

} // verus!
