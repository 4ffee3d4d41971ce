use soft_spi::half_duplex::SoftSpi;
use soft_spi::pin::{InputPin, Levels, Line, OutputPin, PinFault};
use std::cell::RefCell;
use std::collections::VecDeque;
use std::rc::Rc;

#[derive(Debug, Clone, Copy, PartialEq, Eq)]
enum Step {
    ClockLow,
    ClockHigh,
    Drive(bool),
    Sample(bool),
}

/// The two lines and the far end. The far end takes a level from the data
/// line at every rising edge; once `replay` is set it puts them back on the
/// line instead, one at every rising edge. Levels in `script` go first.
struct Lines {
    steps: Vec<Step>,
    clock: Option<bool>,
    data: bool,
    heard: VecDeque<bool>,
    script: VecDeque<bool>,
    replay: bool,
    faulty: bool,
}

impl Lines {
    fn new() -> Rc<RefCell<Lines>> {
        Rc::new(RefCell::new(Lines {
            steps: Vec::new(),
            clock: None,
            data: false,
            heard: VecDeque::new(),
            script: VecDeque::new(),
            replay: false,
            faulty: false,
        }))
    }

    fn presenting(levels: &[bool]) -> Rc<RefCell<Lines>> {
        let lines = Lines::new();
        lines.borrow_mut().script = levels.iter().copied().collect();
        lines.borrow_mut().replay = true;
        lines
    }

    fn clock_to(&mut self, high: bool) {
        let rising = high && self.clock == Some(false);
        self.clock = Some(high);
        self.steps.push(if high { Step::ClockHigh } else { Step::ClockLow });
        if rising {
            if self.replay {
                let next = self.script.pop_front().or_else(|| self.heard.pop_front());
                self.data = next.unwrap_or(false);
            } else {
                self.heard.push_back(self.data);
            }
        }
    }

    fn answer(&self) -> Result<(), PinFault> {
        if self.faulty {
            Err(PinFault)
        } else {
            Ok(())
        }
    }

    fn pulses(&self) -> usize {
        self.steps.iter().filter(|s| **s == Step::ClockLow).count()
    }

    fn driven(&self) -> Vec<bool> {
        self.steps
            .iter()
            .filter_map(|s| if let Step::Drive(level) = s { Some(*level) } else { None })
            .collect()
    }
}

struct Clock(Rc<RefCell<Lines>>);

impl Line for Clock {
    fn levels_driven(&self) -> Levels {
        unreachable!("ghost code is never run")
    }

    fn levels_sampled(&self) -> Levels {
        unreachable!("ghost code is never run")
    }
}

impl OutputPin for Clock {
    fn set_low(&mut self) -> Result<(), PinFault> {
        self.0.borrow_mut().clock_to(false);
        self.0.borrow().answer()
    }

    fn set_high(&mut self) -> Result<(), PinFault> {
        self.0.borrow_mut().clock_to(true);
        self.0.borrow().answer()
    }

    fn set_state(&mut self, high: bool) -> Result<(), PinFault> {
        self.0.borrow_mut().clock_to(high);
        self.0.borrow().answer()
    }
}

struct Data(Rc<RefCell<Lines>>);

impl Data {
    fn drive(&mut self, high: bool) -> Result<(), PinFault> {
        let mut lines = self.0.borrow_mut();
        lines.data = high;
        lines.steps.push(Step::Drive(high));
        lines.answer()
    }
}

impl Line for Data {
    fn levels_driven(&self) -> Levels {
        unreachable!("ghost code is never run")
    }

    fn levels_sampled(&self) -> Levels {
        unreachable!("ghost code is never run")
    }
}

impl OutputPin for Data {
    fn set_low(&mut self) -> Result<(), PinFault> {
        self.drive(false)
    }

    fn set_high(&mut self) -> Result<(), PinFault> {
        self.drive(true)
    }

    fn set_state(&mut self, high: bool) -> Result<(), PinFault> {
        self.drive(high)
    }
}

impl InputPin for Data {
    fn is_high(&mut self) -> Result<bool, PinFault> {
        let mut lines = self.0.borrow_mut();
        let level = lines.data;
        lines.steps.push(Step::Sample(level));
        if lines.faulty {
            Err(PinFault)
        } else {
            Ok(level)
        }
    }
}

fn bus_over(lines: &Rc<RefCell<Lines>>) -> SoftSpi<Clock, Data> {
    SoftSpi::new(Clock(lines.clone()), Data(lines.clone()))
}

fn levels(words: &[u8]) -> Vec<bool> {
    let mut out = Vec::new();
    for word in words {
        for k in 0..8 {
            out.push(word & (0x80u8 >> k) != 0);
        }
    }
    out
}

#[test]
fn half_duplex_new_drives_only_the_clock_high() {
    let lines = Lines::new();
    let _bus = bus_over(&lines);
    assert_eq!(lines.borrow().steps, vec![Step::ClockHigh]);
}

#[test]
fn half_duplex_write_drives_the_shared_line_msb_first() {
    let lines = Lines::new();
    let mut bus = bus_over(&lines);
    lines.borrow_mut().steps.clear();
    assert_eq!(bus.write(&[0xA5, 0x01]), Ok(()));
    let lines = lines.borrow();
    let mut expected = Vec::new();
    for level in levels(&[0xA5, 0x01]) {
        expected.push(Step::Drive(level));
        expected.push(Step::ClockLow);
        expected.push(Step::ClockHigh);
    }
    assert_eq!(lines.steps, expected);
    assert_eq!(lines.pulses(), 16);
}

#[test]
fn half_duplex_read_frees_the_line_high_then_samples_after_each_rising_edge() {
    let presented = [false, true, true, false, true, false, false, true];
    let lines = Lines::presenting(&presented);
    let mut bus = bus_over(&lines);
    lines.borrow_mut().steps.clear();
    let mut words = [0xFFu8];
    assert_eq!(bus.read(&mut words), Ok(()));
    assert_eq!(words, [0x69]);
    let mut expected = vec![Step::Drive(true)];
    for level in presented {
        expected.push(Step::ClockLow);
        expected.push(Step::ClockHigh);
        expected.push(Step::Sample(level));
    }
    assert_eq!(lines.borrow().steps, expected);
}

#[test]
fn half_duplex_read_of_two_bytes_all_low_then_all_high() {
    let mut presented = vec![false; 8];
    presented.extend(vec![true; 8]);
    let lines = Lines::presenting(&presented);
    let mut bus = bus_over(&lines);
    let mut words = [0x55u8; 2];
    assert_eq!(bus.read(&mut words), Ok(()));
    assert_eq!(words, [0x00, 0xFF]);
}

#[test]
fn half_duplex_read_of_nothing_still_frees_the_line() {
    let lines = Lines::new();
    let mut bus = bus_over(&lines);
    lines.borrow_mut().steps.clear();
    let mut words: [u8; 0] = [];
    assert_eq!(bus.read(&mut words), Ok(()));
    assert_eq!(lines.borrow().steps, vec![Step::Drive(true)]);
}

#[test]
fn half_duplex_write_of_nothing_touches_no_line() {
    let lines = Lines::new();
    let mut bus = bus_over(&lines);
    lines.borrow_mut().steps.clear();
    assert_eq!(bus.write(&[]), Ok(()));
    assert!(lines.borrow().steps.is_empty());
}

#[test]
fn half_duplex_write_then_read_against_an_echoing_slave_round_trips() {
    let cases: [&[u8]; 5] =
        [&[], &[0x00], &[0xFF], &[0xA5, 0x5A, 0x01, 0x80], &[0x12, 0x34, 0x56, 0x78, 0x9A, 0xBC]];
    for written in cases {
        let lines = Lines::new();
        let mut bus = bus_over(&lines);
        assert_eq!(bus.write(written), Ok(()));
        lines.borrow_mut().replay = true;
        let mut read = vec![0u8; written.len()];
        assert_eq!(bus.read(&mut read), Ok(()));
        assert_eq!(read.as_slice(), written);
    }
}

#[test]
fn half_duplex_transfer_leaves_both_buffers_and_all_lines_alone() {
    let lines = Lines::presenting(&[true; 16]);
    let mut bus = bus_over(&lines);
    lines.borrow_mut().steps.clear();
    let mut read = [0x11u8, 0x22];
    let write = [0x33u8, 0x44];
    assert_eq!(bus.transfer(&mut read, &write), Ok(()));
    assert_eq!(read, [0x11, 0x22]);
    assert_eq!(write, [0x33, 0x44]);
    assert!(lines.borrow().steps.is_empty());
}

#[test]
fn half_duplex_transfer_takes_buffers_of_different_lengths() {
    let lines = Lines::new();
    let mut bus = bus_over(&lines);
    lines.borrow_mut().steps.clear();
    let mut read = [0x11u8, 0x22, 0x33];
    assert_eq!(bus.transfer(&mut read, &[0x44]), Ok(()));
    assert_eq!(read, [0x11, 0x22, 0x33]);
    assert!(lines.borrow().steps.is_empty());
}

#[test]
fn half_duplex_transfer_in_place_leaves_the_buffer_and_all_lines_alone() {
    let lines = Lines::presenting(&[true; 16]);
    let mut bus = bus_over(&lines);
    lines.borrow_mut().steps.clear();
    let mut words = [0xDEu8, 0xAD];
    assert_eq!(bus.transfer_in_place(&mut words), Ok(()));
    assert_eq!(words, [0xDE, 0xAD]);
    assert!(lines.borrow().steps.is_empty());
}

#[test]
fn half_duplex_flush_touches_no_line() {
    let lines = Lines::new();
    let mut bus = bus_over(&lines);
    lines.borrow_mut().steps.clear();
    assert_eq!(bus.flush(), Ok(()));
    assert!(lines.borrow().steps.is_empty());
}

#[test]
fn half_duplex_clock_rests_high_after_every_operation() {
    let lines = Lines::new();
    let mut bus = bus_over(&lines);
    assert_eq!(lines.borrow().clock, Some(true));
    let mut words = [0x42u8, 0x99];
    assert_eq!(bus.write(&words), Ok(()));
    assert_eq!(lines.borrow().clock, Some(true));
    assert_eq!(bus.read(&mut words), Ok(()));
    assert_eq!(lines.borrow().clock, Some(true));
    let mut read = [0u8; 2];
    assert_eq!(bus.transfer(&mut read, &words), Ok(()));
    assert_eq!(lines.borrow().clock, Some(true));
    assert_eq!(bus.transfer_in_place(&mut words), Ok(()));
    assert_eq!(lines.borrow().clock, Some(true));
    assert_eq!(bus.flush(), Ok(()));
    assert_eq!(lines.borrow().clock, Some(true));
}

#[test]
fn half_duplex_pin_faults_are_dropped_and_a_failed_sample_counts_as_low() {
    let lines = Lines::presenting(&[true; 8]);
    lines.borrow_mut().faulty = true;
    let mut bus = bus_over(&lines);
    let mut words = [0xFFu8];
    assert_eq!(bus.read(&mut words), Ok(()));
    assert_eq!(words, [0x00]);
    lines.borrow_mut().steps.clear();
    assert_eq!(bus.write(&[0x3C]), Ok(()));
    assert_eq!(lines.borrow().driven(), levels(&[0x3C]));
    assert_eq!(lines.borrow().pulses(), 8);
}
