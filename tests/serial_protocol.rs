use hyperpixel_init::gpio::{Gpio, PinMode, PinOp};
use hyperpixel_init::regs::{Access, RegisterSpace};
use hyperpixel_init::serial::{
    hyperpixel_configure, sequence_ops, transmit_ops, Command, SerialPins, BIT_DELAY_MICROS,
    WAIT_DELAY_MICROS,
};

const PINS: SerialPins = SerialPins { clock: 19, data: 10, select: 18 };

const SET: usize = 7;
const CLEAR: usize = 10;

/// Replays a trace and reports the level of each of the three pins after every access.
fn levels(trace: &[Access]) -> Vec<(Access, bool, bool, bool)> {
    let (mut clk, mut dat, mut sel) = (false, false, true);
    let mut out = Vec::new();
    for a in trace {
        if let Access::Write { index, value } = *a {
            let high = match index {
                SET => true,
                CLEAR => false,
                _ => {
                    out.push((*a, clk, dat, sel));
                    continue;
                }
            };
            if value == 1 << PINS.clock {
                clk = high;
            } else if value == 1 << PINS.data {
                dat = high;
            } else if value == 1 << PINS.select {
                sel = high;
            }
        }
        out.push((*a, clk, dat, sel));
    }
    out
}

fn run(cmds: &[Command]) -> Vec<Access> {
    let mut gpio = Gpio::new(RegisterSpace::new());
    gpio.run_ops(&transmit_ops(PINS, &cmds.to_vec())).unwrap();
    gpio.space().accesses().clone()
}

#[test]
fn all_ones_word_clocks_nine_rising_edges() {
    let trace = run(&[Command::Word(0x1ff)]);
    let states = levels(&trace);
    let mut rising = 0;
    let mut prev_clk = false;
    for (i, (a, clk, dat, sel)) in states.iter().enumerate() {
        if i < states.len() - 1 {
            assert!(!sel, "select asserted until the last access");
        } else {
            assert!(sel);
        }
        if i >= 1 && i < states.len() - 2 {
            assert!(dat, "data held high during the word");
        }
        if *clk && !prev_clk {
            rising += 1;
        }
        prev_clk = *clk;
        if let Access::Pause { micros } = a {
            assert_eq!(*micros, BIT_DELAY_MICROS);
        }
    }
    assert_eq!(rising, 9);
    let pauses = trace.iter().filter(|a| matches!(a, Access::Pause { .. })).count();
    assert_eq!(pauses, 18);
    assert_eq!(trace.len(), 1 + 9 * 5 + 2);
}

#[test]
fn word_bits_go_out_most_significant_first() {
    let ops = transmit_ops(PINS, &vec![Command::Word(0x100)]);
    let data: Vec<bool> = ops
        .iter()
        .filter_map(|op| match op {
            PinOp::Level { pin, high } if *pin == PINS.data => Some(*high),
            _ => None,
        })
        .collect();
    assert_eq!(data, vec![true, false, false, false, false, false, false, false, false, false]);
    assert_eq!(ops[0], PinOp::Level { pin: PINS.select, high: false });
    assert_eq!(ops[1], PinOp::Level { pin: PINS.data, high: true });
    assert_eq!(ops[2], PinOp::Level { pin: PINS.clock, high: false });
    assert_eq!(ops[3], PinOp::DelayMicros { micros: 100 });
    assert_eq!(ops[4], PinOp::Level { pin: PINS.clock, high: true });
    assert_eq!(ops[5], PinOp::DelayMicros { micros: 100 });
    assert_eq!(ops[ops.len() - 1], PinOp::Level { pin: PINS.select, high: true });
}

#[test]
fn wait_marker_only_pauses() {
    let a = run(&[Command::Word(0x0a5)]);
    let b = run(&[Command::Word(0x13c)]);
    let both = run(&[Command::Word(0x0a5), Command::Wait, Command::Word(0x13c)]);
    let mut expected = a.clone();
    expected.push(Access::Pause { micros: WAIT_DELAY_MICROS });
    expected.extend(b);
    assert_eq!(both, expected);
    assert_eq!(WAIT_DELAY_MICROS, 120_000);
}

#[test]
fn full_sequence_twice_gives_identical_traces() {
    let cmds = vec![Command::Word(0x011), Command::Wait, Command::Word(0x129), Command::Word(0x0ff)];
    let mut words = vec![0u32; 1024];
    words[1] = 0x0003_0e40;
    let mut gpio = Gpio::new(RegisterSpace::from_words(words).unwrap());
    assert_eq!(hyperpixel_configure(&mut gpio, PINS, &cmds), Ok(()));
    let first = gpio.space().accesses().clone();
    assert_eq!(hyperpixel_configure(&mut gpio, PINS, &cmds), Ok(()));
    let all = gpio.space().accesses().clone();
    assert_eq!(all.len(), 2 * first.len());
    assert_eq!(&all[first.len()..], &first[..]);
    assert_eq!(gpio.space().read(1), 0x0003_0e40);
}

#[test]
fn sequence_sets_up_and_releases_pins() {
    let ops = sequence_ops(PINS, &vec![Command::Wait]);
    assert_eq!(
        ops,
        vec![
            PinOp::Mode { pin: 19, mode: PinMode::Out },
            PinOp::Mode { pin: 10, mode: PinMode::Out },
            PinOp::Mode { pin: 18, mode: PinMode::Out },
            PinOp::Level { pin: 18, high: true },
            PinOp::Level { pin: 19, high: false },
            PinOp::Level { pin: 10, high: false },
            PinOp::DelayMicros { micros: 120_000 },
            PinOp::Mode { pin: 19, mode: PinMode::In },
            PinOp::Mode { pin: 10, mode: PinMode::In },
            PinOp::Mode { pin: 18, mode: PinMode::In },
        ]
    );
}

#[test]
fn invalid_serial_pin_aborts_sequence() {
    let pins = SerialPins { clock: 19, data: 40, select: 18 };
    let mut gpio = Gpio::new(RegisterSpace::new());
    assert!(hyperpixel_configure(&mut gpio, pins, &vec![Command::Word(1)]).is_err());
    assert_eq!(gpio.space().accesses().len(), 1);
}
