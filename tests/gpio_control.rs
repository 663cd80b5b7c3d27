use hyperpixel_init::error::GpioError;
use hyperpixel_init::gpio::{fsel_location, fsel_value, level_write, Gpio, PinMode, PinOp};
use hyperpixel_init::mapping::dpi_ops;
use hyperpixel_init::regs::{Access, RegisterSpace, REGISTER_COUNT};

fn page_with(index: usize, value: u32) -> RegisterSpace {
    let mut words = vec![0u32; REGISTER_COUNT];
    words[index] = value;
    RegisterSpace::from_words(words).unwrap()
}

#[test]
fn mode_codes_match_hardware() {
    assert_eq!(PinMode::In.code(), 0);
    assert_eq!(PinMode::Out.code(), 1);
    assert_eq!(PinMode::Alt5.code(), 2);
    assert_eq!(PinMode::Alt4.code(), 3);
    assert_eq!(PinMode::Alt0.code(), 4);
    assert_eq!(PinMode::Alt1.code(), 5);
    assert_eq!(PinMode::Alt2.code(), 6);
    assert_eq!(PinMode::Alt3.code(), 7);
}

#[test]
fn set_pin_mode_replaces_only_its_field() {
    for pin in 0u32..=27 {
        for (mode, code) in [(PinMode::In, 0u32), (PinMode::Out, 1), (PinMode::Alt2, 6), (PinMode::Alt3, 7)] {
            let index = (pin / 10) as usize;
            let before = 0xdead_beefu32;
            let mut gpio = Gpio::new(page_with(index, before));
            assert_eq!(gpio.set_pin_mode(pin, mode), Ok(()));
            let after = gpio.space().read(index);
            let shift = (pin % 10) * 3;
            assert_eq!((after >> shift) & 7, code);
            assert_eq!(after & !(7 << shift), before & !(7 << shift));
            assert_eq!(gpio.space().accesses(), &vec![Access::Write { index, value: after }]);
        }
    }
}

#[test]
fn set_pin_mode_exact_value() {
    let mut gpio = Gpio::new(page_with(1, 0xffff_ffff));
    assert_eq!(gpio.set_pin_mode(17, PinMode::Out), Ok(()));
    // field of pin 17 is bits 21..24 of register 1
    assert_eq!(gpio.space().read(1), 0xff3f_ffff);
}

#[test]
fn set_pin_mode_rejects_pin_28_without_writing() {
    let mut gpio = Gpio::new(page_with(2, 0x1234_5678));
    assert_eq!(gpio.set_pin_mode(28, PinMode::Out), Err(GpioError::InvalidPin));
    assert!(gpio.space().accesses().is_empty());
    assert_eq!(gpio.space().read(2), 0x1234_5678);
}

#[test]
fn set_pin_level_writes_set_and_clear_registers() {
    let mut gpio = Gpio::new(RegisterSpace::new());
    assert_eq!(gpio.set_pin_level(18, true), Ok(()));
    assert_eq!(gpio.set_pin_level(5, false), Ok(()));
    assert_eq!(
        gpio.space().accesses(),
        &vec![
            Access::Write { index: 7, value: 1 << 18 },
            Access::Write { index: 10, value: 1 << 5 },
        ]
    );
    assert_eq!(gpio.set_pin_level(40, true), Err(GpioError::InvalidPin));
    assert_eq!(gpio.space().accesses().len(), 2);
}

#[test]
fn register_location_helpers() {
    assert_eq!(fsel_location(0), Ok((0, 0)));
    assert_eq!(fsel_location(19), Ok((1, 27)));
    assert_eq!(fsel_location(27), Ok((2, 21)));
    assert_eq!(fsel_location(28), Err(GpioError::InvalidPin));
    assert_eq!(fsel_value(0xffff_ffff, 3, PinMode::In), 0xffff_ffc7);
    assert_eq!(fsel_value(0, 27, PinMode::Alt3), 7 << 27);
    assert_eq!(level_write(27, true), Ok((7, 1 << 27)));
    assert_eq!(level_write(0, false), Ok((10, 1)));
    assert_eq!(level_write(28, false), Err(GpioError::InvalidPin));
}

#[test]
fn run_ops_stops_at_first_refusal() {
    let mut gpio = Gpio::new(RegisterSpace::new());
    let ops = vec![
        PinOp::Level { pin: 3, high: true },
        PinOp::Mode { pin: 30, mode: PinMode::Out },
        PinOp::Level { pin: 4, high: true },
    ];
    assert_eq!(gpio.run_ops(&ops), Err(GpioError::InvalidPin));
    assert_eq!(gpio.space().accesses(), &vec![Access::Write { index: 7, value: 1 << 3 }]);
}

#[test]
fn display_bus_pins_get_alt2() {
    let ops = dpi_ops();
    let pins: Vec<u32> = (0..10).chain(12..18).chain(20..26).collect();
    assert_eq!(ops.len(), 22);
    for (op, pin) in ops.iter().zip(pins) {
        assert_eq!(*op, PinOp::Mode { pin, mode: PinMode::Alt2 });
    }
    let mut gpio = Gpio::new(RegisterSpace::new());
    assert_eq!(gpio.run_ops(&ops), Ok(()));
    // pins 0..9 all Alt2 (code 6)
    assert_eq!(gpio.space().read(0), 0o6666666666);
    assert_eq!(gpio.space().read(1), 0o0066666600);
    assert_eq!(gpio.space().read(2), 0o0000666666);
}

#[test]
fn register_space_shape() {
    assert!(RegisterSpace::from_words(vec![0; 10]).is_none());
    let space = RegisterSpace::new();
    assert_eq!(space.read(REGISTER_COUNT - 1), 0);
    assert!(space.accesses().is_empty());
}
