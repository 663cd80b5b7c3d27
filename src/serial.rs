use vstd::prelude::*;

use crate::error::GpioError;
use crate::gpio::{
    field, fsel_agree, fsel_index, fsel_shift, lemma_run_append, lemma_run_congruent,
    lemma_run_trace, lemma_with_field, mode_code, run, run_trace, run_words, with_field, Gpio,
    PageState, PinMode, PinOp, MAX_PIN, SET_REGISTER,
};
use crate::regs::REGISTER_COUNT;
use crate::regs::Access;

verus! {

/// Hold time of each clock half-cycle, in microseconds.
pub const BIT_DELAY_MICROS: u64 = 100;

/// Duration of a wait marker, in microseconds.
pub const WAIT_DELAY_MICROS: u64 = 120_000;

/// Bits in one transfer word: a mode bit and eight data bits.
pub const WORD_BITS: u16 = 9;

/// One entry of a display command script.
#[derive(Clone, Copy, Debug, PartialEq, Eq, Structural)]
pub enum Command {
    /// A transfer word; its low nine bits are sent, most significant first.
    Word(u16),
    /// A pause of `WAIT_DELAY_MICROS` before the next command.
    Wait,
}

/// The three pins that carry the serial link.
#[derive(Clone, Copy, Debug, PartialEq, Eq, Structural)]
pub struct SerialPins {
    pub clock: u32,
    pub data: u32,
    pub select: u32,
}

/// Bit `k` of `word`.
pub open spec fn bit_of(word: u16, k: u16) -> bool {
    (word >> k) & 1u16 == 1u16
}

/// Clocking out one bit: data set up, clock low, hold, clock high (the
/// receiver samples here), hold.
pub open spec fn bit_ops(pins: SerialPins, high: bool) -> Seq<PinOp> {
    seq![
        PinOp::Level { pin: pins.data, high },
        PinOp::Level { pin: pins.clock, high: false },
        PinOp::DelayMicros { micros: BIT_DELAY_MICROS },
        PinOp::Level { pin: pins.clock, high: true },
        PinOp::DelayMicros { micros: BIT_DELAY_MICROS },
    ]
}

/// The first `n` bits of a word, from bit 8 downwards.
pub open spec fn bits_ops(pins: SerialPins, word: u16, n: nat) -> Seq<PinOp>
    decreases n,
{
    if n == 0 {
        Seq::empty()
    } else {
        bits_ops(pins, word, (n - 1) as nat) + bit_ops(pins, bit_of(word, (9 - n) as u16))
    }
}

/// One transfer word: select asserted, nine bits, data back to idle, select
/// released.
pub open spec fn word_ops(pins: SerialPins, word: u16) -> Seq<PinOp> {
    seq![PinOp::Level { pin: pins.select, high: false }] + bits_ops(pins, word, 9) + seq![
        PinOp::Level { pin: pins.data, high: false },
        PinOp::Level { pin: pins.select, high: true },
    ]
}

/// The operations of one command.
pub open spec fn command_ops(pins: SerialPins, c: Command) -> Seq<PinOp> {
    match c {
        Command::Word(w) => word_ops(pins, w),
        Command::Wait => seq![PinOp::DelayMicros { micros: WAIT_DELAY_MICROS }],
    }
}

/// The operations of a command script, command by command in order.
pub open spec fn transmit_spec(pins: SerialPins, cmds: Seq<Command>) -> Seq<PinOp>
    decreases cmds.len(),
{
    if cmds.len() == 0 {
        Seq::empty()
    } else {
        transmit_spec(pins, cmds.drop_last()) + command_ops(pins, cmds.last())
    }
}

/// Each of the three pins, clock first, switched to `mode`.
pub open spec fn modes_spec(pins: SerialPins, mode: PinMode) -> Seq<PinOp> {
    seq![
        PinOp::Mode { pin: pins.clock, mode },
        PinOp::Mode { pin: pins.data, mode },
        PinOp::Mode { pin: pins.select, mode },
    ]
}

/// Idle levels: select high, clock and data low.
pub open spec fn idle_spec(pins: SerialPins) -> Seq<PinOp> {
    seq![
        PinOp::Level { pin: pins.select, high: true },
        PinOp::Level { pin: pins.clock, high: false },
        PinOp::Level { pin: pins.data, high: false },
    ]
}

/// Pins to outputs, then idle levels.
pub open spec fn setup_spec(pins: SerialPins) -> Seq<PinOp> {
    modes_spec(pins, PinMode::Out) + idle_spec(pins)
}

/// Pins released back to inputs.
pub open spec fn teardown_spec(pins: SerialPins) -> Seq<PinOp> {
    modes_spec(pins, PinMode::In)
}

/// The whole exchange: setup, the script, teardown.
pub open spec fn sequence_spec(pins: SerialPins, cmds: Seq<Command>) -> Seq<PinOp> {
    setup_spec(pins) + transmit_spec(pins, cmds) + teardown_spec(pins)
}

/// Appends the operations of one transfer word.
fn push_word(out: &mut Vec<PinOp>, pins: SerialPins, word: u16)
    ensures
        final(out)@ == old(out)@ + word_ops(pins, word),
{
    let ghost start = out@;
    out.push(PinOp::Level { pin: pins.select, high: false });
    let mut n: u16 = 0;
    while n < WORD_BITS
        invariant
            n <= 9,
            out@ == start + seq![PinOp::Level { pin: pins.select, high: false }] + bits_ops(
                pins,
                word,
                n as nat,
            ),
        decreases 9 - n,
    {
        let k: u16 = 8 - n;
        let high = (word >> k) & 1u16 == 1u16;
        let ghost before = out@;
        out.push(PinOp::Level { pin: pins.data, high });
        out.push(PinOp::Level { pin: pins.clock, high: false });
        out.push(PinOp::DelayMicros { micros: BIT_DELAY_MICROS });
        out.push(PinOp::Level { pin: pins.clock, high: true });
        out.push(PinOp::DelayMicros { micros: BIT_DELAY_MICROS });
        n = n + 1;
        proof {
            assert(k == (9 - n) as u16);
            assert(out@ =~= before + bit_ops(pins, high));
            assert(bits_ops(pins, word, n as nat) == bits_ops(pins, word, (n - 1) as nat) + bit_ops(
                pins,
                high,
            ));
            assert(out@ =~= start + seq![PinOp::Level { pin: pins.select, high: false }]
                + bits_ops(pins, word, n as nat));
        }
    }
    let ghost before = out@;
    out.push(PinOp::Level { pin: pins.data, high: false });
    out.push(PinOp::Level { pin: pins.select, high: true });
    assert(out@ =~= start + word_ops(pins, word));
}

/// Appends the operations of a command script.
fn push_commands(out: &mut Vec<PinOp>, pins: SerialPins, cmds: &Vec<Command>)
    ensures
        final(out)@ == old(out)@ + transmit_spec(pins, cmds@),
{
    let ghost start = out@;
    let mut i: usize = 0;
    assert(cmds@.subrange(0, 0) =~= Seq::<Command>::empty());
    assert(out@ =~= start + transmit_spec(pins, cmds@.subrange(0, 0)));
    while i < cmds.len()
        invariant
            i <= cmds@.len(),
            out@ == start + transmit_spec(pins, cmds@.subrange(0, i as int)),
        decreases cmds@.len() - i,
    {
        let ghost before = out@;
        match cmds[i] {
            Command::Word(w) => push_word(out, pins, w),
            Command::Wait => out.push(PinOp::DelayMicros { micros: WAIT_DELAY_MICROS }),
        }
        proof {
            let pre = cmds@.subrange(0, i as int);
            let next = cmds@.subrange(0, i + 1);
            assert(next.drop_last() =~= pre);
            assert(next.last() == cmds@[i as int]);
            assert(out@ =~= before + command_ops(pins, cmds@[i as int]));
        }
        i = i + 1;
    }
    assert(cmds@.subrange(0, cmds@.len() as int) =~= cmds@);
}

/// The pin operations that send a command script over `pins`: each transfer
/// word clocked out bit by bit, each wait marker a single pause.
pub fn transmit_ops(pins: SerialPins, cmds: &Vec<Command>) -> (r: Vec<PinOp>)
    ensures
        r@ == transmit_spec(pins, cmds@),
{
    let mut out: Vec<PinOp> = Vec::new();
    push_commands(&mut out, pins, cmds);
    assert(out@ =~= transmit_spec(pins, cmds@));
    out
}

/// The pin operations of the whole exchange: set the pins up, send the
/// script, release the pins.
pub fn sequence_ops(pins: SerialPins, cmds: &Vec<Command>) -> (r: Vec<PinOp>)
    ensures
        r@ == sequence_spec(pins, cmds@),
{
    let mut out: Vec<PinOp> = Vec::new();
    out.push(PinOp::Mode { pin: pins.clock, mode: PinMode::Out });
    out.push(PinOp::Mode { pin: pins.data, mode: PinMode::Out });
    out.push(PinOp::Mode { pin: pins.select, mode: PinMode::Out });
    out.push(PinOp::Level { pin: pins.select, high: true });
    out.push(PinOp::Level { pin: pins.clock, high: false });
    out.push(PinOp::Level { pin: pins.data, high: false });
    assert(out@ =~= setup_spec(pins));
    push_commands(&mut out, pins, cmds);
    let ghost mid = out@;
    out.push(PinOp::Mode { pin: pins.clock, mode: PinMode::In });
    out.push(PinOp::Mode { pin: pins.data, mode: PinMode::In });
    out.push(PinOp::Mode { pin: pins.select, mode: PinMode::In });
    assert(out@ =~= mid + teardown_spec(pins));
    out
}

/// Configures the display: sets the serial pins up, sends the command script,
/// and releases the pins, stopping at the first refused operation.
pub fn hyperpixel_configure(gpio: &mut Gpio, pins: SerialPins, cmds: &Vec<Command>) -> (r: Result<
    (),
    GpioError,
>)
    requires
        old(gpio).wf(),
    ensures
        final(gpio).wf(),
        run(old(gpio).state(), sequence_spec(pins, cmds@)) == (final(gpio).state(), r is Ok),
        r is Err ==> r == Err::<(), GpioError>(GpioError::InvalidPin),
{
    let ops = sequence_ops(pins, cmds);
    gpio.run_ops(&ops)
}

/// A wait marker between two transfer words puts exactly one pause of
/// `WAIT_DELAY_MICROS` between the operations of the two words; running it
/// writes no register and records only that pause before the second word.
pub proof fn lemma_wait_between_words(pins: SerialPins, a: u16, b: u16, s: PageState)
    ensures
        transmit_spec(pins, seq![Command::Word(a), Command::Wait, Command::Word(b)]) == word_ops(
            pins,
            a,
        ) + seq![PinOp::DelayMicros { micros: WAIT_DELAY_MICROS }] + word_ops(pins, b),
        run(s, word_ops(pins, a)).1 ==> run(
            s,
            word_ops(pins, a) + seq![PinOp::DelayMicros { micros: WAIT_DELAY_MICROS }],
        ) == (
            (
                run_words(s, word_ops(pins, a)),
                run_trace(s, word_ops(pins, a)).push(Access::Pause { micros: WAIT_DELAY_MICROS }),
            ),
            true,
        ),
{
    let cmds = seq![Command::Word(a), Command::Wait, Command::Word(b)];
    let c2 = seq![Command::Word(a), Command::Wait];
    let c1 = seq![Command::Word(a)];
    assert(cmds.drop_last() =~= c2);
    assert(c2.drop_last() =~= c1);
    assert(c1.drop_last() =~= Seq::<Command>::empty());
    assert(transmit_spec(pins, c1) == transmit_spec(pins, c1.drop_last()) + command_ops(
        pins,
        c1.last(),
    ));
    assert(transmit_spec(pins, c1) =~= word_ops(pins, a));
    assert(transmit_spec(pins, c2) == transmit_spec(pins, c1) + command_ops(pins, c2.last()));
    assert(transmit_spec(pins, cmds) == transmit_spec(pins, c2) + command_ops(pins, cmds.last()));
    let wait = seq![PinOp::DelayMicros { micros: WAIT_DELAY_MICROS }];
    lemma_run_append(s, word_ops(pins, a), wait);
    assert(wait.drop_last() =~= Seq::<PinOp>::empty());
    let (p, ok) = run(s, word_ops(pins, a));
    assert(run(p, wait.drop_last()) == (p, true));
    assert(run(p, wait) == ((p.0, p.1.push(Access::Pause { micros: WAIT_DELAY_MICROS })), true));
}

/// All three pins can be driven.
pub open spec fn valid_pins(pins: SerialPins) -> bool {
    pins.clock <= MAX_PIN && pins.data <= MAX_PIN && pins.select <= MAX_PIN
}

/// All three pins are inputs in the register values `w`.
pub open spec fn released(w: Seq<u32>, pins: SerialPins) -> bool {
    &&& field(w[fsel_index(pins.clock)], fsel_shift(pins.clock)) == 0
    &&& field(w[fsel_index(pins.data)], fsel_shift(pins.data)) == 0
    &&& field(w[fsel_index(pins.select)], fsel_shift(pins.select)) == 0
}

/// Operations that drive levels of valid pins or wait, and select no mode.
spec fn level_only(ops: Seq<PinOp>) -> bool {
    forall|i: int|
        0 <= i < ops.len() ==> match #[trigger] ops[i] {
            PinOp::Mode { .. } => false,
            PinOp::Level { pin, .. } => pin <= MAX_PIN,
            PinOp::DelayMicros { .. } => true,
        }
}

proof fn lemma_level_only_concat(a: Seq<PinOp>, b: Seq<PinOp>)
    requires
        level_only(a),
        level_only(b),
    ensures
        level_only(a + b),
{
    assert forall|i: int| 0 <= i < (a + b).len() implies match #[trigger] (a + b)[i] {
        PinOp::Mode { .. } => false,
        PinOp::Level { pin, .. } => pin <= MAX_PIN,
        PinOp::DelayMicros { .. } => true,
    } by {
        if i < a.len() {
            assert((a + b)[i] == a[i]);
        } else {
            assert((a + b)[i] == b[i - a.len()]);
        }
    }
}

proof fn lemma_transmit_level_only(pins: SerialPins, cmds: Seq<Command>)
    requires
        valid_pins(pins),
    ensures
        level_only(transmit_spec(pins, cmds)),
    decreases cmds.len(),
{
    if cmds.len() > 0 {
        lemma_transmit_level_only(pins, cmds.drop_last());
        match cmds.last() {
            Command::Word(w) => {
                lemma_bits_level_only(pins, w, 9);
                let head = seq![PinOp::Level { pin: pins.select, high: false }];
                let tail = seq![
                    PinOp::Level { pin: pins.data, high: false },
                    PinOp::Level { pin: pins.select, high: true },
                ];
                assert(level_only(head));
                assert(level_only(tail));
                lemma_level_only_concat(head, bits_ops(pins, w, 9));
                lemma_level_only_concat(head + bits_ops(pins, w, 9), tail);
            },
            Command::Wait => {},
        }
        lemma_level_only_concat(transmit_spec(pins, cmds.drop_last()), command_ops(pins, cmds.last()));
    }
}

proof fn lemma_bits_level_only(pins: SerialPins, word: u16, n: nat)
    requires
        valid_pins(pins),
    ensures
        level_only(bits_ops(pins, word, n)),
    decreases n,
{
    if n > 0 {
        lemma_bits_level_only(pins, word, (n - 1) as nat);
        let high = bit_of(word, (9 - n) as u16);
        assert(level_only(bit_ops(pins, high)));
        lemma_level_only_concat(bits_ops(pins, word, (n - 1) as nat), bit_ops(pins, high));
    }
}

/// Level and delay operations of valid pins always run, and leave the
/// function-select registers alone.
proof fn lemma_run_level_only(p: PageState, ops: Seq<PinOp>)
    requires
        p.0.len() == REGISTER_COUNT,
        level_only(ops),
    ensures
        run(p, ops).1,
        fsel_agree(run_words(p, ops), p.0),
    decreases ops.len(),
{
    if ops.len() > 0 {
        let front = ops.drop_last();
        assert forall|i: int| 0 <= i < front.len() implies match #[trigger] front[i] {
            PinOp::Mode { .. } => false,
            PinOp::Level { pin, .. } => pin <= MAX_PIN,
            PinOp::DelayMicros { .. } => true,
        } by {
            assert(front[i] == ops[i]);
        }
        lemma_run_level_only(p, front);
        let x = ops[ops.len() - 1];
        assert(x == ops.last());
    }
}

/// The register values after `pin` is switched to `mode`.
spec fn apply_mode(w: Seq<u32>, pin: u32, mode: PinMode) -> Seq<u32> {
    w.update(fsel_index(pin), with_field(w[fsel_index(pin)], fsel_shift(pin), mode_code(mode)))
}

spec fn apply_modes(w: Seq<u32>, pins: SerialPins, mode: PinMode) -> Seq<u32> {
    apply_mode(apply_mode(apply_mode(w, pins.clock, mode), pins.data, mode), pins.select, mode)
}

proof fn lemma_run_modes(p: PageState, pins: SerialPins, mode: PinMode)
    requires
        p.0.len() == REGISTER_COUNT,
        valid_pins(pins),
    ensures
        run(p, modes_spec(pins, mode)).1,
        run_words(p, modes_spec(pins, mode)) == apply_modes(p.0, pins, mode),
{
    let ops = modes_spec(pins, mode);
    let o0 = Seq::<PinOp>::empty();
    let o1 = seq![PinOp::Mode { pin: pins.clock, mode }];
    let o2 = seq![PinOp::Mode { pin: pins.clock, mode }, PinOp::Mode { pin: pins.data, mode }];
    assert(ops.drop_last() =~= o2);
    assert(o2.drop_last() =~= o1);
    assert(o1.drop_last() =~= o0);
    assert(run(p, o0) == (p, true));
    let w1 = apply_mode(p.0, pins.clock, mode);
    let (q1, ok1) = run(p, o1);
    assert(ok1 && q1.0 == w1);
    let w2 = apply_mode(w1, pins.data, mode);
    let (q2, ok2) = run(p, o2);
    assert(ok2 && q2.0 == w2);
    let (q3, ok3) = run(p, ops);
    assert(ok3 && q3.0 == apply_mode(w2, pins.select, mode));
}

/// Bit `b` of register `r` lies in the mode field of `pin`.
spec fn in_field(pin: u32, r: int, b: u32) -> bool {
    fsel_index(pin) == r && fsel_shift(pin) <= b && b < fsel_shift(pin) + 3
}

spec fn in_pins(pins: SerialPins, r: int, b: u32) -> bool {
    in_field(pins.clock, r, b) || in_field(pins.data, r, b) || in_field(pins.select, r, b)
}

/// Outside the mode fields of the pins, `new` has the bits of `old`.
spec fn keeps(new: Seq<u32>, old: Seq<u32>, pins: SerialPins) -> bool {
    &&& new.len() == REGISTER_COUNT
    &&& old.len() == REGISTER_COUNT
    &&& forall|r: int, b: u32|
        0 <= r < SET_REGISTER && b < 32 && !in_pins(pins, r, b) ==> #[trigger] ((new[r] >> b)
            & 1u32) == #[trigger] ((old[r] >> b) & 1u32)
}

/// The mode field of `pin` is all zero bits in `w`.
spec fn cleared(w: Seq<u32>, pin: u32) -> bool {
    forall|r: int, b: u32|
        0 <= r < SET_REGISTER && b < 32 && in_field(pin, r, b) ==> #[trigger] ((w[r] >> b) & 1u32)
            == 0
}

proof fn lemma_apply_keeps(w: Seq<u32>, pins: SerialPins, pin: u32, mode: PinMode)
    requires
        w.len() == REGISTER_COUNT,
        valid_pins(pins),
        pin == pins.clock || pin == pins.data || pin == pins.select,
    ensures
        keeps(apply_mode(w, pin, mode), w, pins),
{
    let i = fsel_index(pin);
    lemma_with_field(w[i], fsel_shift(pin), mode_code(mode));
    let n = apply_mode(w, pin, mode);
    assert forall|r: int, b: u32|
        0 <= r < SET_REGISTER && b < 32 && !in_pins(pins, r, b) implies #[trigger] ((n[r] >> b)
        & 1u32) == #[trigger] ((w[r] >> b) & 1u32) by {
        if r == i {
            assert(!in_field(pin, r, b));
        }
    }
}

proof fn lemma_field_bits_zero(x: u32, sh: u32)
    requires
        sh <= 27,
    ensures
        forall|b: u32|
            b < 32 && sh <= b && b < sh + 3 ==> #[trigger] ((with_field(x, sh, 0) >> b) & 1u32)
                == 0,
        field(x, sh) == 0 ==> forall|b: u32|
            b < 32 && sh <= b && b < sh + 3 ==> #[trigger] ((x >> b) & 1u32) == 0,
{
    assert forall|b: u32| b < 32 && sh <= b && b < sh + 3 implies #[trigger] ((with_field(x, sh, 0)
        >> b) & 1u32) == 0 by {
        assert((((x & !(7u32 << sh)) | (0u32 << sh)) >> b) & 1u32 == 0) by (bit_vector)
            requires
                sh <= 27,
                b < 32,
                sh <= b,
                b < sh + 3,
        ;
    }
    if field(x, sh) == 0 {
        assert forall|b: u32| b < 32 && sh <= b && b < sh + 3 implies #[trigger] ((x >> b) & 1u32)
            == 0 by {
            assert((x >> b) & 1u32 == 0) by (bit_vector)
                requires
                    (x >> sh) & 7u32 == 0,
                    sh <= 27,
                    b < 32,
                    sh <= b,
                    b < sh + 3,
            ;
        }
    }
}

proof fn lemma_apply_clears(w: Seq<u32>, pin: u32, other: u32)
    requires
        w.len() == REGISTER_COUNT,
        pin <= MAX_PIN,
        other == pin || cleared(w, other),
    ensures
        cleared(apply_mode(w, pin, PinMode::In), other),
{
    let i = fsel_index(pin);
    let sh = fsel_shift(pin);
    lemma_with_field(w[i], sh, 0);
    lemma_field_bits_zero(w[i], sh);
    let n = apply_mode(w, pin, PinMode::In);
    assert forall|r: int, b: u32|
        0 <= r < SET_REGISTER && b < 32 && in_field(other, r, b) implies #[trigger] ((n[r] >> b)
        & 1u32) == 0 by {
        if r == i && sh <= b && b < sh + 3 {
        } else if r == i {
            assert(other != pin);
        }
    }
}

proof fn lemma_released_cleared(w: Seq<u32>, pin: u32)
    requires
        w.len() == REGISTER_COUNT,
        pin <= MAX_PIN,
        field(w[fsel_index(pin)], fsel_shift(pin)) == 0,
    ensures
        cleared(w, pin),
{
    lemma_field_bits_zero(w[fsel_index(pin)], fsel_shift(pin));
}

/// Two words with the same bits are equal.
proof fn lemma_bits_equal(x: u32, y: u32)
    requires
        forall|b: u32| b < 32 ==> #[trigger] ((x >> b) & 1u32) == ((y >> b) & 1u32),
    ensures
        x == y,
{
    assert(x == y) by (bit_vector)
        requires
            (x >> 0u32) & 1u32 == (y >> 0u32) & 1u32,
            (x >> 1u32) & 1u32 == (y >> 1u32) & 1u32,
            (x >> 2u32) & 1u32 == (y >> 2u32) & 1u32,
            (x >> 3u32) & 1u32 == (y >> 3u32) & 1u32,
            (x >> 4u32) & 1u32 == (y >> 4u32) & 1u32,
            (x >> 5u32) & 1u32 == (y >> 5u32) & 1u32,
            (x >> 6u32) & 1u32 == (y >> 6u32) & 1u32,
            (x >> 7u32) & 1u32 == (y >> 7u32) & 1u32,
            (x >> 8u32) & 1u32 == (y >> 8u32) & 1u32,
            (x >> 9u32) & 1u32 == (y >> 9u32) & 1u32,
            (x >> 10u32) & 1u32 == (y >> 10u32) & 1u32,
            (x >> 11u32) & 1u32 == (y >> 11u32) & 1u32,
            (x >> 12u32) & 1u32 == (y >> 12u32) & 1u32,
            (x >> 13u32) & 1u32 == (y >> 13u32) & 1u32,
            (x >> 14u32) & 1u32 == (y >> 14u32) & 1u32,
            (x >> 15u32) & 1u32 == (y >> 15u32) & 1u32,
            (x >> 16u32) & 1u32 == (y >> 16u32) & 1u32,
            (x >> 17u32) & 1u32 == (y >> 17u32) & 1u32,
            (x >> 18u32) & 1u32 == (y >> 18u32) & 1u32,
            (x >> 19u32) & 1u32 == (y >> 19u32) & 1u32,
            (x >> 20u32) & 1u32 == (y >> 20u32) & 1u32,
            (x >> 21u32) & 1u32 == (y >> 21u32) & 1u32,
            (x >> 22u32) & 1u32 == (y >> 22u32) & 1u32,
            (x >> 23u32) & 1u32 == (y >> 23u32) & 1u32,
            (x >> 24u32) & 1u32 == (y >> 24u32) & 1u32,
            (x >> 25u32) & 1u32 == (y >> 25u32) & 1u32,
            (x >> 26u32) & 1u32 == (y >> 26u32) & 1u32,
            (x >> 27u32) & 1u32 == (y >> 27u32) & 1u32,
            (x >> 28u32) & 1u32 == (y >> 28u32) & 1u32,
            (x >> 29u32) & 1u32 == (y >> 29u32) & 1u32,
            (x >> 30u32) & 1u32 == (y >> 30u32) & 1u32,
            (x >> 31u32) & 1u32 == (y >> 31u32) & 1u32,
    ;
}

proof fn lemma_keeps_trans(a: Seq<u32>, b: Seq<u32>, c: Seq<u32>, pins: SerialPins)
    requires
        keeps(a, b, pins),
        keeps(b, c, pins),
    ensures
        keeps(a, c, pins),
{
    assert forall|r: int, b2: u32|
        0 <= r < SET_REGISTER && b2 < 32 && !in_pins(pins, r, b2) implies #[trigger] ((a[r] >> b2)
        & 1u32) == #[trigger] ((c[r] >> b2) & 1u32) by {
        assert(((a[r] >> b2) & 1u32) == ((b[r] >> b2) & 1u32));
    }
}

proof fn lemma_apply_modes_keeps(w: Seq<u32>, pins: SerialPins, mode: PinMode)
    requires
        w.len() == REGISTER_COUNT,
        valid_pins(pins),
    ensures
        keeps(apply_modes(w, pins, mode), w, pins),
        apply_modes(w, pins, mode).len() == REGISTER_COUNT,
{
    let w1 = apply_mode(w, pins.clock, mode);
    let w2 = apply_mode(w1, pins.data, mode);
    lemma_apply_keeps(w, pins, pins.clock, mode);
    lemma_apply_keeps(w1, pins, pins.data, mode);
    lemma_apply_keeps(w2, pins, pins.select, mode);
    lemma_keeps_trans(w2, w1, w, pins);
    lemma_keeps_trans(apply_modes(w, pins, mode), w2, w, pins);
}

/// With the pins released beforehand, the whole exchange runs to the end and
/// leaves the function-select registers as it found them.
proof fn lemma_sequence_restores(w: Seq<u32>, pins: SerialPins, cmds: Seq<Command>)
    requires
        w.len() == REGISTER_COUNT,
        valid_pins(pins),
        released(w, pins),
    ensures
        run((w, Seq::<Access>::empty()), sequence_spec(pins, cmds)).1,
        fsel_agree(run_words((w, Seq::<Access>::empty()), sequence_spec(pins, cmds)), w),
{
    let first: PageState = (w, Seq::<Access>::empty());
    let m1 = modes_spec(pins, PinMode::Out);
    let m0 = modes_spec(pins, PinMode::In);
    let idle = idle_spec(pins);
    let t = transmit_spec(pins, cmds);
    let l = idle + t;
    assert(level_only(idle));
    lemma_transmit_level_only(pins, cmds);
    lemma_level_only_concat(idle, t);
    assert(sequence_spec(pins, cmds) =~= (m1 + l) + m0);
    lemma_run_append(first, m1 + l, m0);
    lemma_run_append(first, m1, l);
    lemma_run_modes(first, pins, PinMode::Out);
    let (after_setup, ok1) = run(first, m1);
    let a = apply_modes(w, pins, PinMode::Out);
    lemma_apply_modes_keeps(w, pins, PinMode::Out);
    lemma_run_level_only(after_setup, l);
    let (after_script, ok2) = run(after_setup, l);
    let b = after_script.0;
    assert(keeps(b, a, pins)) by {
        assert forall|r: int, b2: u32|
            0 <= r < SET_REGISTER && b2 < 32 && !in_pins(pins, r, b2) implies #[trigger] ((b[r]
            >> b2) & 1u32) == #[trigger] ((a[r] >> b2) & 1u32) by {
            assert(b[r] == a[r]);
        }
    }
    lemma_run_modes(after_script, pins, PinMode::In);
    let c = apply_modes(b, pins, PinMode::In);
    lemma_apply_modes_keeps(b, pins, PinMode::In);
    lemma_keeps_trans(c, b, a, pins);
    lemma_keeps_trans(c, a, w, pins);
    let c1 = apply_mode(b, pins.clock, PinMode::In);
    let c2 = apply_mode(c1, pins.data, PinMode::In);
    lemma_apply_clears(b, pins.clock, pins.clock);
    lemma_apply_clears(c1, pins.data, pins.data);
    lemma_apply_clears(c1, pins.data, pins.clock);
    lemma_apply_clears(c2, pins.select, pins.select);
    lemma_apply_clears(c2, pins.select, pins.data);
    lemma_apply_clears(c2, pins.select, pins.clock);
    lemma_released_cleared(w, pins.clock);
    lemma_released_cleared(w, pins.data);
    lemma_released_cleared(w, pins.select);
    assert forall|r: int| 0 <= r < SET_REGISTER implies #[trigger] c[r] == w[r] by {
        assert forall|b2: u32| b2 < 32 implies #[trigger] ((c[r] >> b2) & 1u32) == ((w[r] >> b2)
            & 1u32) by {
            if in_pins(pins, r, b2) {
                assert(((c[r] >> b2) & 1u32) == 0);
                assert(((w[r] >> b2) & 1u32) == 0);
            }
        }
        lemma_bits_equal(c[r], w[r]);
    }
}

/// Running the whole exchange twice in succession, starting with the three
/// pins released, makes the same register accesses both times: each run runs
/// to the end and appends the accesses that a run from the starting register
/// values makes.
pub proof fn lemma_configure_repeatable(s: PageState, pins: SerialPins, cmds: Seq<Command>)
    requires
        s.0.len() == REGISTER_COUNT,
        valid_pins(pins),
        released(s.0, pins),
    ensures
        ({
            let ops = sequence_spec(pins, cmds);
            let once = run_trace((s.0, Seq::<Access>::empty()), ops);
            let (s1, ok1) = run(s, ops);
            let (s2, ok2) = run(s1, ops);
            &&& ok1 && ok2
            &&& s1.1 == s.1 + once
            &&& s2.1 == s1.1 + once
        }),
{
    let ops = sequence_spec(pins, cmds);
    let e = Seq::<Access>::empty();
    lemma_sequence_restores(s.0, pins, cmds);
    lemma_run_trace(s.0, s.1, ops);
    let (s1, ok1) = run(s, ops);
    let w1 = run_words((s.0, e), ops);
    lemma_run_trace(w1, s1.1, ops);
    lemma_run_congruent((w1, e), (s.0, e), ops);
}

} // verus!
