use vstd::prelude::*;

use crate::error::GpioError;
use crate::regs::{Access, RegisterSpace, REGISTER_COUNT};

verus! {

/// Electrical function of a pin, as selected in the function-select registers.
#[derive(Clone, Copy, Debug, PartialEq, Eq, Structural)]
pub enum PinMode {
    In,
    Out,
    Alt5,
    Alt4,
    Alt0,
    Alt1,
    Alt2,
    Alt3,
}

/// The 3-bit hardware code of a pin mode.
pub open spec fn mode_code(m: PinMode) -> u32 {
    match m {
        PinMode::In => 0,
        PinMode::Out => 1,
        PinMode::Alt5 => 2,
        PinMode::Alt4 => 3,
        PinMode::Alt0 => 4,
        PinMode::Alt1 => 5,
        PinMode::Alt2 => 6,
        PinMode::Alt3 => 7,
    }
}

impl PinMode {
    /// The 3-bit hardware code of this mode.
    pub fn code(&self) -> (r: u32)
        ensures
            r == mode_code(*self),
            r < 8,
    {
        match self {
            PinMode::In => 0,
            PinMode::Out => 1,
            PinMode::Alt5 => 2,
            PinMode::Alt4 => 3,
            PinMode::Alt0 => 4,
            PinMode::Alt1 => 5,
            PinMode::Alt2 => 6,
            PinMode::Alt3 => 7,
        }
    }
}

/// Highest pin index that the controller drives.
pub const MAX_PIN: u32 = 27;

/// Register index of the first output-set register (byte offset 0x1c).
pub const SET_REGISTER: usize = 7;

/// Register index of the first output-clear register (byte offset 0x28).
pub const CLEAR_REGISTER: usize = 10;

/// Function-select register that holds the mode field of `pin`.
pub open spec fn fsel_index(pin: u32) -> int {
    (pin / 10) as int
}

/// Bit offset of the mode field of `pin` within its function-select register.
pub open spec fn fsel_shift(pin: u32) -> u32 {
    ((pin % 10) * 3) as u32
}

/// `current` with the 3-bit field at `shift` replaced by `code`.
pub open spec fn with_field(current: u32, shift: u32, code: u32) -> u32 {
    (current & !(7u32 << shift)) | (code << shift)
}

/// The 3-bit field at `shift` of `word`.
pub open spec fn field(word: u32, shift: u32) -> u32 {
    (word >> shift) & 7u32
}

/// Register written to drive `pin` to `level`.
pub open spec fn level_index(pin: u32, level: bool) -> int {
    (if level {
        SET_REGISTER
    } else {
        CLEAR_REGISTER
    }) + (pin / 32) as int
}

/// Value written to drive `pin`: a single one bit at the pin's position.
pub open spec fn level_bit(pin: u32) -> u32 {
    1u32 << (pin % 32)
}

/// Setting the mode field of a pin leaves that field equal to the mode's code
/// and every other bit of the register as it was.
pub proof fn lemma_with_field(current: u32, shift: u32, code: u32)
    requires
        shift <= 27,
        code < 8,
    ensures
        field(with_field(current, shift, code), shift) == code,
        forall|b: u32|
            b < 32 && (b < shift || b >= shift + 3) ==> #[trigger] ((with_field(current, shift, code)
                >> b) & 1u32) == ((current >> b) & 1u32),
{
    assert(((((current & !(7u32 << shift)) | (code << shift)) >> shift) & 7u32) == code)
        by (bit_vector)
        requires
            shift <= 27,
            code < 8,
    ;
    assert forall|b: u32| b < 32 && (b < shift || b >= shift + 3) implies #[trigger] ((with_field(
        current,
        shift,
        code,
    ) >> b) & 1u32) == ((current >> b) & 1u32) by {
        assert(((((current & !(7u32 << shift)) | (code << shift)) >> b) & 1u32) == ((current >> b)
            & 1u32)) by (bit_vector)
            requires
                shift <= 27,
                code < 8,
                b < 32,
                b < shift || b >= shift + 3,
        ;
    }
}

/// Function-select register index and bit offset for `pin`; an error for a
/// pin past the last one.
pub fn fsel_location(pin: u32) -> (r: Result<(usize, u32), GpioError>)
    ensures
        pin <= MAX_PIN ==> r == Ok::<(usize, u32), GpioError>(
            (fsel_index(pin) as usize, fsel_shift(pin)),
        ),
        pin > MAX_PIN ==> r == Err::<(usize, u32), GpioError>(GpioError::InvalidPin),
{
    if pin > MAX_PIN {
        return Err(GpioError::InvalidPin);
    }
    Ok(((pin / 10) as usize, (pin % 10) * 3))
}

/// The new value of a function-select register that held `current`, once the
/// field at `shift` selects `mode`.
pub fn fsel_value(current: u32, shift: u32, mode: PinMode) -> (r: u32)
    requires
        shift <= 27,
    ensures
        r == with_field(current, shift, mode_code(mode)),
        field(r, shift) == mode_code(mode),
{
    let code = mode.code();
    proof {
        lemma_with_field(current, shift, code);
    }
    let mask: u32 = !(7u32 << shift);
    (current & mask) | (code << shift)
}

/// Register index and value whose write drives `pin` to `level`; an error for
/// a pin past the last one.
pub fn level_write(pin: u32, level: bool) -> (r: Result<(usize, u32), GpioError>)
    ensures
        pin <= MAX_PIN ==> r == Ok::<(usize, u32), GpioError>(
            (level_index(pin, level) as usize, level_bit(pin)),
        ),
        pin > MAX_PIN ==> r == Err::<(usize, u32), GpioError>(GpioError::InvalidPin),
{
    if pin > MAX_PIN {
        return Err(GpioError::InvalidPin);
    }
    let base: usize = if level {
        SET_REGISTER
    } else {
        CLEAR_REGISTER
    };
    Ok((base + (pin / 32) as usize, 1u32 << (pin % 32)))
}

/// One pin operation: select a mode, drive a level, or wait.
#[derive(Clone, Copy, Debug, PartialEq, Eq, Structural)]
pub enum PinOp {
    Mode { pin: u32, mode: PinMode },
    Level { pin: u32, high: bool },
    DelayMicros { micros: u64 },
}

/// Register values and recorded accesses of a register page.
pub type PageState = (Seq<u32>, Seq<Access>);

/// The page after one operation, or `None` when the operation is refused.
pub open spec fn step(s: PageState, op: PinOp) -> Option<PageState> {
    match op {
        PinOp::Mode { pin, mode } => if pin <= MAX_PIN {
            let v = with_field(s.0[fsel_index(pin)], fsel_shift(pin), mode_code(mode));
            Some(
                (
                    s.0.update(fsel_index(pin), v),
                    s.1.push(Access::Write { index: fsel_index(pin) as usize, value: v }),
                ),
            )
        } else {
            None
        },
        PinOp::Level { pin, high } => if pin <= MAX_PIN {
            let i = level_index(pin, high);
            Some(
                (
                    s.0.update(i, level_bit(pin)),
                    s.1.push(Access::Write { index: i as usize, value: level_bit(pin) }),
                ),
            )
        } else {
            None
        },
        PinOp::DelayMicros { micros } => Some((s.0, s.1.push(Access::Pause { micros }))),
    }
}

/// The page after running `ops` in order, with whether all of them ran; the
/// run stops at the first refused operation.
pub open spec fn run(s: PageState, ops: Seq<PinOp>) -> (PageState, bool)
    decreases ops.len(),
{
    if ops.len() == 0 {
        (s, true)
    } else {
        let (p, ok) = run(s, ops.drop_last());
        if !ok {
            (p, false)
        } else {
            match step(p, ops.last()) {
                Some(q) => (q, true),
                None => (p, false),
            }
        }
    }
}

/// A GPIO controller over one register page.
pub struct Gpio {
    space: RegisterSpace,
}

impl Gpio {
    /// The register page, as values and recorded accesses.
    pub closed spec fn state(&self) -> PageState {
        (self.space.words(), self.space.trace())
    }

    /// The controller owns a whole register page.
    pub closed spec fn wf(&self) -> bool {
        self.space.wf()
    }

    /// A controller that owns `space`.
    pub fn new(space: RegisterSpace) -> (r: Gpio)
        requires
            space.wf(),
        ensures
            r.wf(),
            r.state() == (space.words(), space.trace()),
    {
        Gpio { space }
    }

    /// The register page.
    pub fn space(&self) -> (r: &RegisterSpace)
        ensures
            (r.words(), r.trace()) == self.state(),
            self.wf() ==> r.wf(),
    {
        &self.space
    }

    /// Selects `mode` for `pin` by a read-modify-write of its function-select
    /// register. A pin past the last one is refused and nothing is written.
    pub fn set_pin_mode(&mut self, pin: u32, mode: PinMode) -> (r: Result<(), GpioError>)
        requires
            old(self).wf(),
        ensures
            final(self).wf(),
            pin <= MAX_PIN <==> r is Ok,
            r is Err ==> r == Err::<(), GpioError>(GpioError::InvalidPin),
            step(old(self).state(), PinOp::Mode { pin, mode }) == if r is Ok {
                Some(final(self).state())
            } else {
                None::<PageState>
            },
            r is Err ==> final(self).state() == old(self).state(),
    {
        let (index, shift) = match fsel_location(pin) {
            Ok(loc) => loc,
            Err(e) => return Err(e),
        };
        let current = self.space.read(index);
        let value = fsel_value(current, shift, mode);
        self.space.write(index, value);
        Ok(())
    }

    /// Drives `pin` high or low by writing its bit to the set or clear
    /// register; other pins are not affected. A pin past the last one is
    /// refused and nothing is written.
    pub fn set_pin_level(&mut self, pin: u32, level: bool) -> (r: Result<(), GpioError>)
        requires
            old(self).wf(),
        ensures
            final(self).wf(),
            pin <= MAX_PIN <==> r is Ok,
            r is Err ==> r == Err::<(), GpioError>(GpioError::InvalidPin),
            step(old(self).state(), PinOp::Level { pin, high: level }) == if r is Ok {
                Some(final(self).state())
            } else {
                None::<PageState>
            },
            r is Err ==> final(self).state() == old(self).state(),
    {
        let (index, value) = match level_write(pin, level) {
            Ok(w) => w,
            Err(e) => return Err(e),
        };
        self.space.write(index, value);
        Ok(())
    }

    /// Performs one operation.
    pub fn apply(&mut self, op: PinOp) -> (r: Result<(), GpioError>)
        requires
            old(self).wf(),
        ensures
            final(self).wf(),
            step(old(self).state(), op) == if r is Ok {
                Some(final(self).state())
            } else {
                None::<PageState>
            },
            r is Err ==> r == Err::<(), GpioError>(GpioError::InvalidPin),
            r is Err ==> final(self).state() == old(self).state(),
    {
        match op {
            PinOp::Mode { pin, mode } => self.set_pin_mode(pin, mode),
            PinOp::Level { pin, high } => self.set_pin_level(pin, high),
            PinOp::DelayMicros { micros } => {
                self.space.pause(micros);
                Ok(())
            },
        }
    }

    /// Performs `ops` in order, stopping at the first one refused.
    pub fn run_ops(&mut self, ops: &Vec<PinOp>) -> (r: Result<(), GpioError>)
        requires
            old(self).wf(),
        ensures
            final(self).wf(),
            run(old(self).state(), ops@) == (final(self).state(), r is Ok),
            r is Err ==> r == Err::<(), GpioError>(GpioError::InvalidPin),
    {
        let mut i: usize = 0;
        while i < ops.len()
            invariant
                self.wf(),
                i <= ops@.len(),
                run(old(self).state(), ops@.subrange(0, i as int)) == (self.state(), true),
            decreases ops@.len() - i,
        {
            let ghost before = self.state();
            proof {
                assert(ops@.subrange(0, i + 1).drop_last() =~= ops@.subrange(0, i as int));
            }
            let res = self.apply(ops[i]);
            if res.is_err() {
                proof {
                    lemma_run_stops(old(self).state(), ops@, i as int);
                }
                return res;
            }
            i = i + 1;
        }
        assert(ops@.subrange(0, ops@.len() as int) =~= ops@);
        Ok(())
    }
}

/// Once a run is refused at operation `i`, the whole run ends where the
/// prefix up to `i` left it.
proof fn lemma_run_stops(s: PageState, ops: Seq<PinOp>, i: int)
    requires
        0 <= i < ops.len(),
        run(s, ops.subrange(0, i + 1)).1 == false,
    ensures
        run(s, ops) == run(s, ops.subrange(0, i + 1)),
    decreases ops.len() - i,
{
    if i + 1 < ops.len() {
        assert(ops.subrange(0, i + 2).drop_last() =~= ops.subrange(0, i + 1));
        lemma_run_stops(s, ops, i + 1);
    } else {
        assert(ops.subrange(0, i + 1) =~= ops);
    }
}

/// Register values after running `ops` from `s`.
pub open spec fn run_words(s: PageState, ops: Seq<PinOp>) -> Seq<u32> {
    let (p, ok) = run(s, ops);
    p.0
}

/// Recorded accesses after running `ops` from `s`.
pub open spec fn run_trace(s: PageState, ops: Seq<PinOp>) -> Seq<Access> {
    let (p, ok) = run(s, ops);
    p.1
}

/// Running `a` then `b` is running `a + b`; a refusal in `a` ends the run there.
pub proof fn lemma_run_append(s: PageState, a: Seq<PinOp>, b: Seq<PinOp>)
    ensures
        run(s, a + b) == if run(s, a).1 {
            run(run(s, a).0, b)
        } else {
            run(s, a)
        },
    decreases b.len(),
{
    if b.len() == 0 {
        assert(a + b =~= a);
    } else {
        assert((a + b).drop_last() =~= a + b.drop_last());
        assert((a + b).last() == b.last());
        lemma_run_append(s, a, b.drop_last());
    }
}

/// The accesses that a run records are appended to those already recorded,
/// whatever those were.
pub proof fn lemma_run_trace(w: Seq<u32>, t: Seq<Access>, ops: Seq<PinOp>)
    ensures
        run((w, t), ops) == (
            (
                run_words((w, Seq::<Access>::empty()), ops),
                t + run_trace((w, Seq::<Access>::empty()), ops),
            ),
            run((w, Seq::<Access>::empty()), ops).1,
        ),
    decreases ops.len(),
{
    if ops.len() > 0 {
        lemma_run_trace(w, t, ops.drop_last());
        let e = run((w, Seq::<Access>::empty()), ops.drop_last());
        if e.1 {
            let op = ops.last();
            let p = e.0;
            match op {
                PinOp::Mode { pin, mode } => {
                    if pin <= MAX_PIN {
                        let v = with_field(p.0[fsel_index(pin)], fsel_shift(pin), mode_code(mode));
                        let a = Access::Write { index: fsel_index(pin) as usize, value: v };
                        assert((t + p.1).push(a) =~= t + p.1.push(a));
                    }
                },
                PinOp::Level { pin, high } => {
                    if pin <= MAX_PIN {
                        let a = Access::Write {
                            index: level_index(pin, high) as usize,
                            value: level_bit(pin),
                        };
                        assert((t + p.1).push(a) =~= t + p.1.push(a));
                    }
                },
                PinOp::DelayMicros { micros } => {
                    let a = Access::Pause { micros };
                    assert((t + p.1).push(a) =~= t + p.1.push(a));
                },
            }
        }
    }
}

/// Two pages whose function-select registers hold the same values.
pub open spec fn fsel_agree(a: Seq<u32>, b: Seq<u32>) -> bool {
    a.len() == REGISTER_COUNT && b.len() == REGISTER_COUNT && forall|i: int|
        0 <= i < SET_REGISTER ==> #[trigger] a[i] == b[i]
}

/// A run reads nothing but the function-select registers: from two pages that
/// agree there, it makes the same accesses and leaves pages that agree there.
pub proof fn lemma_run_congruent(p: PageState, q: PageState, ops: Seq<PinOp>)
    requires
        fsel_agree(p.0, q.0),
        p.1 == q.1,
    ensures
        run(p, ops).1 == run(q, ops).1,
        run_trace(p, ops) == run_trace(q, ops),
        fsel_agree(run_words(p, ops), run_words(q, ops)),
    decreases ops.len(),
{
    if ops.len() > 0 {
        lemma_run_congruent(p, q, ops.drop_last());
        let (pa, ok) = run(p, ops.drop_last());
        let (pb, okb) = run(q, ops.drop_last());
        let (wa, ta) = pa;
        let (wb, tb) = pb;
        if ok {
            match ops.last() {
                PinOp::Mode { pin, mode } => {
                    if pin <= MAX_PIN {
                        assert(wa[fsel_index(pin)] == wb[fsel_index(pin)]);
                    }
                },
                _ => {},
            }
            match step(pa, ops.last()) {
                Some(na) => {
                    let (nwa, nta) = na;
                    let (nwb, ntb) = step(pb, ops.last())->0;
                    assert(fsel_agree(nwa, nwb));
                },
                None => {},
            }
        }
    }
}

/// Selecting a mode for a valid pin rewrites only the pin's 3-bit field of
/// its function-select register: afterwards that field reads back as the
/// mode's code, every other bit of the register and every other register are
/// as they were, and exactly that one write is recorded.
pub proof fn lemma_set_pin_mode_field(s: PageState, pin: u32, mode: PinMode)
    requires
        s.0.len() == REGISTER_COUNT,
        pin <= MAX_PIN,
    ensures
        step(s, PinOp::Mode { pin, mode }) is Some,
        ({
            let (w, t) = step(s, PinOp::Mode { pin, mode })->0;
            let i = fsel_index(pin);
            let sh = fsel_shift(pin);
            &&& w.len() == s.0.len()
            &&& field(w[i], sh) == mode_code(mode)
            &&& forall|b: u32|
                b < 32 && (b < sh || b >= sh + 3) ==> #[trigger] ((w[i] >> b) & 1u32) == ((s.0[i]
                    >> b) & 1u32)
            &&& forall|j: int| 0 <= j < w.len() && j != i ==> w[j] == s.0[j]
            &&& t == s.1.push(Access::Write { index: i as usize, value: w[i] })
        }),
{
    let sh = fsel_shift(pin);
    lemma_with_field(s.0[fsel_index(pin)], sh, mode_code(mode));
}

} // verus!
