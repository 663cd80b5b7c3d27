use vstd::prelude::*;

verus! {

/// Bytes in the mapped register page.
pub const PAGE_SIZE: usize = 4096;

/// 32-bit registers in the mapped register page.
pub const REGISTER_COUNT: usize = 1024;

/// One observable event on a register page: a register write, or a timed pause
/// between accesses.
#[derive(Clone, Copy, Debug, PartialEq, Eq, Structural)]
pub enum Access {
    Write { index: usize, value: u32 },
    Pause { micros: u64 },
}

/// A page of 32-bit registers held in memory, which records every write and
/// pause made on it in order. It stands in for the mapped peripheral page
/// wherever the register traffic itself is the object of interest.
pub struct RegisterSpace {
    words: Vec<u32>,
    trace: Vec<Access>,
}

impl RegisterSpace {
    /// The register values, by index.
    pub closed spec fn words(&self) -> Seq<u32> {
        self.words@
    }

    /// Every access made so far, oldest first.
    pub closed spec fn trace(&self) -> Seq<Access> {
        self.trace@
    }

    /// The page holds exactly one page of registers.
    pub open spec fn wf(&self) -> bool {
        self.words().len() == REGISTER_COUNT
    }

    /// A page whose registers all read zero, with nothing recorded.
    pub fn new() -> (r: RegisterSpace)
        ensures
            r.wf(),
            r.words() == Seq::new(REGISTER_COUNT as nat, |i: int| 0u32),
            r.trace() == Seq::<Access>::empty(),
    {
        let mut words: Vec<u32> = Vec::new();
        let mut i: usize = 0;
        while i < REGISTER_COUNT
            invariant
                i <= REGISTER_COUNT,
                words@ == Seq::new(i as nat, |k: int| 0u32),
            decreases REGISTER_COUNT - i,
        {
            words.push(0);
            i = i + 1;
            assert(words@ =~= Seq::new(i as nat, |k: int| 0u32));
        }
        RegisterSpace { words, trace: Vec::new() }
    }

    /// A page holding the given register values, with nothing recorded;
    /// `None` unless there is exactly one page of them.
    pub fn from_words(words: Vec<u32>) -> (r: Option<RegisterSpace>)
        ensures
            words@.len() == REGISTER_COUNT <==> r is Some,
            r matches Some(s) ==> s.wf() && s.words() == words@ && s.trace() == Seq::<
                Access,
            >::empty(),
    {
        if words.len() == REGISTER_COUNT {
            Some(RegisterSpace { words, trace: Vec::new() })
        } else {
            None
        }
    }

    /// Reads the register at `index`.
    pub fn read(&self, index: usize) -> (r: u32)
        requires
            self.wf(),
            index < REGISTER_COUNT,
        ensures
            r == self.words()[index as int],
    {
        self.words[index]
    }

    /// Writes `value` to the register at `index`, and records the write.
    pub fn write(&mut self, index: usize, value: u32)
        requires
            old(self).wf(),
            index < REGISTER_COUNT,
        ensures
            final(self).wf(),
            final(self).words() == old(self).words().update(index as int, value),
            final(self).trace() == old(self).trace().push(Access::Write { index, value }),
    {
        self.words.set(index, value);
        self.trace.push(Access::Write { index, value });
    }

    /// Records a pause of `micros` microseconds; no register is touched.
    pub fn pause(&mut self, micros: u64)
        ensures
            final(self).words() == old(self).words(),
            final(self).trace() == old(self).trace().push(Access::Pause { micros }),
    {
        self.trace.push(Access::Pause { micros });
    }

    /// Every access made so far, oldest first.
    pub fn accesses(&self) -> (r: &Vec<Access>)
        ensures
            r@ == self.trace(),
    {
        &self.trace
    }
}

} // verus!
