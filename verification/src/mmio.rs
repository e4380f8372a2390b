//! A window of memory-mapped device registers, as the drivers see it.
//!
//! The window keeps the value last read from or written to each register,
//! and a log of the writes that are still to be carried out on the device.
//! Whoever owns the device loads the registers that a driver is about to
//! read, and carries out the logged writes in order.

use vstd::prelude::*;

verus! {

/// A write to a device register.
#[derive(Clone, Copy, Debug, PartialEq, Eq, Structural)]
pub struct RegWrite {
    /// Offset of the register from the base of the window, in bytes.
    pub offset: usize,
    /// The value written.
    pub value: u64,
}

/// Size of a register window in bytes.
pub const WINDOW_SIZE: usize = 0x400;

/// A register window of `WINDOW_SIZE` bytes at a base address.
pub struct RegisterWindow {
    base_addr: usize,
    words: Vec<u64>,
    writes: Vec<RegWrite>,
}

impl RegisterWindow {
    /// Address of the window.
    pub closed spec fn base_addr(&self) -> usize {
        self.base_addr
    }

    /// The registers' values, one for each 4 bytes of the window; a
    /// register of 8 bytes has its value at the position of its first 4
    /// bytes.
    pub closed spec fn words(&self) -> Seq<u64> {
        self.words@
    }

    /// The writes that are to be carried out, oldest first.
    pub closed spec fn log(&self) -> Seq<RegWrite> {
        self.writes@
    }

    /// The value of the register at `offset`.
    pub open spec fn reg(&self, offset: int) -> u64 {
        self.words()[offset / 4]
    }

    /// The window has a value for every register.
    pub open spec fn wf(&self) -> bool {
        self.words().len() == WINDOW_SIZE / 4
    }

    /// Whether `offset` is the offset of a register in the window.
    pub open spec fn valid_offset(offset: int) -> bool {
        0 <= offset < WINDOW_SIZE && offset % 4 == 0
    }

    /// `post` is `self` after the register at `offset` was written.
    pub open spec fn written(&self, post: &RegisterWindow, offset: int, value: u64) -> bool {
        &&& post.base_addr() == self.base_addr()
        &&& post.words() == self.words().update(offset / 4, value)
        &&& post.log() == self.log().push(RegWrite { offset: offset as usize, value })
    }

    /// A window at `base_addr` with all registers zero and no write logged.
    pub fn new(base_addr: usize) -> (window: Self)
        ensures
            window.wf(),
            window.base_addr() == base_addr,
            window.log() == Seq::<RegWrite>::empty(),
            forall|offset: int| Self::valid_offset(offset) ==> window.reg(offset) == 0,
    {
        RegisterWindow { base_addr, words: vec![0u64; WINDOW_SIZE / 4], writes: Vec::new() }
    }

    /// Address of the window.
    pub fn base(&self) -> (addr: usize)
        ensures
            addr == self.base_addr(),
    {
        self.base_addr
    }

    /// The value of the register at `offset`.
    pub fn read_reg(&self, offset: usize) -> (value: u64)
        requires
            self.wf(),
            Self::valid_offset(offset as int),
        ensures
            value == self.reg(offset as int),
    {
        self.words[offset / 4]
    }

    /// Writes the register at `offset`: the value is kept, and the write
    /// is logged.
    pub fn write_reg(&mut self, offset: usize, value: u64)
        requires
            old(self).wf(),
            Self::valid_offset(offset as int),
        ensures
            final(self).wf(),
            old(self).written(final(self), offset as int, value),
    {
        self.words.set(offset / 4, value);
        self.writes.push(RegWrite { offset, value });
    }

    /// Takes in the value that the device has in the register at `offset`.
    /// Nothing is logged.
    pub fn load_reg(&mut self, offset: usize, value: u64)
        requires
            old(self).wf(),
            Self::valid_offset(offset as int),
        ensures
            final(self).wf(),
            final(self).base_addr() == old(self).base_addr(),
            final(self).words() == old(self).words().update(offset as int / 4, value),
            final(self).log() == old(self).log(),
    {
        self.words.set(offset / 4, value);
    }

    /// Hands out the logged writes, oldest first, and empties the log.
    pub fn take_writes(&mut self) -> (writes: Vec<RegWrite>)
        ensures
            writes@ == old(self).log(),
            final(self).log() == Seq::<RegWrite>::empty(),
            final(self).words() == old(self).words(),
            final(self).base_addr() == old(self).base_addr(),
    {
        let mut out: Vec<RegWrite> = Vec::new();
        std::mem::swap(&mut self.writes, &mut out);
        out
    }
}

} // verus!
