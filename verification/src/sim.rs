//! The first simulator's plain values: a bit field in a bare `u64`, and the
//! pins, links and writes of a board wired by index.

use crate::bits::{bit_of, with_bit};
use vstd::prelude::*;

verus! {

/// Up to 64 bits.
#[derive(Debug, Clone, Copy)]
pub struct BitField(pub u64);

impl BitField {
    /// Sets bit `pos` to `state`.
    pub fn set(&mut self, pos: usize, state: bool)
        requires
            pos < 64,
        ensures
            final(self).0 == with_bit(old(self).0, pos as nat, state),
    {
        let s: u64 = if state { 1 } else { 0 };
        self.0 = (self.0 & !(1u64 << pos as u64)) | (s << pos as u64);
    }

    /// The state of bit `pos`.
    pub fn get(&self, pos: usize) -> (r: bool)
        requires
            pos < 64,
        ensures
            r == bit_of(self.0, pos as nat),
    {
        ((self.0 >> pos as u64) & 1) == 1
    }

    /// The states of the first `size` bits.
    pub fn states(self, size: usize) -> (r: Vec<bool>)
        requires
            size <= 64,
        ensures
            r@ == Seq::new(size as nat, |i: int| bit_of(self.0, i as nat)),
    {
        let mut r: Vec<bool> = Vec::new();
        let mut i: usize = 0;
        while i < size
            invariant
                i <= size <= 64,
                r@ == Seq::new(i as nat, |j: int| bit_of(self.0, j as nat)),
            decreases size - i,
        {
            r.push(self.get(i));
            i = i + 1;
            assert(r@ =~= Seq::new(i as nat, |j: int| bit_of(self.0, j as nat)));
        }
        r
    }
}

/// An output of a device that changed, with its new state.
#[derive(Debug, Clone, Copy)]
pub struct ChangedOutput {
    pub output: usize,
    pub state: bool,
}

/// Where a board write goes: an output of the board, or input `1` of device
/// `0`.
#[derive(Debug, Clone, Copy)]
pub enum BoardWriteTarget {
    BoardOutput(usize),
    DeviceInput(usize, usize),
}

/// A link from output `output` of a device.
#[derive(Debug, Clone, Copy)]
pub struct BoardLink {
    pub output: usize,
    pub target: BoardWriteTarget,
}

/// A state on its way to a target.
#[derive(Debug, Clone, Copy)]
pub struct BoardWrite {
    pub target: BoardWriteTarget,
    pub state: bool,
}

/// An input of a board, with the targets it drives.
#[derive(Debug)]
pub struct BoardInput {
    pub state: bool,
    pub links: Vec<BoardWriteTarget>,
}

/// An output of a board.
#[derive(Debug, Clone, Copy)]
pub struct BoardOutput {
    pub state: bool,
}

impl Default for BoardInput {
    fn default() -> (r: Self)
        ensures
            !r.state,
            r.links@.len() == 0,
    {
        BoardInput { state: false, links: Vec::new() }
    }
}

impl Default for BoardOutput {
    fn default() -> (r: Self)
        ensures
            !r.state,
    {
        BoardOutput { state: false }
    }
}

} // verus!
