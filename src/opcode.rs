use vstd::prelude::*;

verus! {

/// Which way a conditional jump points.
#[derive(Clone, Copy, Debug, PartialEq, Eq, Structural)]
pub enum Direction {
    /// A loop start: taken when the current cell is zero.
    Forward,
    /// A loop end: taken when the current cell is not zero.
    Backward,
}

/// One instruction of the intermediate representation.
#[derive(Clone, Copy, Debug, PartialEq, Eq, Structural)]
pub enum OpCode {
    /// Adds the count to the current cell, modulo 256.
    Increment(u8),
    /// Subtracts the count from the current cell, modulo 256.
    Decrement(u8),
    /// Moves the cursor left by the count.
    MoveLeft(usize),
    /// Moves the cursor right by the count.
    MoveRight(usize),
    /// Sets the current cell to zero.
    Zero,
    /// Reads one input byte into the current cell.
    Read,
    /// Emits the current cell as one output byte.
    Write,
    /// Jumps to `destination` when the current cell is zero (`Forward`)
    /// or not zero (`Backward`); otherwise falls through.
    Jump { destination: usize, direction: Direction },
}

} // verus!
