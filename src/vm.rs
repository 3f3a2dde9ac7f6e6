use vstd::prelude::*;

use crate::compiler::{
    compile_from, compile_spec, counted_op, lemma_run_length_exact, run_length, CompileError,
};
use crate::opcode::{Direction, OpCode};

verus! {

/// Number of cells on the tape of a machine built by [`BFVM::new`].
pub const TAPE_LEN: usize = 300000;

/// A fatal condition met while running.
#[derive(Clone, Copy, Debug, PartialEq, Eq, Structural)]
pub enum RunError {
    /// A move would leave the tape, or the cursor is not on it.
    CursorOutOfBounds,
    /// A `Read` found no input byte left.
    InputExhausted,
}

/// What one step of the machine did.
#[derive(Clone, Copy, Debug, PartialEq, Eq, Structural)]
pub enum Step {
    /// The instruction pointer is past the last opcode: nothing was done.
    Halted,
    /// One opcode ran and produced no output.
    Continued,
    /// One `Write` ran and emitted this byte.
    Emitted(u8),
    /// The opcode could not run; the machine is unchanged.
    Failed(RunError),
}

/// How a bounded run ended.
#[derive(Clone, Copy, Debug, PartialEq, Eq, Structural)]
pub enum Outcome {
    /// The instruction pointer ran past the last opcode.
    Finished,
    /// A step failed; the machine stands at the failing opcode.
    Failed(RunError),
    /// The step budget ran out first.
    OutOfFuel,
}

/// The state of a machine, as a mathematical value.
pub struct Machine {
    pub tape: Seq<u8>,
    pub cursor: int,
    pub code: Seq<OpCode>,
    pub ip: int,
}

/// The machine has no opcode left to run.
pub open spec fn halted(m: Machine) -> bool {
    m.ip < 0 || m.ip >= m.code.len()
}

/// The next opcode is a `Read`, so the next step consumes one input byte.
pub open spec fn wants_input(m: Machine) -> bool {
    !halted(m) && m.code[m.ip] is Read
}

/// `m` with the instruction pointer moved to the next opcode.
pub open spec fn advance(m: Machine) -> Machine {
    Machine { ip: m.ip + 1, ..m }
}

/// `m` with the current cell set to `v` and the instruction pointer advanced.
pub open spec fn store(m: Machine, v: u8) -> Machine {
    Machine { tape: m.tape.update(m.cursor, v), ip: m.ip + 1, ..m }
}

/// One step of execution; `input` is the byte a `Read` would consume.
///
/// Cursor bounds are checked eagerly: a move that would leave the tape fails
/// and changes nothing. Opcodes that touch the current cell check it too, so
/// no cell outside the tape is ever read or written. Cell arithmetic wraps
/// modulo 256 and never fails.
pub open spec fn step_spec(m: Machine, input: Option<u8>) -> (Machine, Step) {
    if halted(m) {
        (m, Step::Halted)
    } else {
        match m.code[m.ip] {
            OpCode::MoveLeft(n) => {
                if m.cursor < n {
                    (m, Step::Failed(RunError::CursorOutOfBounds))
                } else {
                    (Machine { cursor: m.cursor - n, ..advance(m) }, Step::Continued)
                }
            },
            OpCode::MoveRight(n) => {
                if m.cursor + n >= m.tape.len() {
                    (m, Step::Failed(RunError::CursorOutOfBounds))
                } else {
                    (Machine { cursor: m.cursor + n, ..advance(m) }, Step::Continued)
                }
            },
            op => {
                if m.cursor < 0 || m.cursor >= m.tape.len() {
                    (m, Step::Failed(RunError::CursorOutOfBounds))
                } else {
                    let cell = m.tape[m.cursor];
                    match op {
                        OpCode::Increment(n) => (
                            store(m, ((cell + n) % 256) as u8),
                            Step::Continued,
                        ),
                        OpCode::Decrement(n) => (
                            store(m, ((cell - n + 256) % 256) as u8),
                            Step::Continued,
                        ),
                        OpCode::Zero => (store(m, 0), Step::Continued),
                        OpCode::Read => match input {
                            Some(b) => (store(m, b), Step::Continued),
                            None => (m, Step::Failed(RunError::InputExhausted)),
                        },
                        OpCode::Write => (advance(m), Step::Emitted(cell)),
                        OpCode::Jump { destination, direction } => {
                            let taken = if direction == Direction::Forward {
                                cell == 0
                            } else {
                                cell != 0
                            };
                            if taken {
                                (Machine { ip: destination as int, ..m }, Step::Continued)
                            } else {
                                (advance(m), Step::Continued)
                            }
                        },
                        _ => (m, Step::Halted),
                    }
                }
            },
        }
    }
}

/// The byte that a `Read` would consume next, if any is left.
pub open spec fn next_input(input: Seq<u8>) -> Option<u8> {
    if input.len() > 0 {
        Some(input[0])
    } else {
        None
    }
}

/// The result `r` of a later run, with `out` written and `used` bytes read before it.
pub open spec fn after_prefix(
    out: Seq<u8>,
    used: nat,
    r: (Machine, Seq<u8>, nat, Outcome),
) -> (Machine, Seq<u8>, nat, Outcome) {
    (r.0, out + r.1, used + r.2, r.3)
}

/// Runs at most `fuel` steps from `m`, reading bytes from the front of `input`.
/// Gives the final machine, the bytes written, how many input bytes were
/// consumed, and how the run ended.
pub open spec fn run_spec(m: Machine, input: Seq<u8>, fuel: nat) -> (Machine, Seq<u8>, nat, Outcome)
    decreases fuel,
{
    if halted(m) {
        (m, seq![], 0, Outcome::Finished)
    } else if fuel == 0 {
        (m, seq![], 0, Outcome::OutOfFuel)
    } else {
        let (m2, st) = step_spec(m, next_input(input));
        match st {
            Step::Failed(e) => (m, seq![], 0, Outcome::Failed(e)),
            _ => {
                let used: nat = if wants_input(m) { 1 } else { 0 };
                let emitted = match st {
                    Step::Emitted(b) => seq![b],
                    _ => seq![],
                };
                after_prefix(emitted, used, run_spec(m2, input.skip(used as int), (fuel - 1) as nat))
            },
        }
    }
}

/// A zero-filled tape of `n` cells.
pub open spec fn blank_tape(n: nat) -> Seq<u8> {
    Seq::new(n, |k: int| 0u8)
}

/// A fresh machine with a zeroed tape of `tape_len` cells running `code`.
pub open spec fn fresh_machine(code: Seq<OpCode>, tape_len: nat) -> Machine {
    Machine { tape: blank_tape(tape_len), cursor: 0, code, ip: 0 }
}

/// The program `+` written `n` times, then `.`.
pub open spec fn increments_then_write(n: nat) -> Seq<char> {
    Seq::new(n, |k: int| '+').push('.')
}

/// Writing after `n` increments of a fresh cell emits `n` modulo 256, and the
/// program then finishes.
pub proof fn lemma_increments_then_write(n: nat, tape_len: nat, input: Seq<u8>, fuel: nat)
    requires
        tape_len >= 1,
        fuel >= 2,
    ensures
        compile_spec(increments_then_write(n)) is Ok,
        run_spec(
            fresh_machine(compile_spec(increments_then_write(n))->Ok_0, tape_len),
            input,
            fuel,
        ).1 == seq![(n % 256) as u8],
        run_spec(
            fresh_machine(compile_spec(increments_then_write(n))->Ok_0, tape_len),
            input,
            fuel,
        ).3 == Outcome::Finished,
{
    let s = increments_then_write(n);
    assert(input.skip(0) =~= input);
    let e: Seq<OpCode> = seq![];
    let p: Seq<usize> = seq![];
    if n == 0 {
        assert(compile_spec(s) == compile_from(s, 1, e.push(OpCode::Write), p));
        let code = e.push(OpCode::Write);
        let m = fresh_machine(code, tape_len);
        let m1 = advance(m);
        assert(run_spec(m1, input, (fuel - 1) as nat) == (m1, Seq::<u8>::empty(), 0nat, Outcome::Finished));
        assert(seq![0u8] + Seq::<u8>::empty() =~= seq![0u8]);
    } else {
        lemma_run_length_exact(s, 1, n as int, '+');
        assert(run_length(s, 0, '+') == n);
        let inc = counted_op('+', n);
        assert(compile_spec(s) == compile_from(s, n as int, e.push(inc), p));
        assert(compile_from(s, n as int, e.push(inc), p) == compile_from(s, n + 1int, e.push(inc).push(OpCode::Write), p));
        let code = e.push(inc).push(OpCode::Write);
        let m = fresh_machine(code, tape_len);
        let v = ((0 + (n % 256) as u8) % 256) as u8;
        let m1 = store(m, v);
        assert(step_spec(m, next_input(input)) == (m1, Step::Continued));
        let m2 = advance(m1);
        assert(m1.tape[0] == v);
        assert(step_spec(m1, next_input(input)) == (advance(m1), Step::Emitted(v)));
        assert(run_spec(m2, input, (fuel - 2) as nat) == (m2, Seq::<u8>::empty(), 0nat, Outcome::Finished));
        assert(run_spec(m1, input, (fuel - 1) as nat).1 == seq![v] + Seq::<u8>::empty());
        assert(seq![v] + Seq::<u8>::empty() =~= seq![v]);
        assert(v == (n % 256) as u8);
    }
}

/// On a fresh cell, `-.` wraps round and emits 255.
pub proof fn lemma_decrement_wraps(tape_len: nat, input: Seq<u8>, fuel: nat)
    requires
        tape_len >= 1,
        fuel >= 2,
    ensures
        compile_spec(seq!['-', '.']) == Ok::<Seq<OpCode>, CompileError>(
            seq![OpCode::Decrement(1), OpCode::Write],
        ),
        run_spec(fresh_machine(seq![OpCode::Decrement(1), OpCode::Write], tape_len), input, fuel).1
            == seq![255u8],
{
    let s = seq!['-', '.'];
    assert(input.skip(0) =~= input);
    let e: Seq<OpCode> = seq![];
    let p: Seq<usize> = seq![];
    lemma_run_length_exact(s, 1, 1, '-');
    assert(compile_spec(s) == compile_from(s, 1, e.push(OpCode::Decrement(1)), p));
    assert(compile_from(s, 1, e.push(OpCode::Decrement(1)), p) == compile_from(s, 2, e.push(OpCode::Decrement(1)).push(OpCode::Write), p));
    assert(e.push(OpCode::Decrement(1)).push(OpCode::Write) =~= seq![OpCode::Decrement(1), OpCode::Write]);
    let m = fresh_machine(seq![OpCode::Decrement(1), OpCode::Write], tape_len);
    let m1 = store(m, 255u8);
    assert(m.tape[0] == 0u8);
    assert(step_spec(m, next_input(input)) == (m1, Step::Continued));
    let m2 = advance(m1);
    assert(step_spec(m1, next_input(input)) == (m2, Step::Emitted(255u8)));
    assert(run_spec(m2, input, (fuel - 2) as nat) == (m2, Seq::<u8>::empty(), 0nat, Outcome::Finished));
    assert(run_spec(m1, input, (fuel - 1) as nat).1 == seq![255u8] + Seq::<u8>::empty());
    assert(seq![255u8] + Seq::<u8>::empty() =~= seq![255u8]);
    assert(run_spec(m, input, fuel).1 == Seq::<u8>::empty() + run_spec(m1, input, (fuel - 1) as nat).1);
    assert(Seq::<u8>::empty() + seq![255u8] =~= seq![255u8]);
}

/// What a bounded run of [`BFVM::run`] reports.
pub struct RunReport {
    /// The bytes written, in order.
    pub output: Vec<u8>,
    /// How many input bytes were read.
    pub consumed: usize,
    /// How the run ended.
    pub outcome: Outcome,
}

/// A brainfuck virtual machine: a tape of bytes with a cursor, and a compiled
/// program with an instruction pointer.
pub struct BFVM {
    pub memory: Vec<u8>,
    pub mem_pointer: usize,
    pub code: Vec<OpCode>,
    pub code_pointer: usize,
}

impl View for BFVM {
    type V = Machine;

    open spec fn view(&self) -> Machine {
        Machine {
            tape: self.memory@,
            cursor: self.mem_pointer as int,
            code: self.code@,
            ip: self.code_pointer as int,
        }
    }
}

/// The characters of `code`, in order.
fn chars_of(code: &str) -> (r: Vec<char>)
    ensures
        r@ == code@,
{
    let n = code.unicode_len();
    let mut r: Vec<char> = Vec::new();
    let mut i: usize = 0;
    while i < n
        invariant
            n == code@.len(),
            i <= n,
            r@ == code@.take(i as int),
        decreases n - i,
    {
        r.push(code.get_char(i));
        i = i + 1;
        assert(r@ =~= code@.take(i as int));
    }
    assert(r@ =~= code@);
    r
}

impl BFVM {
    /// Compiles `code` and sets up a machine with a zeroed tape of
    /// [`TAPE_LEN`] cells, ready to run.
    pub fn new(code: &str) -> (r: Result<BFVM, CompileError>)
        ensures
            match r {
                Ok(vm) => compile_spec(code@) == Ok::<Seq<OpCode>, CompileError>(vm.code@)
                    && vm@ == (Machine {
                    tape: blank_tape(TAPE_LEN as nat),
                    cursor: 0,
                    code: vm.code@,
                    ip: 0,
                }),
                Err(e) => compile_spec(code@) == Err::<Seq<OpCode>, CompileError>(e),
            },
    {
        BFVM::with_tape_len(code, TAPE_LEN)
    }

    /// Compiles `code` and sets up a machine with a zeroed tape of
    /// `tape_len` cells, ready to run.
    pub fn with_tape_len(code: &str, tape_len: usize) -> (r: Result<BFVM, CompileError>)
        ensures
            match r {
                Ok(vm) => compile_spec(code@) == Ok::<Seq<OpCode>, CompileError>(vm.code@)
                    && vm@ == (Machine {
                    tape: blank_tape(tape_len as nat),
                    cursor: 0,
                    code: vm.code@,
                    ip: 0,
                }),
                Err(e) => compile_spec(code@) == Err::<Seq<OpCode>, CompileError>(e),
            },
    {
        let chars = chars_of(code);
        match BFVM::compile(&chars) {
            Err(e) => Err(e),
            Ok(ops) => {
                let mut memory: Vec<u8> = Vec::new();
                let mut k: usize = 0;
                while k < tape_len
                    invariant
                        k <= tape_len,
                        memory@ == blank_tape(k as nat),
                    decreases tape_len - k,
                {
                    memory.push(0u8);
                    k = k + 1;
                    assert(memory@ =~= blank_tape(k as nat));
                }
                let vm = BFVM { memory, mem_pointer: 0, code: ops, code_pointer: 0 };
                assert(vm@.tape =~= blank_tape(tape_len as nat));
                Ok(vm)
            },
        }
    }

    /// The next opcode is a `Read`: the next call of [`BFVM::step`] consumes
    /// its input byte.
    pub fn needs_input(&self) -> (r: bool)
        ensures
            r == wants_input(self@),
    {
        self.code_pointer < self.code.len() && matches!(self.code[self.code_pointer], OpCode::Read)
    }

    /// Runs one opcode. `input` is only looked at when that opcode is `Read`.
    pub fn step(&mut self, input: Option<u8>) -> (r: Step)
        ensures
            (final(self)@, r) == step_spec(old(self)@, input),
    {
        if self.code_pointer >= self.code.len() {
            return Step::Halted;
        }
        let op = self.code[self.code_pointer];
        match op {
            OpCode::MoveLeft(n) => {
                if self.mem_pointer < n {
                    return Step::Failed(RunError::CursorOutOfBounds);
                }
                self.mem_pointer = self.mem_pointer - n;
                self.code_pointer = self.code_pointer + 1;
                return Step::Continued;
            },
            OpCode::MoveRight(n) => {
                if n >= self.memory.len() || self.mem_pointer >= self.memory.len() - n {
                    return Step::Failed(RunError::CursorOutOfBounds);
                }
                self.mem_pointer = self.mem_pointer + n;
                self.code_pointer = self.code_pointer + 1;
                return Step::Continued;
            },
            _ => {},
        }
        if self.mem_pointer >= self.memory.len() {
            return Step::Failed(RunError::CursorOutOfBounds);
        }
        let cell = self.memory[self.mem_pointer];
        match op {
            OpCode::Increment(n) => {
                let v = ((cell as u16 + n as u16) % 256) as u8;
                self.memory.set(self.mem_pointer, v);
                self.code_pointer = self.code_pointer + 1;
                Step::Continued
            },
            OpCode::Decrement(n) => {
                let v = ((cell as u16 + 256 - n as u16) % 256) as u8;
                self.memory.set(self.mem_pointer, v);
                self.code_pointer = self.code_pointer + 1;
                Step::Continued
            },
            OpCode::Zero => {
                self.memory.set(self.mem_pointer, 0);
                self.code_pointer = self.code_pointer + 1;
                Step::Continued
            },
            OpCode::Read => match input {
                Some(b) => {
                    self.memory.set(self.mem_pointer, b);
                    self.code_pointer = self.code_pointer + 1;
                    Step::Continued
                },
                None => Step::Failed(RunError::InputExhausted),
            },
            OpCode::Write => {
                self.code_pointer = self.code_pointer + 1;
                Step::Emitted(cell)
            },
            OpCode::Jump { destination, direction } => {
                let taken = match direction {
                    Direction::Forward => cell == 0,
                    Direction::Backward => cell != 0,
                };
                if taken {
                    self.code_pointer = destination;
                } else {
                    self.code_pointer = self.code_pointer + 1;
                }
                Step::Continued
            },
            _ => Step::Halted,
        }
    }

    /// Runs at most `fuel` opcodes, feeding `Read` from `input` in order.
    pub fn run(&mut self, input: &Vec<u8>, fuel: usize) -> (r: RunReport)
        ensures
            run_spec(old(self)@, input@, fuel as nat) == (
                final(self)@,
                r.output@,
                r.consumed as nat,
                r.outcome,
            ),
    {
        let ghost m0 = self@;
        let mut output: Vec<u8> = Vec::new();
        let mut consumed: usize = 0;
        let mut left: usize = fuel;
        let mut outcome = Outcome::OutOfFuel;
        assert(input@.skip(0) =~= input@);
        assert(Seq::<u8>::empty() + run_spec(m0, input@, fuel as nat).1 =~= run_spec(m0, input@, fuel as nat).1);
        loop
            invariant_except_break
                outcome == Outcome::OutOfFuel,
                run_spec(m0, input@, fuel as nat) == after_prefix(
                    output@,
                    consumed as nat,
                    run_spec(self@, input@.skip(consumed as int), left as nat),
                ),
            invariant
                consumed <= input.len(),
                left <= fuel,
            ensures
                run_spec(m0, input@, fuel as nat) == (self@, output@, consumed as nat, outcome),
            decreases left,
        {
            let ghost rest = input@.skip(consumed as int);
            if self.code_pointer >= self.code.len() {
                assert(output@ + Seq::<u8>::empty() =~= output@);
                outcome = Outcome::Finished;
                break;
            }
            if left == 0 {
                assert(output@ + Seq::<u8>::empty() =~= output@);
                break;
            }
            let reads = self.needs_input();
            let next = if consumed < input.len() {
                Some(input[consumed])
            } else {
                None
            };
            let st = self.step(next);
            let ghost used: nat = if reads { 1 } else { 0 };
            let ghost tail = run_spec(self@, rest.skip(used as int), (left - 1) as nat);
            match st {
                Step::Failed(e) => {
                    assert(output@ + seq![] =~= output@);
                    outcome = Outcome::Failed(e);
                    break;
                },
                Step::Emitted(b) => {
                    let ghost prev = output@;
                    output.push(b);
                    assert(prev + (seq![b] + tail.1) =~= output@ + tail.1);
                    assert(rest.skip(0) =~= rest);
                },
                _ => {
                    assert(seq![] + tail.1 =~= tail.1);
                    if reads {
                        assert(rest.skip(1) =~= input@.skip(consumed + 1));
                        consumed = consumed + 1;
                    } else {
                        assert(rest.skip(0) =~= rest);
                    }
                },
            }
            left = left - 1;
        }
        RunReport { output, consumed, outcome }
    }
}

} // verus!
