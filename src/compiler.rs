use vstd::prelude::*;

use crate::opcode::{Direction, OpCode};
use crate::vm::BFVM;

verus! {

/// Why a source program could not be compiled.
#[derive(Clone, Copy, Debug, PartialEq, Eq, Structural)]
pub enum CompileError {
    /// A `]` with no open `[` before it.
    UnmatchedLoopEnd,
    /// A `[` that is never closed.
    UnmatchedLoopStart,
}

/// The four characters whose runs collapse into one counted opcode.
pub open spec fn is_counted_char(c: char) -> bool {
    c == '<' || c == '>' || c == '+' || c == '-'
}

/// How many copies of `c` stand in `s` from position `i` on, without a break.
pub open spec fn run_length(s: Seq<char>, i: int, c: char) -> nat
    decreases s.len() - i,
{
    if 0 <= i < s.len() && s[i] == c {
        1 + run_length(s, i + 1, c)
    } else {
        0
    }
}

/// The opcode that a run of `n` copies of the counted character `c` becomes.
pub open spec fn counted_op(c: char, n: nat) -> OpCode {
    if c == '<' {
        OpCode::MoveLeft(n as usize)
    } else if c == '>' {
        OpCode::MoveRight(n as usize)
    } else if c == '+' {
        OpCode::Increment((n % 256) as u8)
    } else {
        OpCode::Decrement((n % 256) as u8)
    }
}

/// `[-]` starts at position `i`.
pub open spec fn is_zero_idiom(s: Seq<char>, i: int) -> bool {
    0 <= i && i + 2 < s.len() && s[i] == '[' && s[i + 1] == '-' && s[i + 2] == ']'
}

/// The result of compiling `s` from position `i` on, when `out` has been
/// emitted so far and `pending` holds the indices of the open forward jumps,
/// innermost last.
pub open spec fn compile_from(
    s: Seq<char>,
    i: int,
    out: Seq<OpCode>,
    pending: Seq<usize>,
) -> Result<Seq<OpCode>, CompileError>
    decreases s.len() - i,
    when 0 <= i
    via compile_from_decreases
{
    if i >= s.len() {
        if pending.len() == 0 {
            Ok(out)
        } else {
            Err(CompileError::UnmatchedLoopStart)
        }
    } else {
        let c = s[i];
        if is_counted_char(c) {
            let n = 1 + run_length(s, i + 1, c);
            compile_from(s, i + n, out.push(counted_op(c, n)), pending)
        } else if c == '.' {
            compile_from(s, i + 1, out.push(OpCode::Write), pending)
        } else if c == ',' {
            compile_from(s, i + 1, out.push(OpCode::Read), pending)
        } else if c == '[' {
            if is_zero_idiom(s, i) {
                compile_from(s, i + 3, out.push(OpCode::Zero), pending)
            } else {
                compile_from(
                    s,
                    i + 1,
                    out.push(OpCode::Jump { destination: 0, direction: Direction::Forward }),
                    pending.push(out.len() as usize),
                )
            }
        } else if c == ']' {
            if pending.len() == 0 {
                Err(CompileError::UnmatchedLoopEnd)
            } else {
                let open = pending.last();
                let closed = out.update(
                    open as int,
                    OpCode::Jump { destination: (out.len() + 1) as usize, direction: Direction::Forward },
                );
                compile_from(
                    s,
                    i + 1,
                    closed.push(OpCode::Jump { destination: open, direction: Direction::Backward }),
                    pending.drop_last(),
                )
            }
        } else {
            compile_from(s, i + 1, out, pending)
        }
    }
}

/// A run never reaches past the end of the text.
pub proof fn lemma_run_length_bound(s: Seq<char>, i: int, c: char)
    requires
        0 <= i,
    ensures
        i + run_length(s, i, c) <= if i <= s.len() { s.len() as int } else { i },
    decreases s.len() - i,
{
    if 0 <= i < s.len() && s[i] == c {
        lemma_run_length_bound(s, i + 1, c);
    }
}

#[via_fn]
proof fn compile_from_decreases(
    s: Seq<char>,
    i: int,
    out: Seq<OpCode>,
    pending: Seq<usize>,
) {
    if 0 <= i < s.len() && is_counted_char(s[i]) {
        lemma_run_length_bound(s, i + 1, s[i]);
    }
}

/// The intermediate representation of the whole program `s`.
pub open spec fn compile_spec(s: Seq<char>) -> Result<Seq<OpCode>, CompileError> {
    compile_from(s, 0, seq![], seq![])
}

/// Scans `s` from position `i` with `depth` loops open and tells whether every
/// `]` closes an open `[` and every `[` is closed by the end.
pub open spec fn bracket_check(s: Seq<char>, i: int, depth: nat) -> Result<(), CompileError>
    decreases s.len() - i,
    when 0 <= i
{
    if i >= s.len() {
        if depth == 0 {
            Ok(())
        } else {
            Err(CompileError::UnmatchedLoopStart)
        }
    } else if s[i] == '[' {
        bracket_check(s, i + 1, depth + 1)
    } else if s[i] == ']' {
        if depth == 0 {
            Err(CompileError::UnmatchedLoopEnd)
        } else {
            bracket_check(s, i + 1, (depth - 1) as nat)
        }
    } else {
        bracket_check(s, i + 1, depth)
    }
}

/// The brackets of `s` nest properly.
pub open spec fn brackets_balanced(s: Seq<char>) -> bool {
    bracket_check(s, 0, 0) is Ok
}

/// A run of a counted character holds no bracket, so skipping it leaves the
/// bracket scan unchanged.
proof fn lemma_skip_run(s: Seq<char>, i: int, c: char, depth: nat)
    requires
        0 <= i,
        is_counted_char(c),
    ensures
        bracket_check(s, i, depth) == bracket_check(s, i + run_length(s, i, c), depth),
    decreases s.len() - i,
{
    if 0 <= i < s.len() && s[i] == c {
        lemma_skip_run(s, i + 1, c, depth);
    }
}

/// Compiling from any point fails exactly when the bracket scan from that
/// point fails, and with the same error; the open loops count as depth.
proof fn lemma_compile_from_brackets(s: Seq<char>, i: int, out: Seq<OpCode>, pending: Seq<usize>)
    requires
        0 <= i,
    ensures
        match compile_from(s, i, out, pending) {
            Ok(_) => bracket_check(s, i, pending.len()) is Ok,
            Err(e) => bracket_check(s, i, pending.len()) == Err::<(), CompileError>(e),
        },
    decreases s.len() - i,
{
    if i < s.len() {
        let c = s[i];
        if is_counted_char(c) {
            let n = 1 + run_length(s, i + 1, c);
            lemma_run_length_bound(s, i + 1, c);
            lemma_skip_run(s, i, c, pending.len());
            lemma_compile_from_brackets(s, i + n, out.push(counted_op(c, n)), pending);
        } else if c == '.' {
            lemma_compile_from_brackets(s, i + 1, out.push(OpCode::Write), pending);
        } else if c == ',' {
            lemma_compile_from_brackets(s, i + 1, out.push(OpCode::Read), pending);
        } else if c == '[' {
            if is_zero_idiom(s, i) {
                assert(bracket_check(s, i + 1, pending.len() + 1) == bracket_check(s, i + 2, pending.len() + 1));
                assert(bracket_check(s, i + 2, pending.len() + 1) == bracket_check(s, i + 3, pending.len()));
                lemma_compile_from_brackets(s, i + 3, out.push(OpCode::Zero), pending);
            } else {
                lemma_compile_from_brackets(
                    s,
                    i + 1,
                    out.push(OpCode::Jump { destination: 0, direction: Direction::Forward }),
                    pending.push(out.len() as usize),
                );
            }
        } else if c == ']' {
            if pending.len() > 0 {
                let open = pending.last();
                let closed = out.update(
                    open as int,
                    OpCode::Jump { destination: (out.len() + 1) as usize, direction: Direction::Forward },
                );
                lemma_compile_from_brackets(
                    s,
                    i + 1,
                    closed.push(OpCode::Jump { destination: open, direction: Direction::Backward }),
                    pending.drop_last(),
                );
            }
        } else {
            lemma_compile_from_brackets(s, i + 1, out, pending);
        }
    }
}

/// Compilation succeeds exactly on programs whose brackets nest, and fails
/// with the error that the bracket scan meets first.
pub proof fn lemma_compile_fails_iff_unbalanced(s: Seq<char>)
    ensures
        compile_spec(s) is Ok <==> brackets_balanced(s),
        compile_spec(s) is Err ==> compile_spec(s) == Err::<Seq<OpCode>, CompileError>(
            bracket_check(s, 0, 0)->Err_0,
        ),
{
    lemma_compile_from_brackets(s, 0, seq![], seq![]);
}

/// A `]` met with no loop open makes compilation fail, so no program comes out.
pub proof fn lemma_unmatched_loop_end_fails(s: Seq<char>)
    requires
        bracket_check(s, 0, 0) == Err::<(), CompileError>(CompileError::UnmatchedLoopEnd),
    ensures
        compile_spec(s) == Err::<Seq<OpCode>, CompileError>(CompileError::UnmatchedLoopEnd),
{
    lemma_compile_fails_iff_unbalanced(s);
}

/// A `[` still open at the end makes compilation fail, so no program comes out.
pub proof fn lemma_unmatched_loop_start_fails(s: Seq<char>)
    requires
        bracket_check(s, 0, 0) == Err::<(), CompileError>(CompileError::UnmatchedLoopStart),
    ensures
        compile_spec(s) == Err::<Seq<OpCode>, CompileError>(CompileError::UnmatchedLoopStart),
{
    lemma_compile_fails_iff_unbalanced(s);
}

/// A run of `c` that fills `i..j` and stops at `j` has length `j - i`.
pub proof fn lemma_run_length_exact(s: Seq<char>, i: int, j: int, c: char)
    requires
        0 <= i <= j <= s.len(),
        forall|k: int| i <= k < j ==> s[k] == c,
        j == s.len() || s[j] != c,
    ensures
        run_length(s, i, c) == j - i,
    decreases j - i,
{
    if i < j {
        lemma_run_length_exact(s, i + 1, j, c);
    }
}

/// A program made of one counted character repeated `n` times compiles to a
/// single opcode that carries `n`.
pub proof fn lemma_uniform_run_collapses(s: Seq<char>, c: char)
    requires
        is_counted_char(c),
        s.len() > 0,
        forall|k: int| 0 <= k < s.len() ==> s[k] == c,
    ensures
        compile_spec(s) == Ok::<Seq<OpCode>, CompileError>(seq![counted_op(c, s.len())]),
{
    lemma_run_length_exact(s, 1, s.len() as int, c);
    let n = 1 + run_length(s, 1, c);
    assert(n == s.len());
    assert(compile_spec(s) == compile_from(s, n as int, seq![counted_op(c, n)], seq![]));
    assert(seq![].push(counted_op(c, n)) =~= seq![counted_op(c, n)]);
}

/// `[-]` becomes one `Zero` opcode, and the scan goes on three positions later.
pub proof fn lemma_zero_idiom(s: Seq<char>, i: int, out: Seq<OpCode>, pending: Seq<usize>)
    requires
        is_zero_idiom(s, i),
    ensures
        compile_from(s, i, out, pending) == compile_from(s, i + 3, out.push(OpCode::Zero), pending),
{
}

/// If opcode `k` is a forward jump, it lands just past a backward jump that
/// points back at `k`.
pub open spec fn forward_paired(code: Seq<OpCode>, k: int) -> bool {
    match code[k] {
        OpCode::Jump { destination, direction: Direction::Forward } => {
            &&& 2 <= destination <= code.len()
            &&& code[destination - 1] == (OpCode::Jump { destination: k as usize, direction: Direction::Backward })
        },
        _ => true,
    }
}

/// If opcode `k` is a backward jump, it points at an earlier forward jump
/// that lands just past `k`.
pub open spec fn backward_paired(code: Seq<OpCode>, k: int) -> bool {
    match code[k] {
        OpCode::Jump { destination, direction: Direction::Backward } => {
            &&& destination < k
            &&& code[destination as int] == (OpCode::Jump {
                destination: (k + 1) as usize,
                direction: Direction::Forward,
            })
        },
        _ => true,
    }
}

/// Every jump of `code` has its partner.
pub open spec fn jumps_paired(code: Seq<OpCode>) -> bool {
    forall|k: int| 0 <= k < code.len() ==> #[trigger] forward_paired(code, k) && backward_paired(code, k)
}

/// The placeholder that an open loop's forward jump holds until its end is seen.
pub open spec fn open_jump() -> OpCode {
    OpCode::Jump { destination: 0, direction: Direction::Forward }
}

/// The jumps emitted so far pair up, except the open ones listed in `pending`.
pub open spec fn scan_paired(out: Seq<OpCode>, pending: Seq<usize>) -> bool {
    &&& out.len() <= usize::MAX
    &&& forall|j: int| 0 <= j < pending.len() ==> #[trigger] pending[j] < out.len() && out[pending[j] as int] == open_jump()
    &&& forall|j1: int, j2: int| 0 <= j1 < j2 < pending.len() ==> pending[j1] < pending[j2]
    &&& forall|k: int| 0 <= k < out.len() ==> #[trigger] backward_paired(out, k)
    &&& forall|k: int| 0 <= k < out.len() && out[k] != open_jump() ==> #[trigger] forward_paired(out, k)
    &&& forall|k: int| 0 <= k < out.len() && #[trigger] out[k] == open_jump() ==> pending.contains(k as usize)
}

/// Appending an opcode that is no jump keeps the pairing.
proof fn lemma_scan_paired_push(out: Seq<OpCode>, pending: Seq<usize>, op: OpCode)
    requires
        scan_paired(out, pending),
        !(op is Jump),
        out.len() < usize::MAX,
    ensures
        scan_paired(out.push(op), pending),
{
    let out2 = out.push(op);
    assert forall|k: int| 0 <= k < out2.len() implies #[trigger] backward_paired(out2, k) by {
        if k < out.len() {
            assert(backward_paired(out, k));
        }
    }
    assert forall|k: int| 0 <= k < out2.len() && out2[k] != open_jump() implies #[trigger] forward_paired(out2, k) by {
        if k < out.len() {
            assert(forward_paired(out, k));
        }
    }
}

/// Whatever compilation from a paired state yields has all jumps paired.
proof fn lemma_scan_pairs(s: Seq<char>, i: int, out: Seq<OpCode>, pending: Seq<usize>)
    requires
        0 <= i,
        out.len() <= i,
        s.len() <= usize::MAX,
        scan_paired(out, pending),
    ensures
        compile_from(s, i, out, pending) is Ok ==> jumps_paired(compile_from(s, i, out, pending)->Ok_0),
    decreases s.len() - i,
{
    if i >= s.len() {
        if pending.len() == 0 {
            assert forall|k: int| 0 <= k < out.len() implies #[trigger] forward_paired(out, k) && backward_paired(out, k) by {
                if out[k] == open_jump() {
                    assert(pending.contains(k as usize));
                }
            }
        }
        return;
    }
    let c = s[i];
    if is_counted_char(c) {
        let n = 1 + run_length(s, i + 1, c);
        lemma_run_length_bound(s, i + 1, c);
        lemma_scan_paired_push(out, pending, counted_op(c, n));
        lemma_scan_pairs(s, i + n, out.push(counted_op(c, n)), pending);
    } else if c == '.' {
        lemma_scan_paired_push(out, pending, OpCode::Write);
        lemma_scan_pairs(s, i + 1, out.push(OpCode::Write), pending);
    } else if c == ',' {
        lemma_scan_paired_push(out, pending, OpCode::Read);
        lemma_scan_pairs(s, i + 1, out.push(OpCode::Read), pending);
    } else if c == '[' {
        if is_zero_idiom(s, i) {
            lemma_scan_paired_push(out, pending, OpCode::Zero);
            lemma_scan_pairs(s, i + 3, out.push(OpCode::Zero), pending);
        } else {
            let out2 = out.push(open_jump());
            let pending2 = pending.push(out.len() as usize);
            assert forall|k: int| 0 <= k < out2.len() implies #[trigger] backward_paired(out2, k) by {
                if k < out.len() {
                    assert(backward_paired(out, k));
                }
            }
            assert forall|k: int| 0 <= k < out2.len() && out2[k] != open_jump() implies #[trigger] forward_paired(out2, k) by {
                if k < out.len() {
                    assert(forward_paired(out, k));
                }
            }
            assert forall|k: int| 0 <= k < out2.len() && #[trigger] out2[k] == open_jump() implies pending2.contains(k as usize) by {
                if k < out.len() {
                    let j = choose|j: int| 0 <= j < pending.len() && pending[j] == k as usize;
                    assert(pending2[j] == k as usize);
                } else {
                    assert(pending2[pending.len() as int] == k as usize);
                }
            }
            assert forall|j: int| 0 <= j < pending2.len() implies #[trigger] pending2[j] < out2.len() && out2[pending2[j] as int] == open_jump() by {
                if j < pending.len() {
                    assert(pending[j] < out.len());
                }
            }
            lemma_scan_pairs(s, i + 1, out2, pending2);
        }
    } else if c == ']' {
        if pending.len() > 0 {
            let open = pending.last();
            let last = pending.len() - 1;
            let out1 = out.update(
                open as int,
                OpCode::Jump { destination: (out.len() + 1) as usize, direction: Direction::Forward },
            );
            let out2 = out1.push(OpCode::Jump { destination: open, direction: Direction::Backward });
            let pending2 = pending.drop_last();
            assert(pending[last] == open);
            assert(out[open as int] == open_jump());
            assert forall|j: int| 0 <= j < pending2.len() implies #[trigger] pending2[j] < out2.len() && out2[pending2[j] as int] == open_jump() by {
                assert(pending[j] < pending[last]);
                assert(pending[j] < out.len());
            }
            assert forall|k: int| 0 <= k < out2.len() implies #[trigger] backward_paired(out2, k) by {
                if k < out.len() {
                    assert(backward_paired(out, k));
                }
            }
            assert forall|k: int| 0 <= k < out2.len() && out2[k] != open_jump() implies #[trigger] forward_paired(out2, k) by {
                if k < out.len() && k != open {
                    assert(out[k] != open_jump());
                    assert(forward_paired(out, k));
                }
            }
            assert forall|k: int| 0 <= k < out2.len() && #[trigger] out2[k] == open_jump() implies pending2.contains(k as usize) by {
                assert(k < out.len() && k != open);
                assert(out[k] == open_jump());
                assert(pending.contains(k as usize));
                let j = choose|j: int| 0 <= j < pending.len() && pending[j] == k as usize;
                assert(j != last);
                assert(pending2[j] == k as usize);
            }
            lemma_scan_pairs(s, i + 1, out2, pending2);
        }
    } else {
        lemma_scan_pairs(s, i + 1, out, pending);
    }
}

/// In every compiled program, each forward jump lands just past its matching
/// backward jump, and each backward jump points at its matching forward jump.
pub proof fn lemma_compiled_jumps_pair_up(s: Seq<char>)
    requires
        s.len() <= usize::MAX,
    ensures
        compile_spec(s) is Ok ==> jumps_paired(compile_spec(s)->Ok_0),
{
    lemma_scan_pairs(s, 0, seq![], seq![]);
}

impl BFVM {
    /// Compiles `code` into opcodes in one left-to-right scan.
    pub fn compile(code: &Vec<char>) -> (r: Result<Vec<OpCode>, CompileError>)
        ensures
            match r {
                Ok(ops) => compile_spec(code@) == Ok::<Seq<OpCode>, CompileError>(ops@),
                Err(e) => compile_spec(code@) == Err::<Seq<OpCode>, CompileError>(e),
            },
            r is Ok <==> brackets_balanced(code@),
            r matches Err(e) ==> bracket_check(code@, 0, 0) == Err::<(), CompileError>(e),
            r matches Ok(ops) ==> jumps_paired(ops@),
    {
        let ghost s = code@;
        let n = code.len();
        proof {
            lemma_compile_fails_iff_unbalanced(s);
            lemma_compiled_jumps_pair_up(s);
        }
        let mut res: Vec<OpCode> = Vec::new();
        let mut index: usize = 0;
        let mut jumps: Vec<usize> = Vec::new();
        while index < n
            invariant
                s == code@,
                n == s.len(),
                index <= s.len(),
                res.len() <= index,
                forall|k: int| 0 <= k < jumps.len() ==> jumps[k] < res.len(),
                compile_spec(s) == compile_from(s, index as int, res@, jumps@),
                compile_spec(s) is Ok <==> brackets_balanced(s),
                compile_spec(s) is Ok ==> jumps_paired(compile_spec(s)->Ok_0),
                compile_spec(s) is Err ==> compile_spec(s) == Err::<Seq<OpCode>, CompileError>(
                    bracket_check(s, 0, 0)->Err_0,
                ),
            decreases code.len() - index,
        {
            let c = code[index];
            if c == '<' || c == '>' || c == '+' || c == '-' {
                let mut len: usize = 1;
                while index + len < code.len() && code[index + len] == c
                    invariant
                        s == code@,
                        index < s.len(),
                        s[index as int] == c,
                        1 <= len <= s.len() - index,
                        run_length(s, index as int, c) == len + run_length(s, index + len, c),
                    decreases code.len() - index - len,
                {
                    len = len + 1;
                }
                let op = if c == '<' {
                    OpCode::MoveLeft(len)
                } else if c == '>' {
                    OpCode::MoveRight(len)
                } else if c == '+' {
                    OpCode::Increment((len % 256) as u8)
                } else {
                    OpCode::Decrement((len % 256) as u8)
                };
                res.push(op);
                index = index + len;
            } else if c == '.' {
                res.push(OpCode::Write);
                index = index + 1;
            } else if c == ',' {
                res.push(OpCode::Read);
                index = index + 1;
            } else if c == '[' {
                if code.len() - index > 2 && code[index + 1] == '-' && code[index + 2] == ']' {
                    res.push(OpCode::Zero);
                    index = index + 3;
                } else {
                    jumps.push(res.len());
                    res.push(OpCode::Jump { destination: 0, direction: Direction::Forward });
                    index = index + 1;
                }
            } else if c == ']' {
                match jumps.pop() {
                    None => {
                        return Err(CompileError::UnmatchedLoopEnd);
                    },
                    Some(open) => {
                        let after = res.len() + 1;
                        res.set(open, OpCode::Jump { destination: after, direction: Direction::Forward });
                        res.push(OpCode::Jump { destination: open, direction: Direction::Backward });
                        index = index + 1;
                    },
                }
            } else {
                index = index + 1;
            }
        }
        if jumps.len() == 0 {
            Ok(res)
        } else {
            Err(CompileError::UnmatchedLoopStart)
        }
    }
}

} // verus!
