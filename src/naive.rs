use vstd::prelude::*;

use crate::compiler::{
    compile_from, compile_spec, counted_op, is_counted_char, is_zero_idiom, lemma_run_length_bound,
    lemma_run_length_exact, run_length, CompileError,
};
use crate::opcode::{Direction, OpCode};
use crate::vm::{
    after_prefix, fresh_machine, halted, next_input, run_spec, step_spec, wants_input, Machine,
    Outcome, Step,
};

verus! {

/// Compiling without optimizations: every instruction character becomes one
/// opcode of count one, and `[-]` stays a loop.
pub open spec fn naive_from(
    s: Seq<char>,
    i: int,
    out: Seq<OpCode>,
    pending: Seq<usize>,
) -> Result<Seq<OpCode>, CompileError>
    decreases s.len() - i,
    when 0 <= i
{
    if i >= s.len() {
        if pending.len() == 0 {
            Ok(out)
        } else {
            Err(CompileError::UnmatchedLoopStart)
        }
    } else {
        let c = s[i];
        if is_counted_char(c) {
            naive_from(s, i + 1, out.push(counted_op(c, 1)), pending)
        } else if c == '.' {
            naive_from(s, i + 1, out.push(OpCode::Write), pending)
        } else if c == ',' {
            naive_from(s, i + 1, out.push(OpCode::Read), pending)
        } else if c == '[' {
            naive_from(
                s,
                i + 1,
                out.push(OpCode::Jump { destination: 0, direction: Direction::Forward }),
                pending.push(out.len() as usize),
            )
        } else if c == ']' {
            if pending.len() == 0 {
                Err(CompileError::UnmatchedLoopEnd)
            } else {
                let open = pending.last();
                let closed = out.update(
                    open as int,
                    OpCode::Jump { destination: (out.len() + 1) as usize, direction: Direction::Forward },
                );
                naive_from(
                    s,
                    i + 1,
                    closed.push(OpCode::Jump { destination: open, direction: Direction::Backward }),
                    pending.drop_last(),
                )
            }
        } else {
            naive_from(s, i + 1, out, pending)
        }
    }
}

/// The unoptimized intermediate representation of the whole program `s`.
pub open spec fn naive_spec(s: Seq<char>) -> Result<Seq<OpCode>, CompileError> {
    naive_from(s, 0, seq![], seq![])
}

/// Every opcode of `naive` in `a..b` is `op`.
pub open spec fn unit_run(naive: Seq<OpCode>, a: int, b: int, op: OpCode) -> bool {
    forall|j: int| a <= j < b ==> naive[j] == op
}

/// Opcode `k` of `code` stands for the opcodes `m[k]..m[k + 1]` of `naive`.
pub open spec fn op_expands(code: Seq<OpCode>, naive: Seq<OpCode>, m: Seq<int>, k: int) -> bool {
    let a = m[k];
    let b = m[k + 1];
    match code[k] {
        OpCode::Increment(x) => a < b && x as int == (b - a) % 256 && unit_run(
            naive,
            a,
            b,
            OpCode::Increment(1),
        ),
        OpCode::Decrement(x) => a < b && x as int == (b - a) % 256 && unit_run(
            naive,
            a,
            b,
            OpCode::Decrement(1),
        ),
        OpCode::MoveLeft(x) => a < b && x as int == b - a && unit_run(naive, a, b, OpCode::MoveLeft(1)),
        OpCode::MoveRight(x) => a < b && x as int == b - a && unit_run(
            naive,
            a,
            b,
            OpCode::MoveRight(1),
        ),
        OpCode::Zero => {
            &&& b == a + 3
            &&& naive[a] == OpCode::Jump { destination: (a + 3) as usize, direction: Direction::Forward }
            &&& naive[a + 1] == OpCode::Decrement(1)
            &&& naive[a + 2] == OpCode::Jump { destination: a as usize, direction: Direction::Backward }
        },
        OpCode::Read => b == a + 1 && naive[a] == OpCode::Read,
        OpCode::Write => b == a + 1 && naive[a] == OpCode::Write,
        OpCode::Jump { destination, direction } => {
            &&& b == a + 1
            &&& destination <= code.len()
            &&& naive[a] == OpCode::Jump { destination: m[destination as int] as usize, direction }
        },
    }
}

/// `naive` is `code` with every opcode spelled out in unit steps; opcode `k`
/// of `code` starts at index `m[k]` of `naive`.
pub open spec fn expands(code: Seq<OpCode>, naive: Seq<OpCode>, m: Seq<int>) -> bool {
    &&& m.len() == code.len() + 1
    &&& m[0] == 0
    &&& m[code.len() as int] == naive.len()
    &&& naive.len() <= usize::MAX
    &&& forall|k1: int, k2: int| 0 <= k1 < k2 <= code.len() ==> m[k1] < m[k2]
    &&& forall|k: int| 0 <= k < code.len() ==> #[trigger] op_expands(code, naive, m, k)
}

/// An opcode keeps standing for the same unit steps when the programs around
/// it change elsewhere.
proof fn lemma_op_expands_frame(
    code: Seq<OpCode>,
    naive: Seq<OpCode>,
    m: Seq<int>,
    code2: Seq<OpCode>,
    naive2: Seq<OpCode>,
    m2: Seq<int>,
    k: int,
)
    requires
        0 <= k < code.len() <= code2.len(),
        m.len() == code.len() + 1,
        m2.len() >= m.len(),
        op_expands(code, naive, m, k),
        code2[k] == code[k],
        forall|j: int| 0 <= j <= code.len() ==> m2[j] == m[j],
        forall|j: int| m[k] <= j < m[k + 1] ==> naive2[j] == naive[j],
    ensures
        op_expands(code2, naive2, m2, k),
{
    let a = m[k];
    let b = m[k + 1];
    match code[k] {
        OpCode::Increment(x) => {
            assert(unit_run(naive2, a, b, OpCode::Increment(1)));
        },
        OpCode::Decrement(x) => {
            assert(unit_run(naive2, a, b, OpCode::Decrement(1)));
        },
        OpCode::MoveLeft(x) => {
            assert(unit_run(naive2, a, b, OpCode::MoveLeft(1)));
        },
        OpCode::MoveRight(x) => {
            assert(unit_run(naive2, a, b, OpCode::MoveRight(1)));
        },
        OpCode::Zero => {
            assert(naive2[a] == naive[a]);
            assert(naive2[a + 1] == naive[a + 1]);
            assert(naive2[a + 2] == naive[a + 2]);
        },
        OpCode::Read => {
            assert(naive2[a] == naive[a]);
        },
        OpCode::Write => {
            assert(naive2[a] == naive[a]);
        },
        OpCode::Jump { destination, direction } => {
            assert(naive2[a] == naive[a]);
        },
    }
}

/// Appending `tail` to `naive` and a new opcode to `code` keeps every old
/// opcode's expansion.
proof fn lemma_expands_grow(
    code: Seq<OpCode>,
    naive: Seq<OpCode>,
    m: Seq<int>,
    op: OpCode,
    tail: Seq<OpCode>,
)
    requires
        expands(code, naive, m),
        tail.len() > 0,
        naive.len() + tail.len() <= usize::MAX,
        op_expands(code.push(op), naive + tail, m.push((naive.len() + tail.len()) as int), code.len() as int),
    ensures
        expands(code.push(op), naive + tail, m.push((naive.len() + tail.len()) as int)),
{
    let code2 = code.push(op);
    let naive2 = naive + tail;
    let m2 = m.push((naive.len() + tail.len()) as int);
    assert forall|k: int| 0 <= k < code2.len() implies #[trigger] op_expands(code2, naive2, m2, k) by {
        if k < code.len() {
            assert(op_expands(code, naive, m, k));
            assert forall|j: int| m[k] <= j < m[k + 1] implies naive2[j] == naive[j] by {
                assert(m[k + 1] <= m[code.len() as int]);
            }
            lemma_op_expands_frame(code, naive, m, code2, naive2, m2, k);
        }
    }
    assert forall|k1: int, k2: int| 0 <= k1 < k2 <= code2.len() implies m2[k1] < m2[k2] by {
        if k2 == code2.len() {
            assert(m2[k1] <= m[code.len() as int]);
        }
    }
}

/// The naive compiler spells a run of `n` copies of `c` as `n` unit opcodes.
proof fn lemma_naive_run(s: Seq<char>, i: int, n: nat, c: char, out: Seq<OpCode>, pending: Seq<usize>)
    requires
        0 <= i,
        i + n <= s.len(),
        is_counted_char(c),
        forall|k: int| i <= k < i + n ==> s[k] == c,
    ensures
        naive_from(s, i, out, pending) == naive_from(
            s,
            i + n,
            out + Seq::new(n, |j: int| counted_op(c, 1)),
            pending,
        ),
    decreases n,
{
    if n == 0 {
        assert(out + Seq::new(0, |j: int| counted_op(c, 1)) =~= out);
    } else {
        lemma_naive_run(s, i + 1, (n - 1) as nat, c, out.push(counted_op(c, 1)), pending);
        assert(out.push(counted_op(c, 1)) + Seq::new((n - 1) as nat, |j: int| counted_op(c, 1)) =~= out
            + Seq::new(n, |j: int| counted_op(c, 1)));
    }
}

/// The open loops of the two compilers correspond: each pending forward jump
/// of the optimized program is a jump whose unit spelling is the naive one's.
pub open spec fn pending_match(
    out: Seq<OpCode>,
    pending: Seq<usize>,
    npending: Seq<usize>,
    m: Seq<int>,
) -> bool {
    &&& npending.len() == pending.len()
    &&& forall|j: int|
        0 <= j < pending.len() ==> {
            &&& #[trigger] pending[j] < out.len()
            &&& npending[j] as int == m[pending[j] as int]
            &&& out[pending[j] as int] is Jump
        }
}

/// Scanning the same text, the optimized and the naive compiler succeed
/// together, and the optimized program's opcodes expand into the naive ones.
proof fn lemma_naive_tracks(
    s: Seq<char>,
    i: int,
    out: Seq<OpCode>,
    pending: Seq<usize>,
    nout: Seq<OpCode>,
    npending: Seq<usize>,
    m: Seq<int>,
) -> (m2: Seq<int>)
    requires
        0 <= i <= s.len(),
        s.len() <= usize::MAX,
        out.len() <= nout.len() <= i,
        expands(out, nout, m),
        pending_match(out, pending, npending, m),
    ensures
        compile_from(s, i, out, pending) is Ok <==> naive_from(s, i, nout, npending) is Ok,
        compile_from(s, i, out, pending) is Ok ==> expands(
            compile_from(s, i, out, pending)->Ok_0,
            naive_from(s, i, nout, npending)->Ok_0,
            m2,
        ),
    decreases s.len() - i,
{
    if i >= s.len() {
        return m;
    }
    let c = s[i];
    if is_counted_char(c) {
        let n = 1 + run_length(s, i + 1, c);
        lemma_run_length_bound(s, i + 1, c);
        assert forall|k: int| i <= k < i + n implies s[k] == c by {
            lemma_run_in_range(s, i, c, k);
        }
        lemma_naive_run(s, i, n, c, nout, npending);
        let tail = Seq::new(n, |j: int| counted_op(c, 1));
        let op = counted_op(c, n);
        let m1 = m.push((nout.len() + n) as int);
        assert(op_expands(out.push(op), nout + tail, m1, out.len() as int)) by {
            assert(unit_run(nout + tail, nout.len() as int, (nout.len() + n) as int, counted_op(c, 1)));
        }
        lemma_expands_grow(out, nout, m, op, tail);
        assert(pending_match(out.push(op), pending, npending, m1)) by {
            assert forall|j: int| 0 <= j < pending.len() implies out.push(op)[pending[j] as int] is Jump by {
                assert(out[pending[j] as int] is Jump);
            }
        }
        lemma_naive_tracks(s, i + n, out.push(op), pending, nout + tail, npending, m1)
    } else if c == '.' || c == ',' {
        let op = if c == '.' {
            OpCode::Write
        } else {
            OpCode::Read
        };
        let tail = seq![op];
        assert(nout.push(op) =~= nout + tail);
        let m1 = m.push((nout.len() + 1) as int);
        lemma_expands_grow(out, nout, m, op, tail);
        assert(pending_match(out.push(op), pending, npending, m1)) by {
            assert forall|j: int| 0 <= j < pending.len() implies out.push(op)[pending[j] as int] is Jump by {
                assert(out[pending[j] as int] is Jump);
            }
        }
        lemma_naive_tracks(s, i + 1, out.push(op), pending, nout + tail, npending, m1)
    } else if c == '[' {
        let a = nout.len() as int;
        if is_zero_idiom(s, i) {
            let f0 = OpCode::Jump { destination: 0, direction: Direction::Forward };
            let n1 = nout.push(f0);
            let pending1 = npending.push(a as usize);
            assert(naive_from(s, i, nout, npending) == naive_from(s, i + 1, n1, pending1));
            lemma_run_length_exact(s, i + 2, i + 2, '-');
            assert(naive_from(s, i + 1, n1, pending1) == naive_from(s, i + 2, n1.push(OpCode::Decrement(1)), pending1));
            let n2 = n1.push(OpCode::Decrement(1));
            let n3 = n2.update(a, OpCode::Jump { destination: (a + 3) as usize, direction: Direction::Forward }).push(
                OpCode::Jump { destination: a as usize, direction: Direction::Backward },
            );
            assert(pending1.last() == a as usize);
            assert(pending1.drop_last() =~= npending);
            assert(naive_from(s, i + 2, n2, pending1) == naive_from(s, i + 3, n3, npending));
            let tail = seq![
                OpCode::Jump { destination: (a + 3) as usize, direction: Direction::Forward },
                OpCode::Decrement(1),
                OpCode::Jump { destination: a as usize, direction: Direction::Backward },
            ];
            assert(n3 =~= nout + tail);
            let m1 = m.push((nout.len() + 3) as int);
            lemma_expands_grow(out, nout, m, OpCode::Zero, tail);
            assert(pending_match(out.push(OpCode::Zero), pending, npending, m1)) by {
                assert forall|j: int| 0 <= j < pending.len() implies out.push(OpCode::Zero)[pending[j] as int] is Jump by {
                    assert(out[pending[j] as int] is Jump);
                }
            }
            lemma_naive_tracks(s, i + 3, out.push(OpCode::Zero), pending, nout + tail, npending, m1)
        } else {
            let op = OpCode::Jump { destination: 0, direction: Direction::Forward };
            let tail = seq![op];
            assert(nout.push(op) =~= nout + tail);
            let m1 = m.push((nout.len() + 1) as int);
            lemma_expands_grow(out, nout, m, op, tail);
            let q = pending.push(out.len() as usize);
            let nq = npending.push(nout.len() as usize);
            assert(pending_match(out.push(op), q, nq, m1)) by {
                assert forall|j: int| 0 <= j < q.len() implies {
                    &&& q[j] < out.push(op).len()
                    &&& nq[j] as int == m1[q[j] as int]
                    &&& out.push(op)[q[j] as int] is Jump
                } by {
                    if j < pending.len() {
                        assert(out[pending[j] as int] is Jump);
                    }
                }
            }
            lemma_naive_tracks(s, i + 1, out.push(op), q, nout + tail, nq, m1)
        }
    } else if c == ']' {
        if pending.len() == 0 {
            return m;
        }
        let open = pending.last();
        let nopen = npending.last();
        assert(out[open as int] is Jump);
        assert(op_expands(out, nout, m, open as int));
        let closed = out.update(
            open as int,
            OpCode::Jump { destination: (out.len() + 1) as usize, direction: Direction::Forward },
        );
        let out2 = closed.push(OpCode::Jump { destination: open, direction: Direction::Backward });
        let nclosed = nout.update(
            nopen as int,
            OpCode::Jump { destination: (nout.len() + 1) as usize, direction: Direction::Forward },
        );
        let nout2 = nclosed.push(OpCode::Jump { destination: nopen, direction: Direction::Backward });
        let m1 = m.push((nout.len() + 1) as int);
        assert(m[open as int] < m[out.len() as int]);
        assert(m[open as int + 1] == m[open as int] + 1);
        assert(nopen as int == m[open as int]);
        assert(op_expands(out2, nout2, m1, open as int));
        assert(op_expands(out2, nout2, m1, out.len() as int));
        assert forall|k: int| 0 <= k < out2.len() implies #[trigger] op_expands(out2, nout2, m1, k) by {
            if k < out.len() && k != open {
                assert(op_expands(out, nout, m, k));
                assert forall|j: int| m[k] <= j < m[k + 1] implies nout2[j] == nout[j] by {
                    if k < open {
                        assert(m[k + 1] <= m[open as int]);
                    } else {
                        assert(m[open as int + 1] <= m[k]);
                    }
                    assert(m[k + 1] <= m[out.len() as int]);
                }
                lemma_op_expands_frame(out, nout, m, out2, nout2, m1, k);
            }
        }
        assert forall|k1: int, k2: int| 0 <= k1 < k2 <= out2.len() implies m1[k1] < m1[k2] by {
            if k2 == out2.len() {
                assert(m1[k1] <= m[out.len() as int]);
            }
        }
        assert(pending_match(out2, pending.drop_last(), npending.drop_last(), m1)) by {
            assert forall|j: int| 0 <= j < pending.len() - 1 implies out2[pending[j] as int] is Jump by {
                assert(out[pending[j] as int] is Jump);
            }
        }
        lemma_naive_tracks(s, i + 1, out2, pending.drop_last(), nout2, npending.drop_last(), m1)
    } else {
        lemma_naive_tracks(s, i + 1, out, pending, nout, npending, m)
    }
}

/// Inside a run, every character is the run's character.
proof fn lemma_run_in_range(s: Seq<char>, i: int, c: char, k: int)
    requires
        0 <= i <= k < i + run_length(s, i, c),
    ensures
        s[k] == c,
    decreases k - i,
{
    if k > i {
        lemma_run_in_range(s, i + 1, c, k);
    }
}

/// A program compiles with optimizations exactly when it compiles without,
/// and then the optimized opcodes expand into the unoptimized ones.
pub proof fn lemma_compile_expands_naive(s: Seq<char>) -> (m: Seq<int>)
    requires
        s.len() <= usize::MAX,
    ensures
        compile_spec(s) is Ok <==> naive_spec(s) is Ok,
        compile_spec(s) is Ok ==> expands(compile_spec(s)->Ok_0, naive_spec(s)->Ok_0, m),
{
    let m0 = seq![0int];
    assert(expands(seq![], seq![], m0));
    lemma_naive_tracks(s, 0, seq![], seq![], seq![], seq![], m0)
}

/// A step that neither reads, writes nor fails just hands the run on.
proof fn lemma_silent_step(n: Machine, input: Seq<u8>, f: nat)
    requires
        !halted(n),
        !wants_input(n),
        step_spec(n, next_input(input)).1 == Step::Continued,
    ensures
        run_spec(n, input, f + 1) == run_spec(step_spec(n, next_input(input)).0, input, f),
{
    assert(input.skip(0) =~= input);
    let r = run_spec(step_spec(n, next_input(input)).0, input, f);
    assert(Seq::<u8>::empty() + r.1 =~= r.1);
    assert(run_spec(n, input, f + 1) == after_prefix(seq![], 0, r));
}

/// A step that fails ends every run from there in failure, or with no fuel.
proof fn lemma_failing_step(n: Machine, input: Seq<u8>, fuel: nat)
    requires
        !halted(n),
        step_spec(n, next_input(input)).1 is Failed,
    ensures
        run_spec(n, input, fuel).3 != Outcome::Finished,
{
}

/// Adding one, modulo 256, and then `count - 1` more adds `count`.
proof fn lemma_increment_mod(v: int, count: int)
    requires
        0 <= v < 256,
        count >= 1,
    ensures
        (((v + 1) % 256) + (count - 1)) % 256 == (v + count) % 256,
{
    if v == 255 {
        vstd::arithmetic::div_mod::lemma_mod_add_multiples_vanish(count - 1, 256);
    }
}

/// A count stored modulo 256 changes a cell as the full count would.
proof fn lemma_stored_count_mod(c: int, d: int)
    ensures
        (c + d % 256) % 256 == (c + d) % 256,
        (c - d % 256 + 256) % 256 == (c - d) % 256,
{
    vstd::arithmetic::div_mod::lemma_add_mod_noop_right(c, d, 256);
    vstd::arithmetic::div_mod::lemma_mod_add_multiples_vanish(c - d % 256, 256);
    vstd::arithmetic::div_mod::lemma_sub_mod_noop_right(c, d, 256);
}

/// Taking one, modulo 256, and then `count - 1` more takes `count`.
proof fn lemma_decrement_mod(v: int, count: int)
    requires
        0 <= v < 256,
        count >= 1,
    ensures
        (((v - 1 + 256) % 256) - (count - 1)) % 256 == (v - count) % 256,
{
    if v == 0 {
        vstd::arithmetic::div_mod::lemma_mod_add_multiples_vanish(v - count, 256);
    }
}

/// `count` unit increments add `count` to the current cell, modulo 256; with
/// less fuel the run stops among them.
#[verifier::spinoff_prover]
proof fn lemma_unit_increments(n: Machine, count: nat, input: Seq<u8>, fuel: nat)
    requires
        0 <= n.cursor < n.tape.len(),
        0 <= n.ip,
        n.ip + count <= n.code.len(),
        unit_run(n.code, n.ip, n.ip + count, OpCode::Increment(1)),
    ensures
        fuel >= count ==> run_spec(n, input, fuel) == run_spec(
            (Machine {
                tape: n.tape.update(n.cursor, ((n.tape[n.cursor] + count) % 256) as u8),
                ip: n.ip + count,
                ..n
            }),
            input,
            (fuel - count) as nat,
        ),
        fuel < count ==> run_spec(n, input, fuel).3 == Outcome::OutOfFuel,
    decreases count,
{
    let t = Machine {
        tape: n.tape.update(n.cursor, ((n.tape[n.cursor] + count) % 256) as u8),
        ip: n.ip + count,
        ..n
    };
    if count == 0 {
        assert(t.tape =~= n.tape);
        assert(t == n);
    } else if fuel > 0 {
        assert(n.code[n.ip] == OpCode::Increment(1));
        let n1 = step_spec(n, next_input(input)).0;
        lemma_silent_step(n, input, (fuel - 1) as nat);
        lemma_unit_increments(n1, (count - 1) as nat, input, (fuel - 1) as nat);
        let v = n.tape[n.cursor] as int;
        assert(n1.tape[n1.cursor] as int == (v + 1) % 256);
        lemma_increment_mod(v, count as int);
        let t1 = Machine {
            tape: n1.tape.update(n1.cursor, ((n1.tape[n1.cursor] + (count - 1)) % 256) as u8),
            ip: n1.ip + (count - 1),
            ..n1
        };
        assert(t1.tape =~= t.tape);
        assert(t1 == t);
    }
}

/// `count` unit decrements take `count` from the current cell, modulo 256;
/// with less fuel the run stops among them.
#[verifier::spinoff_prover]
proof fn lemma_unit_decrements(n: Machine, count: nat, input: Seq<u8>, fuel: nat)
    requires
        0 <= n.cursor < n.tape.len(),
        0 <= n.ip,
        n.ip + count <= n.code.len(),
        unit_run(n.code, n.ip, n.ip + count, OpCode::Decrement(1)),
    ensures
        fuel >= count ==> run_spec(n, input, fuel) == run_spec(
            (Machine {
                tape: n.tape.update(n.cursor, ((n.tape[n.cursor] - count) % 256) as u8),
                ip: n.ip + count,
                ..n
            }),
            input,
            (fuel - count) as nat,
        ),
        fuel < count ==> run_spec(n, input, fuel).3 == Outcome::OutOfFuel,
    decreases count,
{
    let t = Machine {
        tape: n.tape.update(n.cursor, ((n.tape[n.cursor] - count) % 256) as u8),
        ip: n.ip + count,
        ..n
    };
    if count == 0 {
        assert(t.tape =~= n.tape);
        assert(t == n);
    } else if fuel > 0 {
        assert(n.code[n.ip] == OpCode::Decrement(1));
        let n1 = step_spec(n, next_input(input)).0;
        lemma_silent_step(n, input, (fuel - 1) as nat);
        lemma_unit_decrements(n1, (count - 1) as nat, input, (fuel - 1) as nat);
        let v = n.tape[n.cursor] as int;
        assert(n1.tape[n1.cursor] as int == (v - 1 + 256) % 256);
        lemma_decrement_mod(v, count as int);
        let t1 = Machine {
            tape: n1.tape.update(n1.cursor, ((n1.tape[n1.cursor] - (count - 1)) % 256) as u8),
            ip: n1.ip + (count - 1),
            ..n1
        };
        assert(t1.tape =~= t.tape);
        assert(t1 == t);
    }
}

/// `count` unit moves right move the cursor by `count` while they stay on
/// the tape; one that would leave it ends the run in failure.
proof fn lemma_unit_moves_right(n: Machine, count: nat, input: Seq<u8>, fuel: nat)
    requires
        0 <= n.cursor,
        0 <= n.ip,
        n.ip + count <= n.code.len(),
        unit_run(n.code, n.ip, n.ip + count, OpCode::MoveRight(1)),
    ensures
        n.cursor + count < n.tape.len() && fuel >= count ==> run_spec(n, input, fuel) == run_spec(
            (Machine { cursor: n.cursor + count, ip: n.ip + count, ..n }),
            input,
            (fuel - count) as nat,
        ),
        n.cursor + count < n.tape.len() && fuel < count ==> run_spec(n, input, fuel).3
            == Outcome::OutOfFuel,
        count > 0 && n.cursor + count >= n.tape.len() ==> run_spec(n, input, fuel).3
            != Outcome::Finished,
    decreases count,
{
    if count > 0 && fuel > 0 {
        assert(n.code[n.ip] == OpCode::MoveRight(1));
        if n.cursor + 1 >= n.tape.len() {
            lemma_failing_step(n, input, fuel);
        } else {
            let n1 = step_spec(n, next_input(input)).0;
            lemma_silent_step(n, input, (fuel - 1) as nat);
            lemma_unit_moves_right(n1, (count - 1) as nat, input, (fuel - 1) as nat);
        }
    }
}

/// `count` unit moves left move the cursor by `count` while they stay on
/// the tape; one that would leave it ends the run in failure.
proof fn lemma_unit_moves_left(n: Machine, count: nat, input: Seq<u8>, fuel: nat)
    requires
        0 <= n.cursor,
        0 <= n.ip,
        n.ip + count <= n.code.len(),
        unit_run(n.code, n.ip, n.ip + count, OpCode::MoveLeft(1)),
    ensures
        count <= n.cursor && fuel >= count ==> run_spec(n, input, fuel) == run_spec(
            (Machine { cursor: n.cursor - count, ip: n.ip + count, ..n }),
            input,
            (fuel - count) as nat,
        ),
        count <= n.cursor && fuel < count ==> run_spec(n, input, fuel).3 == Outcome::OutOfFuel,
        count > n.cursor ==> run_spec(n, input, fuel).3 != Outcome::Finished,
    decreases count,
{
    if count > 0 && fuel > 0 {
        assert(n.code[n.ip] == OpCode::MoveLeft(1));
        if n.cursor < 1 {
            lemma_failing_step(n, input, fuel);
        } else {
            let n1 = step_spec(n, next_input(input)).0;
            lemma_silent_step(n, input, (fuel - 1) as nat);
            lemma_unit_moves_left(n1, (count - 1) as nat, input, (fuel - 1) as nat);
        }
    }
}

/// How many unit steps the loop `[-]` takes on a cell holding `v`.
pub open spec fn zero_loop_steps(v: int) -> nat {
    if v <= 0 {
        1
    } else {
        (3 * v) as nat
    }
}

/// The loop `[-]` clears the current cell and leaves past its end; with less
/// fuel the run stops inside it.
#[verifier::spinoff_prover]
proof fn lemma_zero_loop(n: Machine, input: Seq<u8>, fuel: nat)
    requires
        0 <= n.cursor < n.tape.len(),
        0 <= n.ip,
        n.ip + 3 <= n.code.len(),
        n.ip + 3 <= usize::MAX,
        n.code[n.ip] == (OpCode::Jump { destination: (n.ip + 3) as usize, direction: Direction::Forward }),
        n.code[n.ip + 1] == OpCode::Decrement(1),
        n.code[n.ip + 2] == (OpCode::Jump { destination: n.ip as usize, direction: Direction::Backward }),
    ensures
        fuel >= zero_loop_steps(n.tape[n.cursor] as int) ==> run_spec(n, input, fuel) == run_spec(
            (Machine { tape: n.tape.update(n.cursor, 0), ip: n.ip + 3, ..n }),
            input,
            (fuel - zero_loop_steps(n.tape[n.cursor] as int)) as nat,
        ),
        fuel < zero_loop_steps(n.tape[n.cursor] as int) ==> run_spec(n, input, fuel).3
            == Outcome::OutOfFuel,
    decreases n.tape[n.cursor],
{
    let v = n.tape[n.cursor];
    let t = Machine { tape: n.tape.update(n.cursor, 0), ip: n.ip + 3, ..n };
    if fuel == 0 {
    } else if v == 0 {
        lemma_silent_step(n, input, (fuel - 1) as nat);
        assert(t.tape =~= n.tape);
        assert(step_spec(n, next_input(input)).0 == t);
    } else {
        let n1 = step_spec(n, next_input(input)).0;
        let n2 = step_spec(n1, next_input(input)).0;
        let n3 = step_spec(n2, next_input(input)).0;
        assert(n2.tape[n2.cursor] == v - 1);
        lemma_silent_step(n, input, (fuel - 1) as nat);
        if fuel >= 2 {
            lemma_silent_step(n1, input, (fuel - 2) as nat);
            if fuel >= 3 {
                lemma_silent_step(n2, input, (fuel - 3) as nat);
                if v == 1 {
                    assert(n3.tape =~= t.tape);
                    assert(n3 == t);
                } else {
                    lemma_zero_loop(n3, input, (fuel - 3) as nat);
                    assert(n3.tape.update(n3.cursor, 0) =~= t.tape);
                }
            }
        }
    }
}

/// The optimized machine `mc` and the naive machine `mn` stand at matching
/// points: same tape and cursor, and `mn` at the first unit step of the
/// opcode that `mc` is about to run.
pub open spec fn corresponds(mc: Machine, mn: Machine, m: Seq<int>) -> bool {
    &&& expands(mc.code, mn.code, m)
    &&& 0 <= mc.ip <= mc.code.len()
    &&& mn.ip == m[mc.ip]
    &&& mn.tape == mc.tape
    &&& mn.cursor == mc.cursor
    &&& 0 <= mc.cursor
}

/// The naive machine that matches the optimized machine `mc2`, on the naive
/// program of `mn`.
pub open spec fn matched_after(mc2: Machine, mn: Machine, m: Seq<int>) -> Machine {
    Machine { tape: mc2.tape, cursor: mc2.cursor, ip: m[mc2.ip], code: mn.code }
}

/// What one step writes: the byte of a `Write`, else nothing.
pub open spec fn emitted(st: Step) -> Seq<u8> {
    match st {
        Step::Emitted(b) => seq![b],
        _ => seq![],
    }
}

/// How many input bytes one step from `mc` reads.
pub open spec fn bytes_read(mc: Machine) -> nat {
    if wants_input(mc) {
        1
    } else {
        0
    }
}

/// How many unit steps of `mn` the next opcode of `mc` stands for.
pub open spec fn bridge_steps(mc: Machine, mn: Machine, m: Seq<int>) -> nat {
    match mc.code[mc.ip] {
        OpCode::Zero => zero_loop_steps(mn.tape[mn.cursor] as int),
        OpCode::Read => 1,
        OpCode::Write => 1,
        OpCode::Jump { .. } => 1,
        _ => (m[mc.ip + 1] - m[mc.ip]) as nat,
    }
}

/// A run with nothing written or read before it.
proof fn lemma_after_nothing(r: (Machine, Seq<u8>, nat, Outcome))
    ensures
        after_prefix(seq![], 0, r) == r,
{
    assert(Seq::<u8>::empty() + r.1 =~= r.1);
}

/// The optimized machine's step keeps the correspondence.
proof fn lemma_step_corresponds(mc: Machine, mn: Machine, m: Seq<int>, input: Seq<u8>)
    requires
        corresponds(mc, mn, m),
        !halted(mc),
        !(step_spec(mc, next_input(input)).1 is Failed),
    ensures
        corresponds(
            step_spec(mc, next_input(input)).0,
            matched_after(step_spec(mc, next_input(input)).0, mn, m),
            m,
        ),
{
    assert(op_expands(mc.code, mn.code, m, mc.ip));
}

/// With `fuel` for the naive machine, a run from `mn` is the unit steps of
/// the next opcode of `mc` followed by a run from the matching machine; with
/// less fuel than those steps it stops among them.
pub open spec fn bridged(mc: Machine, mn: Machine, m: Seq<int>, input: Seq<u8>, fuel: nat) -> bool {
    let k = bridge_steps(mc, mn, m);
    &&& fuel >= k ==> run_spec(mn, input, fuel) == after_prefix(
        emitted(step_spec(mc, next_input(input)).1),
        bytes_read(mc),
        run_spec(
            matched_after(step_spec(mc, next_input(input)).0, mn, m),
            input.skip(bytes_read(mc) as int),
            (fuel - k) as nat,
        ),
    )
    &&& fuel < k ==> run_spec(mn, input, fuel).3 == Outcome::OutOfFuel
}

/// The facts about opcode `mc.ip` that every bridge needs.
pub open spec fn bridge_ready(mc: Machine, mn: Machine, m: Seq<int>, input: Seq<u8>) -> bool {
    &&& corresponds(mc, mn, m)
    &&& !halted(mc)
    &&& op_expands(mc.code, mn.code, m, mc.ip)
    &&& 0 <= m[mc.ip] < m[mc.ip + 1] <= mn.code.len()
    &&& input.skip(0) == input
}

#[verifier::spinoff_prover]
proof fn lemma_bridge_increment(mc: Machine, mn: Machine, m: Seq<int>, input: Seq<u8>, fuel: nat)
    requires
        bridge_ready(mc, mn, m, input),
        !(step_spec(mc, next_input(input)).1 is Failed),
        mc.code[mc.ip] is Increment,
    ensures
        bridged(mc, mn, m, input, fuel),
{
    let a = m[mc.ip];
    let b = m[mc.ip + 1];
    let mc2 = step_spec(mc, next_input(input)).0;
    lemma_unit_increments(mn, (b - a) as nat, input, fuel);
    lemma_stored_count_mod(mn.tape[mn.cursor] as int, b - a);
    assert(mn.tape.update(mn.cursor, ((mn.tape[mn.cursor] + (b - a)) % 256) as u8) =~= mc2.tape);
    lemma_after_nothing(run_spec(matched_after(mc2, mn, m), input, (fuel - (b - a)) as nat));
}

#[verifier::spinoff_prover]
proof fn lemma_bridge_decrement(mc: Machine, mn: Machine, m: Seq<int>, input: Seq<u8>, fuel: nat)
    requires
        bridge_ready(mc, mn, m, input),
        !(step_spec(mc, next_input(input)).1 is Failed),
        mc.code[mc.ip] is Decrement,
    ensures
        bridged(mc, mn, m, input, fuel),
{
    let a = m[mc.ip];
    let b = m[mc.ip + 1];
    let mc2 = step_spec(mc, next_input(input)).0;
    lemma_unit_decrements(mn, (b - a) as nat, input, fuel);
    lemma_stored_count_mod(mn.tape[mn.cursor] as int, b - a);
    assert(mn.tape.update(mn.cursor, ((mn.tape[mn.cursor] - (b - a)) % 256) as u8) =~= mc2.tape);
    lemma_after_nothing(run_spec(matched_after(mc2, mn, m), input, (fuel - (b - a)) as nat));
}

#[verifier::spinoff_prover]
proof fn lemma_bridge_move(mc: Machine, mn: Machine, m: Seq<int>, input: Seq<u8>, fuel: nat)
    requires
        bridge_ready(mc, mn, m, input),
        !(step_spec(mc, next_input(input)).1 is Failed),
        mc.code[mc.ip] is MoveLeft || mc.code[mc.ip] is MoveRight,
    ensures
        bridged(mc, mn, m, input, fuel),
{
    let a = m[mc.ip];
    let b = m[mc.ip + 1];
    let mc2 = step_spec(mc, next_input(input)).0;
    if mc.code[mc.ip] is MoveLeft {
        lemma_unit_moves_left(mn, (b - a) as nat, input, fuel);
    } else {
        lemma_unit_moves_right(mn, (b - a) as nat, input, fuel);
    }
    lemma_after_nothing(run_spec(matched_after(mc2, mn, m), input, (fuel - (b - a)) as nat));
}

#[verifier::spinoff_prover]
proof fn lemma_bridge_zero(mc: Machine, mn: Machine, m: Seq<int>, input: Seq<u8>, fuel: nat)
    requires
        bridge_ready(mc, mn, m, input),
        !(step_spec(mc, next_input(input)).1 is Failed),
        mc.code[mc.ip] is Zero,
    ensures
        bridged(mc, mn, m, input, fuel),
{
    let mc2 = step_spec(mc, next_input(input)).0;
    lemma_zero_loop(mn, input, fuel);
    assert(mn.tape.update(mn.cursor, 0) =~= mc2.tape);
    lemma_after_nothing(
        run_spec(
            matched_after(mc2, mn, m),
            input,
            (fuel - zero_loop_steps(mn.tape[mn.cursor] as int)) as nat,
        ),
    );
}

#[verifier::spinoff_prover]
proof fn lemma_bridge_single(mc: Machine, mn: Machine, m: Seq<int>, input: Seq<u8>, fuel: nat)
    requires
        bridge_ready(mc, mn, m, input),
        !(step_spec(mc, next_input(input)).1 is Failed),
        mc.code[mc.ip] is Read || mc.code[mc.ip] is Write || mc.code[mc.ip] is Jump,
    ensures
        bridged(mc, mn, m, input, fuel),
{
    let (mc2, st) = step_spec(mc, next_input(input));
    let mn2 = matched_after(mc2, mn, m);
    assert(step_spec(mn, next_input(input)) == (mn2, st));
}

/// Where the optimized machine's step fails, the naive machine fails too
/// before it gets past that opcode.
#[verifier::spinoff_prover]
proof fn lemma_bridge_failure(mc: Machine, mn: Machine, m: Seq<int>, input: Seq<u8>, fuel: nat)
    requires
        bridge_ready(mc, mn, m, input),
        step_spec(mc, next_input(input)).1 is Failed,
    ensures
        run_spec(mn, input, fuel).3 != Outcome::Finished,
{
    let a = m[mc.ip];
    let b = m[mc.ip + 1];
    match mc.code[mc.ip] {
        OpCode::MoveLeft(_) => {
            lemma_unit_moves_left(mn, (b - a) as nat, input, fuel);
        },
        OpCode::MoveRight(_) => {
            lemma_unit_moves_right(mn, (b - a) as nat, input, fuel);
        },
        _ => {
            assert(step_spec(mn, next_input(input)).1 is Failed);
            lemma_failing_step(mn, input, fuel);
        },
    }
}

/// One step of the optimized machine is matched by a number of steps of the
/// naive one, which write and read the same.
proof fn lemma_step_bridge(mc: Machine, mn: Machine, m: Seq<int>, input: Seq<u8>, fuel: nat)
    requires
        corresponds(mc, mn, m),
        !halted(mc),
    ensures
        !(step_spec(mc, next_input(input)).1 is Failed) ==> bridged(mc, mn, m, input, fuel),
        step_spec(mc, next_input(input)).1 is Failed ==> run_spec(mn, input, fuel).3
            != Outcome::Finished,
{
    assert(op_expands(mc.code, mn.code, m, mc.ip));
    assert(m[mc.ip + 1] <= m[mc.code.len() as int]);
    assert(0 <= m[0] <= m[mc.ip]);
    assert(input.skip(0) =~= input);
    assert(bridge_ready(mc, mn, m, input));
    if step_spec(mc, next_input(input)).1 is Failed {
        lemma_bridge_failure(mc, mn, m, input, fuel);
    } else {
        match mc.code[mc.ip] {
            OpCode::Increment(_) => lemma_bridge_increment(mc, mn, m, input, fuel),
            OpCode::Decrement(_) => lemma_bridge_decrement(mc, mn, m, input, fuel),
            OpCode::MoveLeft(_) => lemma_bridge_move(mc, mn, m, input, fuel),
            OpCode::MoveRight(_) => lemma_bridge_move(mc, mn, m, input, fuel),
            OpCode::Zero => lemma_bridge_zero(mc, mn, m, input, fuel),
            _ => lemma_bridge_single(mc, mn, m, input, fuel),
        }
    }
}

/// The two machines end a run alike: same output, same input read, both
/// finished, same tape.
pub open spec fn ends_alike(
    r: (Machine, Seq<u8>, nat, Outcome),
    q: (Machine, Seq<u8>, nat, Outcome),
) -> bool {
    &&& q.1 == r.1
    &&& q.2 == r.2
    &&& q.3 == Outcome::Finished
    &&& r.3 == Outcome::Finished
    &&& q.0.tape == r.0.tape
}

/// Whatever a finished run of the optimized machine does, the naive machine
/// does too, given enough steps.
proof fn lemma_simulate(mc: Machine, mn: Machine, m: Seq<int>, input: Seq<u8>, fuel: nat) -> (naive_fuel: nat)
    requires
        corresponds(mc, mn, m),
        run_spec(mc, input, fuel).3 == Outcome::Finished,
    ensures
        ends_alike(run_spec(mc, input, fuel), run_spec(mn, input, naive_fuel)),
    decreases fuel,
{
    if halted(mc) {
        return 0;
    }
    let (mc2, st) = step_spec(mc, next_input(input));
    let used = bytes_read(mc);
    let rest = input.skip(used as int);
    let mn2 = matched_after(mc2, mn, m);
    lemma_step_corresponds(mc, mn, m, input);
    assert(run_spec(mc, input, fuel) == after_prefix(emitted(st), used, run_spec(mc2, rest, (fuel - 1) as nat)));
    let f = lemma_simulate(mc2, mn2, m, rest, (fuel - 1) as nat);
    let k = bridge_steps(mc, mn, m);
    lemma_step_bridge(mc, mn, m, input, k + f);
    k + f
}

/// Whatever a finished run of the naive machine does, the optimized machine
/// does too, given enough steps.
proof fn lemma_simulate_back(mc: Machine, mn: Machine, m: Seq<int>, input: Seq<u8>, fuel: nat) -> (opt_fuel: nat)
    requires
        corresponds(mc, mn, m),
        run_spec(mn, input, fuel).3 == Outcome::Finished,
    ensures
        ends_alike(run_spec(mn, input, fuel), run_spec(mc, input, opt_fuel)),
    decreases fuel,
{
    if halted(mc) || halted(mn) {
        if mc.ip < mc.code.len() {
            assert(m[mc.ip] < m[mc.code.len() as int]);
        }
        return 0;
    }
    let (mc2, st) = step_spec(mc, next_input(input));
    lemma_step_bridge(mc, mn, m, input, fuel);
    let used = bytes_read(mc);
    let rest = input.skip(used as int);
    let mn2 = matched_after(mc2, mn, m);
    let k = bridge_steps(mc, mn, m);
    lemma_step_corresponds(mc, mn, m, input);
    assert(k >= 1) by {
        assert(op_expands(mc.code, mn.code, m, mc.ip));
    }
    let f = lemma_simulate_back(mc2, mn2, m, rest, (fuel - k) as nat);
    assert(run_spec(mc, input, f + 1) == after_prefix(emitted(st), used, run_spec(mc2, rest, f)));
    f + 1
}

/// Collapsing runs and replacing `[-]` by `Zero` change nothing a program
/// does. The program compiled without optimizations (one opcode per
/// instruction character, `[-]` kept as a loop) runs to its end on some
/// input exactly when the optimized one does, and then both write the same
/// bytes, read the same number of bytes and leave the same tape.
pub proof fn lemma_optimizations_preserve_behaviour(s: Seq<char>, tape_len: nat, input: Seq<u8>)
    requires
        s.len() <= usize::MAX,
        compile_spec(s) is Ok,
    ensures
        naive_spec(s) is Ok,
        forall|fuel: nat|
            #![trigger run_spec(fresh_machine(compile_spec(s)->Ok_0, tape_len), input, fuel)]
            run_spec(fresh_machine(compile_spec(s)->Ok_0, tape_len), input, fuel).3 == Outcome::Finished
                ==> exists|naive_fuel: nat|
                ends_alike(
                    run_spec(fresh_machine(compile_spec(s)->Ok_0, tape_len), input, fuel),
                    #[trigger] run_spec(fresh_machine(naive_spec(s)->Ok_0, tape_len), input, naive_fuel),
                ),
        forall|naive_fuel: nat|
            #![trigger run_spec(fresh_machine(naive_spec(s)->Ok_0, tape_len), input, naive_fuel)]
            run_spec(fresh_machine(naive_spec(s)->Ok_0, tape_len), input, naive_fuel).3 == Outcome::Finished
                ==> exists|fuel: nat|
                ends_alike(
                    run_spec(fresh_machine(naive_spec(s)->Ok_0, tape_len), input, naive_fuel),
                    #[trigger] run_spec(fresh_machine(compile_spec(s)->Ok_0, tape_len), input, fuel),
                ),
{
    let m = lemma_compile_expands_naive(s);
    let mc = fresh_machine(compile_spec(s)->Ok_0, tape_len);
    let mn = fresh_machine(naive_spec(s)->Ok_0, tape_len);
    assert(corresponds(mc, mn, m));
    assert forall|fuel: nat| run_spec(mc, input, fuel).3 == Outcome::Finished implies exists|naive_fuel: nat|
        ends_alike(run_spec(mc, input, fuel), #[trigger] run_spec(mn, input, naive_fuel)) by {
        let naive_fuel = lemma_simulate(mc, mn, m, input, fuel);
    }
    assert forall|naive_fuel: nat| run_spec(mn, input, naive_fuel).3 == Outcome::Finished implies exists|fuel: nat|
        ends_alike(run_spec(mn, input, naive_fuel), #[trigger] run_spec(mc, input, fuel)) by {
        let fuel = lemma_simulate_back(mc, mn, m, input, naive_fuel);
    }
}

} // verus!
