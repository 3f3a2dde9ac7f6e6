use bfvm::compiler::CompileError;
use bfvm::opcode::{Direction, OpCode};
use bfvm::vm::BFVM;

fn chars(s: &str) -> Vec<char> {
    s.chars().collect()
}

#[test]
fn run_of_moves_collapses() {
    assert_eq!(BFVM::compile(&chars(">>>>>")), Ok(vec![OpCode::MoveRight(5)]));
    assert_eq!(BFVM::compile(&chars("<<")), Ok(vec![OpCode::MoveLeft(2)]));
}

#[test]
fn run_of_increments_collapses() {
    assert_eq!(BFVM::compile(&chars("+++")), Ok(vec![OpCode::Increment(3)]));
    assert_eq!(BFVM::compile(&chars("----")), Ok(vec![OpCode::Decrement(4)]));
}

#[test]
fn increment_count_wraps_modulo_256() {
    let src: String = std::iter::repeat('+').take(300).collect();
    assert_eq!(BFVM::compile(&chars(&src)), Ok(vec![OpCode::Increment(44)]));
}

#[test]
fn long_move_count_is_kept_whole() {
    let src: String = std::iter::repeat('>').take(1000).collect();
    assert_eq!(BFVM::compile(&chars(&src)), Ok(vec![OpCode::MoveRight(1000)]));
}

#[test]
fn different_characters_do_not_merge() {
    assert_eq!(
        BFVM::compile(&chars("+-+")),
        Ok(vec![OpCode::Increment(1), OpCode::Decrement(1), OpCode::Increment(1)])
    );
}

#[test]
fn read_and_write_never_collapse() {
    assert_eq!(
        BFVM::compile(&chars("..,,")),
        Ok(vec![OpCode::Write, OpCode::Write, OpCode::Read, OpCode::Read])
    );
}

#[test]
fn zero_idiom_becomes_one_opcode() {
    assert_eq!(BFVM::compile(&chars("[-]")), Ok(vec![OpCode::Zero]));
    assert_eq!(BFVM::compile(&chars("+[-]")), Ok(vec![OpCode::Increment(1), OpCode::Zero]));
}

#[test]
fn zero_idiom_needs_exactly_one_decrement() {
    assert_eq!(
        BFVM::compile(&chars("[--]")),
        Ok(vec![
            OpCode::Jump { destination: 3, direction: Direction::Forward },
            OpCode::Decrement(2),
            OpCode::Jump { destination: 0, direction: Direction::Backward },
        ])
    );
}

#[test]
fn loop_jumps_are_resolved() {
    assert_eq!(
        BFVM::compile(&chars("++++[>++++<-]>.")),
        Ok(vec![
            OpCode::Increment(4),
            OpCode::Jump { destination: 7, direction: Direction::Forward },
            OpCode::MoveRight(1),
            OpCode::Increment(4),
            OpCode::MoveLeft(1),
            OpCode::Decrement(1),
            OpCode::Jump { destination: 1, direction: Direction::Backward },
            OpCode::MoveRight(1),
            OpCode::Write,
        ])
    );
}

#[test]
fn nested_loops_pair_innermost_first() {
    assert_eq!(
        BFVM::compile(&chars("[[.]]")),
        Ok(vec![
            OpCode::Jump { destination: 5, direction: Direction::Forward },
            OpCode::Jump { destination: 4, direction: Direction::Forward },
            OpCode::Write,
            OpCode::Jump { destination: 1, direction: Direction::Backward },
            OpCode::Jump { destination: 0, direction: Direction::Backward },
        ])
    );
}

#[test]
fn comments_are_skipped() {
    assert_eq!(BFVM::compile(&chars("a + b\n")), Ok(vec![OpCode::Increment(1)]));
    assert_eq!(BFVM::compile(&chars("")), Ok(vec![]));
}

#[test]
fn unmatched_loop_end_fails() {
    assert_eq!(BFVM::compile(&chars("]")), Err(CompileError::UnmatchedLoopEnd));
    assert_eq!(BFVM::compile(&chars("[.]].")), Err(CompileError::UnmatchedLoopEnd));
}

#[test]
fn unmatched_loop_start_fails() {
    assert_eq!(BFVM::compile(&chars("[")), Err(CompileError::UnmatchedLoopStart));
    assert_eq!(BFVM::compile(&chars("[[.]")), Err(CompileError::UnmatchedLoopStart));
}
