use bfvm::compiler::CompileError;
use bfvm::opcode::OpCode;
use bfvm::vm::{Outcome, RunError, Step, BFVM, TAPE_LEN};

const FUEL: usize = 1_000_000;

#[test]
fn nested_loop_program_writes_sixteen() {
    let mut vm = BFVM::new("++++[>++++<-]>.").unwrap();
    let report = vm.run(&vec![], FUEL);
    assert_eq!(report.output, vec![16u8]);
    assert_eq!(report.outcome, Outcome::Finished);
    assert_eq!(vm.memory[0], 0);
    assert_eq!(vm.memory[1], 16);
    assert_eq!(vm.mem_pointer, 1);
}

#[test]
fn zero_idiom_clears_without_looping() {
    let mut vm = BFVM::new("+[-]").unwrap();
    assert_eq!(vm.code, vec![OpCode::Increment(1), OpCode::Zero]);
    let report = vm.run(&vec![], 2);
    assert_eq!(report.outcome, Outcome::Finished);
    assert_eq!(vm.memory[0], 0);
}

#[test]
fn increments_then_write_emit_count() {
    for n in [0usize, 1, 7, 255, 256, 300] {
        let mut src: String = std::iter::repeat('+').take(n).collect();
        src.push('.');
        let mut vm = BFVM::new(&src).unwrap();
        let report = vm.run(&vec![], FUEL);
        assert_eq!(report.output, vec![(n % 256) as u8]);
    }
}

#[test]
fn decrement_of_zero_wraps_to_255() {
    let mut vm = BFVM::new("-.").unwrap();
    let report = vm.run(&vec![], FUEL);
    assert_eq!(report.output, vec![255u8]);
}

#[test]
fn compile_errors_prevent_a_machine() {
    assert!(matches!(BFVM::new("]"), Err(CompileError::UnmatchedLoopEnd)));
    assert!(matches!(BFVM::new("["), Err(CompileError::UnmatchedLoopStart)));
}

#[test]
fn new_machine_has_default_tape() {
    let vm = BFVM::new("").unwrap();
    assert_eq!(vm.memory.len(), TAPE_LEN);
    assert_eq!(TAPE_LEN, 300000);
    assert!(vm.memory.iter().all(|c| *c == 0));
    assert_eq!(vm.mem_pointer, 0);
    assert_eq!(vm.code_pointer, 0);
}

#[test]
fn read_copies_input_to_output() {
    let mut vm = BFVM::with_tape_len(",.,+.", 4).unwrap();
    let report = vm.run(&vec![65u8, 255u8], FUEL);
    assert_eq!(report.output, vec![65u8, 0u8]);
    assert_eq!(report.consumed, 2);
    assert_eq!(report.outcome, Outcome::Finished);
}

#[test]
fn exhausted_input_is_fatal() {
    let mut vm = BFVM::with_tape_len(".,.", 4).unwrap();
    let report = vm.run(&vec![], FUEL);
    assert_eq!(report.output, vec![0u8]);
    assert_eq!(report.outcome, Outcome::Failed(RunError::InputExhausted));
    assert_eq!(vm.code_pointer, 1);
}

#[test]
fn moving_left_of_the_tape_is_fatal() {
    let mut vm = BFVM::with_tape_len("+<", 4).unwrap();
    let report = vm.run(&vec![], FUEL);
    assert_eq!(report.outcome, Outcome::Failed(RunError::CursorOutOfBounds));
    assert_eq!(vm.mem_pointer, 0);
    assert_eq!(vm.code_pointer, 1);
}

#[test]
fn moving_right_off_the_tape_is_fatal() {
    let mut vm = BFVM::with_tape_len(">>>.>", 4).unwrap();
    let report = vm.run(&vec![], FUEL);
    assert_eq!(report.output, vec![0u8]);
    assert_eq!(report.outcome, Outcome::Failed(RunError::CursorOutOfBounds));
    assert_eq!(vm.mem_pointer, 3);
}

#[test]
fn endless_loop_runs_out_of_fuel() {
    let mut vm = BFVM::with_tape_len("+[]", 1).unwrap();
    let report = vm.run(&vec![], 100);
    assert_eq!(report.outcome, Outcome::OutOfFuel);
}

#[test]
fn stepping_reports_each_action() {
    let mut vm = BFVM::with_tape_len("+.,", 2).unwrap();
    assert!(!vm.needs_input());
    assert_eq!(vm.step(None), Step::Continued);
    assert_eq!(vm.step(None), Step::Emitted(1));
    assert!(vm.needs_input());
    assert_eq!(vm.step(None), Step::Failed(RunError::InputExhausted));
    assert_eq!(vm.step(Some(9)), Step::Continued);
    assert_eq!(vm.memory[0], 9);
    assert_eq!(vm.step(None), Step::Halted);
}

#[test]
fn hello_world_program() {
    let src = "++++++++[>++++[>++>+++>+++>+<<<<-]>+>+>->>+[<]<-]>>.>---.+++++++..+++.>>.<-.<.+++.------.--------.>>+.>++.";
    let mut vm = BFVM::new(src).unwrap();
    let report = vm.run(&vec![], FUEL);
    assert_eq!(report.outcome, Outcome::Finished);
    assert_eq!(String::from_utf8(report.output).unwrap(), "Hello World!\n");
}
