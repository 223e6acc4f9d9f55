use bf_interpreter::interpreter::{BfError, Interpreter};
use bf_interpreter::machine::{low_byte_of, Action};
use bf_interpreter::program::Instruction;

const PLENTY: usize = 1_000_000;

#[test]
fn new_interpreter_has_a_zeroed_tape() {
    let interpreter = Interpreter::<i32>::new(5);
    assert_eq!(interpreter.cells(), &[0, 0, 0, 0, 0]);
    assert_eq!(interpreter.pointer(), 0);
    assert_eq!(interpreter.pc(), 0);
    assert!(interpreter.program().is_empty());
}

#[test]
fn new_interpreter_may_have_no_cells() {
    let interpreter = Interpreter::<u8>::new(0);
    assert!(interpreter.cells().is_empty());
}

#[test]
fn default_sized_tape_is_allocated() {
    let interpreter = Interpreter::<i32>::new(30000);
    assert_eq!(interpreter.cells().len(), 30000);
    assert!(interpreter.cells().iter().all(|cell| *cell == 0));
}

#[test]
fn without_a_program_the_machine_halts_at_once() {
    let mut interpreter = Interpreter::<u8>::new(1);
    assert_eq!(interpreter.step(None), Ok(Action::Halt));
    assert_eq!(interpreter.interpret(None, PLENTY), Ok(Action::Halt));
    assert_eq!(interpreter.cells(), &[0]);
}

#[test]
fn compile_takes_the_program_in() {
    let mut interpreter = Interpreter::<u8>::new(1);
    assert_eq!(interpreter.compile(b"+ [ - ]"), Ok(()));
    assert_eq!(
        interpreter.program(),
        &[
            Instruction::CellInc,
            Instruction::LoopStart { target: 3 },
            Instruction::CellDec,
            Instruction::LoopEnd { target: 1 },
        ]
    );
}

#[test]
fn compile_reports_the_bracket_and_changes_nothing() {
    let mut interpreter = Interpreter::<u8>::new(2);
    interpreter.compile(b"+>").unwrap();
    assert_eq!(interpreter.interpret(None, PLENTY), Ok(Action::Halt));
    assert_eq!(
        interpreter.compile(b"+]"),
        Err(BfError::NoneMatchingBracket { index: 1 })
    );
    assert_eq!(
        interpreter.compile(b"[+"),
        Err(BfError::NoneMatchingBracket { index: 0 })
    );
    assert_eq!(
        interpreter.program(),
        &[Instruction::CellInc, Instruction::PointerInc]
    );
    assert_eq!(interpreter.pc(), 2);
    assert_eq!(interpreter.pointer(), 1);
    assert_eq!(interpreter.cells(), &[1, 0]);
}

#[test]
fn compile_starts_the_new_program_at_its_first_instruction() {
    let mut interpreter = Interpreter::<u8>::new(2);
    interpreter.compile(b"+>+").unwrap();
    assert_eq!(interpreter.interpret(None, PLENTY), Ok(Action::Halt));
    assert_eq!(interpreter.pc(), 3);
    interpreter.compile(b"+").unwrap();
    assert_eq!(interpreter.pc(), 0);
    assert_eq!(interpreter.pointer(), 1);
    assert_eq!(interpreter.cells(), &[1, 1]);
    assert_eq!(interpreter.interpret(None, PLENTY), Ok(Action::Halt));
    assert_eq!(interpreter.cells(), &[1, 2]);
}

#[test]
fn step_carries_out_one_instruction() {
    let mut interpreter = Interpreter::<i32>::new(3);
    interpreter.compile(b"+>-<").unwrap();
    assert_eq!(interpreter.step(None), Ok(Action::Continue));
    assert_eq!((interpreter.pc(), interpreter.pointer()), (1, 0));
    assert_eq!(interpreter.cells(), &[1, 0, 0]);
    assert_eq!(interpreter.step(None), Ok(Action::Continue));
    assert_eq!((interpreter.pc(), interpreter.pointer()), (2, 1));
    assert_eq!(interpreter.step(None), Ok(Action::Continue));
    assert_eq!((interpreter.pc(), interpreter.pointer()), (3, 1));
    assert_eq!(interpreter.cells(), &[1, -1, 0]);
    assert_eq!(interpreter.step(None), Ok(Action::Continue));
    assert_eq!((interpreter.pc(), interpreter.pointer()), (4, 0));
    assert_eq!(interpreter.step(None), Ok(Action::Halt));
    assert_eq!((interpreter.pc(), interpreter.pointer()), (4, 0));
}

#[test]
fn two_hundred_fifty_six_increments_return_an_unsigned_byte_to_zero() {
    let mut interpreter = Interpreter::<u8>::new(1);
    interpreter.compile("+".repeat(256).as_bytes()).unwrap();
    assert_eq!(interpreter.interpret(None, 255), Ok(Action::Continue));
    assert_eq!(interpreter.cells(), &[255]);
    assert_eq!(interpreter.interpret(None, PLENTY), Ok(Action::Halt));
    assert_eq!(interpreter.cells(), &[0]);
}

#[test]
fn one_hundred_twenty_eight_increments_take_a_signed_byte_to_its_minimum() {
    let mut interpreter = Interpreter::<i8>::new(1);
    interpreter.compile("+".repeat(128).as_bytes()).unwrap();
    assert_eq!(interpreter.interpret(None, 127), Ok(Action::Continue));
    assert_eq!(interpreter.cells(), &[127]);
    assert_eq!(interpreter.interpret(None, PLENTY), Ok(Action::Halt));
    assert_eq!(interpreter.cells(), &[-128]);
}

#[test]
fn decrement_of_zero_wraps_to_the_maximum() {
    let mut unsigned = Interpreter::<u16>::new(1);
    unsigned.compile(b"-").unwrap();
    assert_eq!(unsigned.interpret(None, PLENTY), Ok(Action::Halt));
    assert_eq!(unsigned.cells(), &[u16::MAX]);
    let mut wide = Interpreter::<u64>::new(1);
    wide.compile(b"--").unwrap();
    assert_eq!(wide.interpret(None, PLENTY), Ok(Action::Halt));
    assert_eq!(wide.cells(), &[u64::MAX - 1]);
    let mut signed = Interpreter::<i32>::new(1);
    signed.compile(b"-").unwrap();
    assert_eq!(signed.interpret(None, PLENTY), Ok(Action::Halt));
    assert_eq!(signed.cells(), &[-1]);
}

#[test]
fn empty_loop_on_a_zero_cell_is_passed_in_one_step() {
    let mut interpreter = Interpreter::<u8>::new(1);
    interpreter.compile(b"[]+").unwrap();
    assert_eq!(interpreter.step(None), Ok(Action::Continue));
    assert_eq!(interpreter.pc(), 2);
    assert_eq!(interpreter.cells(), &[0]);
    assert_eq!(interpreter.interpret(None, PLENTY), Ok(Action::Halt));
    assert_eq!(interpreter.cells(), &[1]);
}

#[test]
fn empty_loop_on_a_nonzero_cell_is_never_left() {
    let mut interpreter = Interpreter::<u8>::new(1);
    interpreter.compile(b"+[]+").unwrap();
    assert_eq!(interpreter.interpret(None, 1), Ok(Action::Continue));
    assert_eq!(interpreter.pc(), 1);
    assert_eq!(interpreter.interpret(None, 1), Ok(Action::Continue));
    assert_eq!(interpreter.pc(), 2);
    assert_eq!(interpreter.interpret(None, 1), Ok(Action::Continue));
    assert_eq!(interpreter.pc(), 1);
    assert_eq!(interpreter.interpret(None, 10_001), Ok(Action::Continue));
    assert_eq!(interpreter.pc(), 2);
    assert_eq!(interpreter.cells(), &[1]);
}

#[test]
fn loop_condition_is_tested_again_at_every_round() {
    let mut interpreter = Interpreter::<u8>::new(1);
    interpreter.compile(b"+++[-]").unwrap();
    // three increments, then three rounds of `[`, `-`, `]`, then the last `[`
    assert_eq!(interpreter.interpret(None, 3 + 3 * 3), Ok(Action::Continue));
    assert_eq!(interpreter.pc(), 3);
    assert_eq!(interpreter.cells(), &[0]);
    assert_eq!(interpreter.step(None), Ok(Action::Continue));
    assert_eq!(interpreter.pc(), 6);
    assert_eq!(interpreter.step(None), Ok(Action::Halt));
}

#[test]
fn addition_by_loop_leaves_seven_and_zero() {
    let mut interpreter = Interpreter::<u8>::new(2);
    interpreter.compile(b"++>+++++[-<+>]<").unwrap();
    assert_eq!(interpreter.interpret(None, PLENTY), Ok(Action::Halt));
    assert_eq!(interpreter.cells(), &[7, 0]);
    assert_eq!(interpreter.pointer(), 0);
}

#[test]
fn addition_by_loop_works_on_a_larger_tape_and_wider_cells() {
    let mut interpreter = Interpreter::<i64>::new(30000);
    interpreter.compile(b"++>+++++[-<+>]<").unwrap();
    assert_eq!(interpreter.interpret(None, PLENTY), Ok(Action::Halt));
    assert_eq!(&interpreter.cells()[..3], &[7, 0, 0]);
    assert_eq!(interpreter.pointer(), 0);
}

#[test]
fn input_is_echoed() {
    let mut interpreter = Interpreter::<i32>::new(1);
    interpreter.compile(b",.").unwrap();
    assert_eq!(interpreter.interpret(None, PLENTY), Ok(Action::Read));
    assert_eq!(interpreter.pc(), 0);
    assert_eq!(interpreter.interpret(Some('A'), PLENTY), Ok(Action::Write('A')));
    assert_eq!(interpreter.cells(), &[65]);
    assert_eq!(interpreter.interpret(None, PLENTY), Ok(Action::Halt));
}

#[test]
fn input_is_asked_for_until_it_comes() {
    let mut interpreter = Interpreter::<u8>::new(1);
    interpreter.compile(b",").unwrap();
    assert_eq!(interpreter.step(None), Ok(Action::Read));
    assert_eq!(interpreter.step(None), Ok(Action::Read));
    assert_eq!(interpreter.pc(), 0);
    assert_eq!(interpreter.step(Some('z')), Ok(Action::Continue));
    assert_eq!(interpreter.pc(), 1);
    assert_eq!(interpreter.cells(), &[122]);
}

#[test]
fn input_is_used_by_the_input_instruction_alone() {
    let mut interpreter = Interpreter::<u8>::new(1);
    interpreter.compile(b"+,").unwrap();
    assert_eq!(interpreter.step(Some('x')), Ok(Action::Continue));
    assert_eq!(interpreter.cells(), &[1]);
    assert_eq!(interpreter.step(None), Ok(Action::Read));
}

#[test]
fn interpret_hands_its_input_to_the_first_step_only() {
    let mut interpreter = Interpreter::<u8>::new(1);
    interpreter.compile(b",,").unwrap();
    assert_eq!(interpreter.interpret(Some('a'), PLENTY), Ok(Action::Read));
    assert_eq!(interpreter.pc(), 1);
    assert_eq!(interpreter.cells(), &[97]);
}

#[test]
fn input_keeps_the_low_eight_bits_of_the_code_point() {
    let mut interpreter = Interpreter::<u8>::new(1);
    interpreter.compile(b",").unwrap();
    assert_eq!(interpreter.step(Some('\u{141}')), Ok(Action::Continue));
    assert_eq!(interpreter.cells(), &[0x41]);
    assert_eq!(low_byte_of('\u{141}'), 0x41);
    assert_eq!(low_byte_of('A'), 65);
    assert_eq!(low_byte_of('\u{ff}'), 255);
    assert_eq!(low_byte_of('\u{10ffff}'), 255);
}

#[test]
fn input_that_the_cell_cannot_hold_is_an_error() {
    let mut interpreter = Interpreter::<i8>::new(1);
    interpreter.compile(b"+,").unwrap();
    assert_eq!(interpreter.step(None), Ok(Action::Continue));
    assert_eq!(
        interpreter.step(Some('\u{e9}')),
        Err(BfError::UnexpectedInput { byte: 0xe9 })
    );
    assert_eq!(interpreter.pc(), 1);
    assert_eq!(interpreter.cells(), &[1]);
    assert_eq!(interpreter.step(Some('\u{7f}')), Ok(Action::Continue));
    assert_eq!(interpreter.cells(), &[127]);
}

#[test]
fn wider_cells_hold_every_byte() {
    let mut interpreter = Interpreter::<i16>::new(1);
    interpreter.compile(b",").unwrap();
    assert_eq!(interpreter.step(Some('\u{ff}')), Ok(Action::Continue));
    assert_eq!(interpreter.cells(), &[255]);
}

#[test]
fn output_is_the_low_eight_bits_as_a_character() {
    let mut interpreter = Interpreter::<i32>::new(1);
    interpreter
        .compile(format!("{}.", "+".repeat(321)).as_bytes())
        .unwrap();
    assert_eq!(interpreter.interpret(None, PLENTY), Ok(Action::Write('A')));
    assert_eq!(interpreter.cells(), &[321]);
}

#[test]
fn output_of_a_negative_cell_is_its_low_byte() {
    let mut interpreter = Interpreter::<i8>::new(1);
    interpreter.compile(b"-.").unwrap();
    assert_eq!(
        interpreter.interpret(None, PLENTY),
        Ok(Action::Write('\u{ff}'))
    );
    assert_eq!(interpreter.interpret(None, PLENTY), Ok(Action::Halt));
}

#[test]
fn move_below_the_tape_faults_at_the_next_touch() {
    let mut interpreter = Interpreter::<u8>::new(30000);
    interpreter.compile(b"<+").unwrap();
    assert_eq!(
        interpreter.interpret(None, PLENTY),
        Err(BfError::MemoryOutOfBounds { index: 1 })
    );
    assert_eq!(interpreter.pointer(), -1);
    assert_eq!(interpreter.pc(), 1);
}

#[test]
fn move_below_the_tape_faults_on_a_tape_of_any_size() {
    for size in [0, 1, 2, 100] {
        let mut interpreter = Interpreter::<i32>::new(size);
        interpreter.compile(b"<.").unwrap();
        assert_eq!(
            interpreter.interpret(None, PLENTY),
            Err(BfError::MemoryOutOfBounds { index: 1 })
        );
    }
}

#[test]
fn move_alone_never_faults() {
    let mut interpreter = Interpreter::<u8>::new(1);
    interpreter.compile(b"<").unwrap();
    assert_eq!(interpreter.interpret(None, PLENTY), Ok(Action::Halt));
    assert_eq!(interpreter.pointer(), -1);
}

#[test]
fn pointer_may_leave_the_tape_and_come_back() {
    let mut interpreter = Interpreter::<u8>::new(2);
    interpreter.compile(b"<<>>+>>><<+").unwrap();
    assert_eq!(interpreter.interpret(None, PLENTY), Ok(Action::Halt));
    assert_eq!(interpreter.cells(), &[1, 1]);
    assert_eq!(interpreter.pointer(), 1);
}

#[test]
fn move_behind_the_tape_faults_at_the_next_touch() {
    let mut interpreter = Interpreter::<u8>::new(2);
    interpreter.compile(b"+>+>+").unwrap();
    assert_eq!(
        interpreter.interpret(None, PLENTY),
        Err(BfError::MemoryOutOfBounds { index: 4 })
    );
    assert_eq!(interpreter.cells(), &[1, 1]);
    assert_eq!(interpreter.pointer(), 2);
}

#[test]
fn every_touching_instruction_faults_outside_of_the_tape() {
    for source in ["<+", "<-", "<.", "<[]"] {
        let mut interpreter = Interpreter::<i16>::new(4);
        interpreter.compile(source.as_bytes()).unwrap();
        assert_eq!(
            interpreter.interpret(None, PLENTY),
            Err(BfError::MemoryOutOfBounds { index: 1 })
        );
    }
}

#[test]
fn input_outside_of_the_tape_faults_once_the_character_is_there() {
    let mut interpreter = Interpreter::<u8>::new(1);
    interpreter.compile(b">,").unwrap();
    assert_eq!(interpreter.interpret(None, PLENTY), Ok(Action::Read));
    assert_eq!(
        interpreter.interpret(Some('a'), PLENTY),
        Err(BfError::MemoryOutOfBounds { index: 1 })
    );
    assert_eq!(interpreter.cells(), &[0]);
}

#[test]
fn loop_end_outside_of_the_tape_jumps_back_and_the_loop_start_faults() {
    let mut interpreter = Interpreter::<u8>::new(1);
    interpreter.compile(b"+[>]").unwrap();
    assert_eq!(interpreter.interpret(None, 3), Ok(Action::Continue));
    assert_eq!((interpreter.pc(), interpreter.pointer()), (3, 1));
    assert_eq!(interpreter.step(None), Ok(Action::Continue));
    assert_eq!(interpreter.pc(), 1);
    assert_eq!(
        interpreter.step(None),
        Err(BfError::MemoryOutOfBounds { index: 1 })
    );
}

#[test]
fn fault_leaves_the_machine_as_it_was() {
    let mut interpreter = Interpreter::<u8>::new(1);
    interpreter.compile(b"+>-").unwrap();
    let fault = Err(BfError::MemoryOutOfBounds { index: 2 });
    assert_eq!(interpreter.interpret(None, PLENTY), fault);
    assert_eq!(interpreter.interpret(None, PLENTY), fault);
    assert_eq!(interpreter.step(None), fault);
    assert_eq!(interpreter.cells(), &[1]);
    assert_eq!((interpreter.pc(), interpreter.pointer()), (2, 1));
}

#[test]
fn spent_budget_stops_the_run_where_it_is() {
    let mut interpreter = Interpreter::<u8>::new(1);
    interpreter.compile(b"+++").unwrap();
    assert_eq!(interpreter.interpret(None, 0), Ok(Action::Continue));
    assert_eq!(interpreter.pc(), 0);
    assert_eq!(interpreter.interpret(None, 2), Ok(Action::Continue));
    assert_eq!(interpreter.pc(), 2);
    assert_eq!(interpreter.cells(), &[2]);
    assert_eq!(interpreter.interpret(None, 1), Ok(Action::Continue));
    assert_eq!(interpreter.interpret(None, 1), Ok(Action::Halt));
    assert_eq!(interpreter.cells(), &[3]);
}

#[test]
fn greeting_is_written_character_by_character() {
    let mut interpreter = Interpreter::<u8>::new(16);
    interpreter
        .compile(
            b"++++++++[>++++[>++>+++>+++>+<<<<-]>+>+>->>+[<]<-]>>.>---.+++++++..+++.\
              >>.<-.<.+++.------.--------.>>+.>++.",
        )
        .unwrap();
    let mut written = String::new();
    loop {
        match interpreter.interpret(None, PLENTY) {
            Ok(Action::Write(c)) => written.push(c),
            Ok(Action::Halt) => break,
            other => panic!("{:?}", other),
        }
    }
    assert_eq!(written, "Hello World!\n");
}

#[test]
fn characters_read_are_written_back_in_reverse() {
    let mut interpreter = Interpreter::<u32>::new(8);
    interpreter.compile(b">,>,>,[.<]").unwrap();
    let mut input = "abc".chars();
    let mut next = None;
    let mut written = String::new();
    loop {
        match interpreter.interpret(next.take(), PLENTY) {
            Ok(Action::Read) => next = input.next(),
            Ok(Action::Write(c)) => written.push(c),
            Ok(Action::Halt) => break,
            other => panic!("{:?}", other),
        }
    }
    assert_eq!(written, "cba");
    assert_eq!(interpreter.cells()[..4], [0, 97, 98, 99]);
}

#[test]
fn run_assembles_and_runs() {
    let mut interpreter = Interpreter::<u8>::new(2);
    assert_eq!(
        interpreter.run(b"++>+++++[-<+>]<", PLENTY),
        Ok(Action::Halt)
    );
    assert_eq!(interpreter.cells(), &[7, 0]);
    assert_eq!(interpreter.pointer(), 0);
    assert_eq!(interpreter.pc(), 15);
}

#[test]
fn run_stops_at_the_first_thing_asked() {
    let mut interpreter = Interpreter::<i32>::new(1);
    assert_eq!(interpreter.run(b",.", PLENTY), Ok(Action::Read));
    assert_eq!(interpreter.interpret(Some('A'), PLENTY), Ok(Action::Write('A')));
    assert_eq!(interpreter.interpret(None, PLENTY), Ok(Action::Halt));
}

#[test]
fn run_keeps_to_its_budget() {
    let mut interpreter = Interpreter::<u8>::new(1);
    assert_eq!(interpreter.run(b"+[]", 100), Ok(Action::Continue));
    assert_eq!(interpreter.cells(), &[1]);
    assert_eq!(interpreter.run(b"+", 0), Ok(Action::Continue));
    assert_eq!(interpreter.pc(), 0);
    assert_eq!(interpreter.program(), &[Instruction::CellInc]);
}

#[test]
fn run_reports_the_bracket_before_anything_is_run() {
    let mut interpreter = Interpreter::<u8>::new(1);
    assert_eq!(
        interpreter.run(b"+++]", PLENTY),
        Err(BfError::NoneMatchingBracket { index: 3 })
    );
    assert_eq!(interpreter.cells(), &[0]);
    assert!(interpreter.program().is_empty());
    assert_eq!(
        interpreter.run(b"+[+[", PLENTY),
        Err(BfError::NoneMatchingBracket { index: 3 })
    );
    assert_eq!(interpreter.cells(), &[0]);
}

#[test]
fn run_reports_the_fault_of_the_program() {
    let mut interpreter = Interpreter::<u8>::new(1);
    assert_eq!(
        interpreter.run(b"<", PLENTY),
        Ok(Action::Halt)
    );
    let mut interpreter = Interpreter::<u8>::new(1);
    assert_eq!(
        interpreter.run(b"<,", PLENTY),
        Ok(Action::Read)
    );
    let mut interpreter = Interpreter::<u8>::new(1);
    assert_eq!(
        interpreter.run(b"< then [ nothing ]", PLENTY),
        Err(BfError::MemoryOutOfBounds { index: 1 })
    );
}
