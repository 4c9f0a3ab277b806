use bfi::compiler::compile;
use bfi::instruction::{Instruction, Opcode};
use bfi::machine::{execute, Effect, Feed, Machine, Report, RuntimeError};

const TAPE: u32 = 30000;
const FUEL: usize = 1_000_000;

fn machine_for(source: &[u8], tape_size: u32) -> Machine {
    Machine::new(compile(source).unwrap(), tape_size)
}

fn run_source(source: &[u8], input: &[u8]) -> Report {
    execute(compile(source).unwrap(), TAPE, input, FUEL).unwrap()
}

#[test]
fn a_new_machine_is_all_zero() {
    let machine = machine_for(b"+", 5);
    assert_eq!(machine.tape(), &vec![0u8; 5]);
    assert_eq!(machine.cursor(), 0);
    assert_eq!(machine.pc(), 0);
    assert!(!machine.is_halted());
}

#[test]
fn a_tape_without_cells_can_be_made() {
    let machine = machine_for(b"+", 0);
    assert_eq!(machine.tape(), &Vec::<u8>::new());
    assert_eq!(machine.cursor(), 0);
    assert_eq!(machine.pc(), 0);
    assert!(!machine.is_halted());
}

#[test]
fn the_empty_program_runs_on_a_tape_without_cells() {
    let done = Report { output: vec![], consumed: 0, finished: true };
    assert_eq!(execute(vec![], 0, b"", FUEL), Ok(Report { output: vec![], consumed: 0, finished: true }));
    assert_eq!(execute(vec![], 0, b"unread", FUEL), Ok(done));
    assert_eq!(
        execute(vec![], 0, b"", 0),
        Ok(Report { output: vec![], consumed: 0, finished: true })
    );
    let mut machine = Machine::new(vec![], 0);
    assert!(machine.is_halted());
    assert_eq!(machine.step(Feed::Nothing), Ok(Effect::Halted));
}

#[test]
fn comments_only_run_on_a_tape_without_cells() {
    let program = compile(b"no command in here").unwrap();
    let report = execute(program, 0, b"unread", FUEL).unwrap();
    assert_eq!(report, Report { output: vec![], consumed: 0, finished: true });
}

#[test]
fn an_instruction_that_needs_a_cell_fails_on_a_tape_without_cells() {
    let sources: [&[u8]; 6] = [b"+", b"-", b".", b",", b"[]", b"[-]"];
    for source in sources {
        let program = compile(source).unwrap();
        assert_eq!(execute(program, 0, b"x", FUEL), Err(RuntimeError::TapeBounds));
    }
    let lone_end = vec![Instruction { opcode: Opcode::LoopEnd, operand: 0 }];
    assert_eq!(execute(lone_end, 0, b"", FUEL), Err(RuntimeError::TapeBounds));
}

#[test]
fn a_failing_step_leaves_the_machine_as_it_is() {
    let mut machine = machine_for(b",+", 0);
    assert_eq!(machine.step(Feed::Nothing), Err(RuntimeError::TapeBounds));
    assert_eq!(machine.step(Feed::Byte(1)), Err(RuntimeError::TapeBounds));
    assert_eq!(machine.step(Feed::Failure), Err(RuntimeError::TapeBounds));
    assert_eq!(machine.pc(), 0);
    assert_eq!(machine.cursor(), 0);
    assert!(!machine.is_halted());
    assert_eq!(machine.run(b"x", FUEL), Err(RuntimeError::TapeBounds));
    assert_eq!(machine.pc(), 0);
}

#[test]
fn moves_need_no_cell() {
    for source in [&b">"[..], &b"<"[..], &b">>><<"[..], &b"> < >"[..]] {
        let mut machine = machine_for(source, 0);
        let report = machine.run(b"", FUEL).unwrap();
        assert_eq!(report, Report { output: vec![], consumed: 0, finished: true });
        assert_eq!(machine.cursor(), 0);
        assert!(machine.is_halted());
    }
}

#[test]
fn the_first_instruction_that_needs_a_cell_fails() {
    let mut machine = machine_for(b">><+.", 0);
    assert_eq!(machine.run(b"", FUEL), Err(RuntimeError::TapeBounds));
    assert_eq!(machine.pc(), 2);
    assert_eq!(machine.cursor(), 0);
}

#[test]
fn without_fuel_nothing_fails() {
    let mut machine = machine_for(b"+", 0);
    let report = machine.run(b"", 0).unwrap();
    assert_eq!(report, Report { output: vec![], consumed: 0, finished: false });
    let mut moving = machine_for(b">><+", 0);
    let report = moving.run(b"", 2).unwrap();
    assert_eq!(report, Report { output: vec![], consumed: 0, finished: false });
    assert_eq!(moving.pc(), 2);
    assert_eq!(moving.run(b"", 1), Err(RuntimeError::TapeBounds));
}

#[test]
fn a_tape_with_one_cell_never_fails() {
    let report = execute(compile(b"+>+<-.,[-]").unwrap(), 1, b"", FUEL).unwrap();
    assert_eq!(report, Report { output: vec![1], consumed: 0, finished: true });
}

#[test]
fn the_empty_program_has_ended_at_once() {
    let mut machine = machine_for(b"", 3);
    assert!(machine.is_halted());
    assert_eq!(machine.step(Feed::Nothing), Ok(Effect::Halted));
    assert_eq!(machine.step(Feed::Byte(7)), Ok(Effect::Halted));
    assert_eq!(machine.tape(), &vec![0u8; 3]);
}

#[test]
fn comments_only_run_as_nothing() {
    let program = compile(b"this text holds no command at all").unwrap();
    assert!(program.is_empty());
    let report = execute(program, TAPE, b"unread", FUEL).unwrap();
    assert_eq!(report, Report { output: vec![], consumed: 0, finished: true });
}

#[test]
fn add_256_times_returns_the_cell_to_zero() {
    let source = vec![b'+'; 256];
    let mut machine = machine_for(&source, 4);
    let report = machine.run(b"", FUEL).unwrap();
    assert!(report.finished);
    assert_eq!(machine.tape()[0], 0);
    let mut one_less = machine_for(&source[..255], 4);
    one_less.run(b"", FUEL).unwrap();
    assert_eq!(one_less.tape()[0], 255);
}

#[test]
fn sub_on_a_zero_cell_gives_255() {
    let mut machine = machine_for(b"-", 4);
    machine.run(b"", FUEL).unwrap();
    assert_eq!(machine.tape(), &vec![255u8, 0, 0, 0]);
}

#[test]
fn moving_right_by_the_tape_length_comes_back() {
    for size in [1u32, 2, 5, 300] {
        let source = vec![b'>'; size as usize];
        let mut machine = machine_for(&source, size);
        machine.run(b"", FUEL).unwrap();
        assert_eq!(machine.cursor(), 0);
    }
}

#[test]
fn moving_right_in_single_steps_comes_back() {
    let size = 7u32;
    let mut source = Vec::new();
    for _ in 0..size {
        source.extend_from_slice(b">+");
    }
    let mut machine = machine_for(&source, size);
    machine.run(b"", FUEL).unwrap();
    assert_eq!(machine.cursor(), 0);
    assert_eq!(machine.tape(), &vec![1u8; 7]);
}

#[test]
fn moving_left_from_the_first_cell_reaches_the_last() {
    let mut machine = machine_for(b"<+", 30000);
    machine.run(b"", FUEL).unwrap();
    assert_eq!(machine.cursor(), 29999);
    assert_eq!(machine.tape()[29999], 1);
    assert_eq!(machine.tape()[0], 0);
}

#[test]
fn moves_longer_than_the_tape_wrap_more_than_once() {
    let mut right = machine_for(&vec![b'>'; 25], 10);
    right.run(b"", FUEL).unwrap();
    assert_eq!(right.cursor(), 5);
    let mut left = machine_for(&vec![b'<'; 25], 10);
    left.run(b"", FUEL).unwrap();
    assert_eq!(left.cursor(), 5);
    let mut small = machine_for(b">>><<<<<", 3);
    small.run(b"", FUEL).unwrap();
    assert_eq!(small.cursor(), 1);
}

#[test]
fn huge_operands_are_taken_modulo() {
    let program = vec![
        Instruction { opcode: Opcode::Add, operand: usize::MAX },
        Instruction { opcode: Opcode::MoveRight, operand: usize::MAX },
        Instruction { opcode: Opcode::Sub, operand: usize::MAX - 1 },
        Instruction { opcode: Opcode::MoveLeft, operand: usize::MAX },
    ];
    let mut machine = Machine::new(program, 10);
    let report = machine.run(b"", FUEL).unwrap();
    assert!(report.finished);
    let right = (usize::MAX % 10) as usize;
    let mut expected = vec![0u8; 10];
    expected[0] = (usize::MAX % 256) as u8;
    expected[right] = 0u8.wrapping_sub(((usize::MAX - 1) % 256) as u8);
    assert_eq!(machine.tape(), &expected);
    assert_eq!(machine.cursor(), 0);
}

#[test]
fn the_clearing_loop_clears_every_value() {
    for value in 1..=255usize {
        let mut source = vec![b'+'; value];
        source.extend_from_slice(b"[-]");
        let mut machine = machine_for(&source, 3);
        assert_eq!(machine.step(Feed::Nothing), Ok(Effect::Continue));
        assert_eq!(machine.tape()[0], value as u8);
        let report = machine.run(b"", 1 + 2 * value).unwrap();
        assert!(report.finished);
        assert_eq!(report.output, Vec::<u8>::new());
        assert_eq!(machine.tape(), &vec![0u8; 3]);
        assert_eq!(machine.cursor(), 0);
    }
}

#[test]
fn the_clearing_loop_needs_two_steps_for_each_unit() {
    let mut machine = machine_for(b"+++[-]", 3);
    machine.step(Feed::Nothing).unwrap();
    let report = machine.run(b"", 2 * 3).unwrap();
    assert!(!report.finished);
    assert_eq!(machine.tape()[0], 0);
    assert_eq!(machine.pc(), 3);
    let report = machine.run(b"", 1).unwrap();
    assert!(report.finished);
    assert_eq!(machine.pc(), 4);
}

#[test]
fn the_clearing_loop_on_a_zero_cell_skips_its_body() {
    let mut machine = machine_for(b"[-]", 3);
    assert_eq!(machine.step(Feed::Nothing), Ok(Effect::Continue));
    assert!(machine.is_halted());
    assert_eq!(machine.pc(), 3);
    assert_eq!(machine.tape(), &vec![0u8; 3]);
}

#[test]
fn a_skipped_loop_does_not_run_its_body() {
    let report = run_source(b"[+.]", b"");
    assert_eq!(report, Report { output: vec![], consumed: 0, finished: true });
}

#[test]
fn loop_end_jumps_back_behind_loop_start() {
    let mut machine = machine_for(b"++[-]", 3);
    machine.step(Feed::Nothing).unwrap();
    machine.step(Feed::Nothing).unwrap();
    assert_eq!(machine.pc(), 2);
    machine.step(Feed::Nothing).unwrap();
    assert_eq!(machine.tape()[0], 1);
    assert_eq!(machine.pc(), 3);
    machine.step(Feed::Nothing).unwrap();
    assert_eq!(machine.pc(), 2);
    machine.step(Feed::Nothing).unwrap();
    machine.step(Feed::Nothing).unwrap();
    assert_eq!(machine.pc(), 4);
    assert!(machine.is_halted());
}

#[test]
fn a_jump_out_of_the_program_ends_it() {
    let program = vec![
        Instruction { opcode: Opcode::LoopStart, operand: usize::MAX },
        Instruction { opcode: Opcode::Add, operand: 1 },
    ];
    let mut machine = Machine::new(program, 2);
    assert_eq!(machine.step(Feed::Nothing), Ok(Effect::Continue));
    assert!(machine.is_halted());
    assert_eq!(machine.pc(), 2);
    assert_eq!(machine.tape(), &vec![0u8, 0]);
}

#[test]
fn output_repeats_the_cell() {
    let report = run_source(b"+++++++++++++++++++++++++++++++++...", b"");
    assert_eq!(report.output, b"!!!".to_vec());
    assert!(report.finished);
}

#[test]
fn output_is_raw_bytes() {
    let report = run_source(b"-.-.", b"");
    assert_eq!(report.output, vec![255u8, 254]);
}

#[test]
fn output_step_says_what_to_write() {
    let mut machine = machine_for(b"++....", 2);
    machine.step(Feed::Nothing).unwrap();
    assert_eq!(machine.step(Feed::Nothing), Ok(Effect::Output { byte: 2, count: 4 }));
    assert!(machine.is_halted());
}

#[test]
fn input_is_stored_in_the_current_cell() {
    let mut machine = machine_for(b",>,>,", 4);
    let report = machine.run(b"abc", FUEL).unwrap();
    assert_eq!(report, Report { output: vec![], consumed: 3, finished: true });
    assert_eq!(machine.tape(), &vec![b'a', b'b', b'c', 0]);
}

#[test]
fn a_run_of_input_commands_reads_one_byte() {
    let mut machine = machine_for(b",,,", 2);
    let report = machine.run(b"xyz", FUEL).unwrap();
    assert_eq!(report.consumed, 1);
    assert_eq!(machine.tape()[0], b'x');
}

#[test]
fn a_zero_byte_is_read_like_any_other() {
    let mut machine = machine_for(b"+++,>+++,", 2);
    let report = machine.run(&[0u8], FUEL).unwrap();
    assert_eq!(report.consumed, 1);
    assert_eq!(machine.tape(), &vec![0u8, 3]);
}

#[test]
fn the_end_of_input_leaves_the_cell_unchanged() {
    let mut machine = machine_for(b"+++++,", 2);
    let report = machine.run(b"", FUEL).unwrap();
    assert_eq!(report, Report { output: vec![], consumed: 0, finished: true });
    assert_eq!(machine.tape()[0], 5);
}

#[test]
fn step_asks_for_input_and_waits() {
    let mut machine = machine_for(b"+,", 2);
    assert_eq!(machine.step(Feed::Byte(9)), Ok(Effect::Continue));
    assert_eq!(machine.tape()[0], 1);
    assert_eq!(machine.step(Feed::Nothing), Ok(Effect::AwaitInput));
    assert_eq!(machine.step(Feed::Nothing), Ok(Effect::AwaitInput));
    assert_eq!(machine.pc(), 1);
    assert_eq!(machine.tape()[0], 1);
    assert_eq!(machine.step(Feed::Byte(200)), Ok(Effect::Continue));
    assert_eq!(machine.tape()[0], 200);
    assert!(machine.is_halted());
}

#[test]
fn step_at_the_end_of_input_goes_on() {
    let mut machine = machine_for(b"+,", 2);
    machine.step(Feed::Nothing).unwrap();
    assert_eq!(machine.step(Feed::EndOfInput), Ok(Effect::Continue));
    assert_eq!(machine.tape()[0], 1);
    assert!(machine.is_halted());
}

#[test]
fn a_failed_read_is_an_error() {
    let mut machine = machine_for(b"+,", 2);
    assert_eq!(machine.step(Feed::Failure), Ok(Effect::Continue));
    assert_eq!(machine.step(Feed::Failure), Err(RuntimeError::InputFailed));
    assert_eq!(machine.pc(), 1);
    assert_eq!(machine.tape()[0], 1);
}

#[test]
fn echo_until_a_zero_byte() {
    let report = run_source(b",[.,]", &[b'h', b'i', 0, b'x']);
    assert_eq!(report, Report { output: b"hi".to_vec(), consumed: 3, finished: true });
}

#[test]
fn a_loop_without_end_stops_when_the_fuel_is_spent() {
    let mut machine = machine_for(b"+[]", 2);
    let report = machine.run(b"", 1001).unwrap();
    assert!(!report.finished);
    assert_eq!(machine.tape()[0], 1);
    assert_eq!(machine.pc(), 2);
}

#[test]
fn no_fuel_no_step() {
    let mut machine = machine_for(b"+.", 2);
    let report = machine.run(b"", 0).unwrap();
    assert_eq!(report, Report { output: vec![], consumed: 0, finished: false });
    assert_eq!(machine.pc(), 0);
    assert_eq!(machine.tape()[0], 0);
}

#[test]
fn a_run_can_be_taken_up_again() {
    let mut machine = machine_for(b"+.+.+.", 2);
    let first = machine.run(b"", 3).unwrap();
    assert_eq!(first, Report { output: vec![1], consumed: 0, finished: false });
    let second = machine.run(b"", FUEL).unwrap();
    assert_eq!(second, Report { output: vec![2, 3], consumed: 0, finished: true });
}

#[test]
fn three_cells_are_filled_and_the_cursor_returns() {
    let mut machine = machine_for(b"++>+++>+<<", 30000);
    let report = machine.run(b"", FUEL).unwrap();
    assert!(report.finished);
    assert_eq!(machine.cursor(), 0);
    assert_eq!(machine.tape()[0], 2);
    assert_eq!(machine.tape()[1], 3);
    assert_eq!(machine.tape()[2], 1);
    assert_eq!(machine.tape()[1] + machine.tape()[2], 4);
    assert!(machine.tape()[3..].iter().all(|cell| *cell == 0));
}

#[test]
fn three_cells_are_written_out() {
    let report = run_source(b"++>+++>+<<.>.>.", b"");
    assert_eq!(report, Report { output: vec![2, 3, 1], consumed: 0, finished: true });
}

#[test]
fn hello_world() {
    let source = b"++++++++[>++++[>++>+++>+++>+<<<<-]>+>+>->>+[<]<-]\
        >>.>---.+++++++..+++.>>.<-.<.+++.------.--------.>>+.";
    let report = run_source(source, b"");
    assert_eq!(report.output, b"Hello World!".to_vec());
    assert_eq!(report.output.len(), 12);
    assert!(report.finished);
    assert_eq!(report.consumed, 0);
}

#[test]
fn hello_world_with_a_newline() {
    let source = b"++++++++[>++++[>++>+++>+++>+<<<<-]>+>+>->>+[<]<-]\
        >>.>---.+++++++..+++.>>.<-.<.+++.------.--------.>>+.>++.";
    let report = run_source(source, b"");
    assert_eq!(report.output, b"Hello World!\n".to_vec());
}

#[test]
fn stepping_by_hand_gives_what_run_gives() {
    let source = b"++++[>+++.<-]>,.";
    let input = b"Z";
    let expected = run_source(source, input);
    let mut machine = machine_for(source, TAPE);
    let mut output = Vec::new();
    let mut consumed = 0;
    let mut feed = Feed::Nothing;
    loop {
        match machine.step(feed).unwrap() {
            Effect::Halted => break,
            Effect::Continue => feed = Feed::Nothing,
            Effect::Output { byte, count } => {
                for _ in 0..count {
                    output.push(byte);
                }
                feed = Feed::Nothing;
            }
            Effect::AwaitInput => {
                if consumed < input.len() {
                    feed = Feed::Byte(input[consumed]);
                    consumed += 1;
                } else {
                    feed = Feed::EndOfInput;
                }
            }
        }
    }
    assert_eq!(Report { output, consumed, finished: true }, expected);
    assert_eq!(expected.output, vec![3, 6, 9, 12, b'Z']);
}
