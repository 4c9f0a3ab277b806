use bfi::compiler::compile;
use bfi::machine::Machine;

const FUEL: usize = 10_000_000;

/// What a source does when it is executed command by command, with no
/// folding: the tape, the cursor, the bytes written and the number of bytes
/// read.
fn command_by_command(source: &[u8], size: usize, input: &[u8]) -> (Vec<u8>, usize, Vec<u8>, usize) {
    let mut tape = vec![0u8; size];
    let mut cursor = 0usize;
    let mut output = Vec::new();
    let mut consumed = 0usize;
    let mut at = 0usize;
    while at < source.len() {
        match source[at] {
            b'+' => tape[cursor] = tape[cursor].wrapping_add(1),
            b'-' => tape[cursor] = tape[cursor].wrapping_sub(1),
            b'>' => cursor = (cursor + 1) % size,
            b'<' => cursor = (cursor + size - 1) % size,
            b'.' => output.push(tape[cursor]),
            b',' => {
                if consumed < input.len() {
                    tape[cursor] = input[consumed];
                    consumed += 1;
                }
            }
            b'[' => {
                if tape[cursor] == 0 {
                    let mut depth = 1;
                    while depth > 0 {
                        at += 1;
                        match source[at] {
                            b'[' => depth += 1,
                            b']' => depth -= 1,
                            _ => {}
                        }
                    }
                }
            }
            b']' => {
                if tape[cursor] != 0 {
                    let mut depth = 1;
                    while depth > 0 {
                        at -= 1;
                        match source[at] {
                            b']' => depth += 1,
                            b'[' => depth -= 1,
                            _ => {}
                        }
                    }
                }
            }
            _ => {}
        }
        at += 1;
    }
    (tape, cursor, output, consumed)
}

fn compiled(source: &[u8], size: usize, input: &[u8]) -> (Vec<u8>, usize, Vec<u8>, usize) {
    let mut machine = Machine::new(compile(source).unwrap(), size as u32);
    let report = machine.run(input, FUEL).unwrap();
    assert!(report.finished);
    (machine.tape().clone(), machine.cursor() as usize, report.output, report.consumed)
}

#[test]
fn the_compiled_program_does_what_the_commands_do() {
    let sources: [&[u8]; 9] = [
        b"",
        b"+++++>>>---<<.",
        b"++>+++>+<<.>.>.",
        b"<<<<+>>>>>>>>>-",
        b",[.[-],]",
        b",>,>,<<[->+<]>.>.",
        b"++++[>+++[>++<-]<-]>>.",
        b"+++ a comment +++ [ - ] another . comment",
        b"++++++++[>++++[>++>+++>+++>+<<<<-]>+>+>->>+[<]<-]\
          >>.>---.+++++++..+++.>>.<-.<.+++.------.--------.>>+.>++.",
    ];
    for source in sources {
        for size in [7usize, 30, 300] {
            for input in [&b""[..], &b"a"[..], &[3u8, 0, 250][..], &b"hello"[..]] {
                assert_eq!(compiled(source, size, input), command_by_command(source, size, input));
            }
        }
    }
}

#[test]
fn small_tapes_wrap_alike() {
    let sources: [&[u8]; 4] = [b">>>>>+<<<<<<<-", b"+>+>+>+>+>+>+", b"-<-<-<-<", b"+[>+]"];
    for source in sources {
        for size in [1usize, 2, 3, 4, 5] {
            assert_eq!(compiled(source, size, b""), command_by_command(source, size, b""));
        }
    }
}

#[test]
fn a_run_of_input_commands_is_where_folding_differs() {
    let (tape, _, _, consumed) = compiled(b",,", 2, b"ab");
    assert_eq!((tape[0], consumed), (b'a', 1));
    let (tape, _, _, consumed) = command_by_command(b",,", 2, b"ab");
    assert_eq!((tape[0], consumed), (b'b', 2));
    assert_eq!(compiled(b", ,", 2, b"ab"), command_by_command(b", ,", 2, b"ab"));
}
