use brainfuck::executor::{Action, Executor};
use brainfuck::memory::Memory;
use brainfuck::parser::{parse, Token};
use brainfuck::source::commands;

/// What a run left behind.
struct Run {
    output: Vec<u8>,
    steps: usize,
    consumed: usize,
    executor: Executor,
}

/// Drives the executor over `program` until it stops, feeding it `input`.
/// Panics if the program asks for more input than there is, or does not
/// stop within a million steps.
fn run(program: &str, input: &[u8]) -> Run {
    let tokens = parse(&commands(program)).unwrap();
    let mut executor = Executor::new();
    let mut output = Vec::new();
    let mut steps = 0;
    let mut consumed = 0;
    loop {
        assert!(steps < 1_000_000);
        assert!(executor.can_step(&tokens));
        match executor.step(&tokens) {
            Action::Proceed => steps += 1,
            Action::Print(byte) => {
                output.push(byte);
                steps += 1;
            }
            Action::Read => {
                assert!(consumed < input.len());
                assert!(executor.input(&tokens, input[consumed]));
                consumed += 1;
                steps += 1;
            }
            Action::Stop => break,
        }
    }
    assert_eq!(executor.index(), tokens.len());
    Run { output, steps, consumed, executor }
}

#[test]
fn new_executor_is_in_its_initial_state() {
    let executor = Executor::new();
    assert_eq!(executor.index(), 0);
    assert_eq!(executor.pointer(), 0);
    assert_eq!(executor.memory().read(0), 0);
    assert_eq!(executor.memory().read(-1), 0);
    assert_eq!(executor.memory().read(1), 0);
}

#[test]
fn empty_program_stops_at_once() {
    let mut executor = Executor::new();
    assert_eq!(executor.step(&[]), Action::Stop);
    assert_eq!(executor.index(), 0);
    assert_eq!(executor.step(&[]), Action::Stop);
}

#[test]
fn increment_wraps_from_255_to_0() {
    let tokens = [Token::Read, Token::Plus];
    let mut executor = Executor::new();
    assert_eq!(executor.step(&tokens), Action::Read);
    assert!(executor.input(&tokens, 255));
    assert_eq!(executor.memory().read(0), 255);
    assert_eq!(executor.step(&tokens), Action::Proceed);
    assert_eq!(executor.memory().read(0), 0);
    assert_eq!(executor.index(), 2);

    let result = run(&"+".repeat(255), &[]);
    assert_eq!(result.executor.memory().read(0), 255);
    let result = run(&"+".repeat(256), &[]);
    assert_eq!(result.executor.memory().read(0), 0);
    let result = run(&"+".repeat(257), &[]);
    assert_eq!(result.executor.memory().read(0), 1);
}

#[test]
fn decrement_wraps_from_0_to_255() {
    let tokens = [Token::Minus];
    let mut executor = Executor::new();
    assert_eq!(executor.memory().read(0), 0);
    assert_eq!(executor.step(&tokens), Action::Proceed);
    assert_eq!(executor.memory().read(0), 255);
    assert_eq!(executor.index(), 1);
    let result = run("--", &[]);
    assert_eq!(result.executor.memory().read(0), 254);
}

#[test]
fn two_increments_print_the_byte_two() {
    let result = run("++.", &[]);
    assert_eq!(result.output, vec![2]);
    assert_eq!(result.steps, 3);
}

#[test]
fn countdown_loop_runs_once_and_terminates() {
    let tokens = parse(&commands("+[-]")).unwrap();
    let mut executor = Executor::new();
    // `+`: the cell becomes 1.
    assert_eq!(executor.step(&tokens), Action::Proceed);
    assert_eq!((executor.index(), executor.memory().read(0)), (1, 1));
    // `[`: the cell is not zero, the loop is entered.
    assert_eq!(executor.step(&tokens), Action::Proceed);
    assert_eq!((executor.index(), executor.memory().read(0)), (2, 1));
    // `-`: the cell becomes 0.
    assert_eq!(executor.step(&tokens), Action::Proceed);
    assert_eq!((executor.index(), executor.memory().read(0)), (3, 0));
    // `]`: the cell is zero, the loop is left.
    assert_eq!(executor.step(&tokens), Action::Proceed);
    assert_eq!((executor.index(), executor.memory().read(0)), (4, 0));
    assert_eq!(executor.step(&tokens), Action::Stop);
    assert_eq!((executor.index(), executor.memory().read(0)), (4, 0));

    let result = run("+[-]", &[]);
    assert_eq!(result.steps, 4);
    assert_eq!(result.output, Vec::<u8>::new());
}

#[test]
fn loop_on_zero_cell_is_skipped() {
    let tokens = parse(&commands("[-]")).unwrap();
    let mut executor = Executor::new();
    // `[`: the cell is zero, the jump to the `]` is taken.
    assert_eq!(executor.step(&tokens), Action::Proceed);
    assert_eq!((executor.index(), executor.memory().read(0)), (2, 0));
    // `]`: the cell is zero, the loop is left; `-` never ran.
    assert_eq!(executor.step(&tokens), Action::Proceed);
    assert_eq!((executor.index(), executor.memory().read(0)), (3, 0));
    assert_eq!(executor.step(&tokens), Action::Stop);

    let result = run("[-]", &[]);
    assert_eq!(result.steps, 2);
    assert_eq!(result.executor.memory().read(0), 0);
}

#[test]
fn taken_jump_lands_on_its_target() {
    let tokens = parse(&commands("++[-]")).unwrap();
    let mut executor = Executor::new();
    for _ in 0..4 {
        assert_eq!(executor.step(&tokens), Action::Proceed);
    }
    // After `++[-` the cell is 1 and the `]` is next.
    assert_eq!((executor.index(), executor.memory().read(0)), (4, 1));
    // `]` with a non-zero cell jumps back to the `[` itself.
    assert_eq!(executor.step(&tokens), Action::Proceed);
    assert_eq!(executor.index(), 2);
    // `[` is tested again and lets the loop run once more.
    assert_eq!(executor.step(&tokens), Action::Proceed);
    assert_eq!(executor.index(), 3);
}

#[test]
fn input_is_echoed_unchanged() {
    for byte in [0u8, 1, 65, 127, 128, 255] {
        let result = run(",.", &[byte]);
        assert_eq!(result.output, vec![byte]);
        assert_eq!(result.consumed, 1);
    }
}

#[test]
fn read_waits_until_a_byte_is_handed_in() {
    let tokens = parse(&commands(",.")).unwrap();
    let mut executor = Executor::new();
    assert_eq!(executor.step(&tokens), Action::Read);
    assert_eq!(executor.index(), 0);
    assert_eq!(executor.step(&tokens), Action::Read);
    assert_eq!(executor.index(), 0);
    assert!(executor.input(&tokens, 42));
    assert_eq!(executor.index(), 1);
    assert_eq!(executor.memory().read(0), 42);
    assert_eq!(executor.step(&tokens), Action::Print(42));
    assert_eq!(executor.index(), 2);
}

#[test]
fn byte_handed_in_unasked_is_refused() {
    let tokens = parse(&commands("+.")).unwrap();
    let mut executor = Executor::new();
    assert!(!executor.input(&tokens, 9));
    assert_eq!(executor.index(), 0);
    assert_eq!(executor.memory().read(0), 0);
    assert_eq!(executor.step(&tokens), Action::Proceed);
    assert_eq!(executor.step(&tokens), Action::Print(1));
    assert!(!executor.input(&tokens, 9));
    assert_eq!(executor.index(), 2);
    assert_eq!(executor.memory().read(0), 1);
}

#[test]
fn cursor_moves_into_negative_addresses() {
    let result = run("<<<+++>>>>>++<<.", &[]);
    assert_eq!(result.executor.pointer(), 0);
    assert_eq!(result.executor.memory().read(-3), 3);
    assert_eq!(result.executor.memory().read(2), 2);
    assert_eq!(result.output, vec![0]);
    let result = run("<-<--", &[]);
    assert_eq!(result.executor.pointer(), -2);
    assert_eq!(result.executor.memory().read(-1), 255);
    assert_eq!(result.executor.memory().read(-2), 254);
}

#[test]
fn cursor_crosses_the_dense_region() {
    let mut program = String::from("+");
    program.push_str(&">+".repeat(1030));
    let result = run(&program, &[]);
    assert_eq!(result.executor.pointer(), 1030);
    for address in 0..=1030 {
        assert_eq!(result.executor.memory().read(address), 1);
    }
    assert_eq!(result.executor.memory().read(1031), 0);
}

#[test]
fn nested_loops_multiply() {
    // 6 * 7 by repeated addition, the product in cell 1.
    let result = run("++++++[>+++++++<-]>.", &[]);
    assert_eq!(result.output, vec![42]);
}

#[test]
fn input_loop_copies_until_zero() {
    let result = run(",[.,]", &[104, 105, 33, 0]);
    assert_eq!(result.output, vec![104, 105, 33]);
    assert_eq!(result.consumed, 4);
}

#[test]
fn moves_are_in_reach_away_from_the_limits() {
    let executor = Executor::new();
    assert!(executor.can_step(&[Token::Left]));
    assert!(executor.can_step(&[Token::Right]));
    assert!(executor.can_step(&[]));
}

#[test]
fn moves_past_the_limits_are_out_of_reach() {
    let lowest = Executor::from_parts(Memory::new(), i32::MIN, 0);
    assert!(!lowest.can_step(&[Token::Left]));
    assert!(lowest.can_step(&[Token::Right]));
    assert!(lowest.can_step(&[Token::Plus]));
    assert!(lowest.can_step(&[Token::Print]));
    let highest = Executor::from_parts(Memory::new(), i32::MAX, 0);
    assert!(highest.can_step(&[Token::Left]));
    assert!(!highest.can_step(&[Token::Right]));
    assert!(highest.can_step(&[Token::Minus]));
    // Only the next token counts.
    let onward = Executor::from_parts(Memory::new(), i32::MAX, 1);
    assert!(onward.can_step(&[Token::Right, Token::Left]));
    assert!(onward.can_step(&[Token::Right]));
}

#[test]
fn cells_at_the_limits_are_cells_like_any_other() {
    let tokens = [Token::Minus, Token::Right, Token::Plus, Token::Print];
    let mut executor = Executor::from_parts(Memory::new(), i32::MAX - 1, 0);
    assert_eq!(executor.step(&tokens), Action::Proceed);
    assert_eq!(executor.step(&tokens), Action::Proceed);
    assert_eq!(executor.pointer(), i32::MAX);
    assert_eq!(executor.step(&tokens), Action::Proceed);
    assert_eq!(executor.step(&tokens), Action::Print(1));
    assert_eq!(executor.memory().read(i32::MAX - 1), 255);
    assert_eq!(executor.memory().read(i32::MAX), 1);

    let tokens = [Token::Left, Token::Minus];
    let mut executor = Executor::from_parts(Memory::new(), i32::MIN + 1, 0);
    assert_eq!(executor.step(&tokens), Action::Proceed);
    assert_eq!(executor.step(&tokens), Action::Proceed);
    assert_eq!(executor.pointer(), i32::MIN);
    assert_eq!(executor.memory().read(i32::MIN), 255);
}

#[test]
fn machine_taken_up_from_parts_goes_on_from_there() {
    let mut memory = Memory::new();
    memory.write(-2, 3);
    let tokens = parse(&commands("+++[-].")).unwrap();
    let mut executor = Executor::from_parts(memory, -2, 3);
    assert_eq!(executor.index(), 3);
    assert_eq!(executor.pointer(), -2);
    let mut steps = 0;
    let mut output = Vec::new();
    loop {
        match executor.step(&tokens) {
            Action::Stop => break,
            Action::Print(byte) => output.push(byte),
            _ => {}
        }
        steps += 1;
    }
    // Three rounds of `[`, `-`, `]`, the last `]` falling through, then `.`.
    assert_eq!(steps, 3 * 3 + 1);
    assert_eq!(output, vec![0]);
    assert_eq!(executor.memory().read(-2), 0);
    assert_eq!(executor.memory().read(0), 0);
}

#[test]
fn instruction_pointer_past_the_end_stops() {
    let tokens = [Token::Plus];
    let mut executor = Executor::from_parts(Memory::new(), 0, 5);
    assert_eq!(executor.step(&tokens), Action::Stop);
    assert_eq!(executor.index(), 5);
    assert_eq!(executor.memory().read(0), 0);
    assert!(!executor.input(&tokens, 1));
}

#[test]
fn state_carries_over_to_an_extended_program() {
    let mut code = commands("++");
    let mut tokens = parse(&code).unwrap();
    let mut executor = Executor::new();
    while executor.index() < tokens.len() {
        assert_eq!(executor.step(&tokens), Action::Proceed);
    }
    assert_eq!(executor.step(&tokens), Action::Stop);
    code.extend(commands("[->+<]>."));
    tokens = parse(&code).unwrap();
    let mut output = Vec::new();
    while executor.index() < tokens.len() {
        if let Action::Print(byte) = executor.step(&tokens) {
            output.push(byte);
        }
    }
    assert_eq!(output, vec![2]);
    assert_eq!(executor.pointer(), 1);
    assert_eq!(executor.memory().read(0), 0);
}
