use brainfuck_compiler::interp::{execute, ExecStatus, RuntimeError, State};
use brainfuck_compiler::lexer::{lexicon_parser, LexicalInst};
use brainfuck_compiler::parser::{parse_instructions, Instruction, ParseError};

fn run(src: &str, input: Vec<u8>, tape_len: usize, start: usize, fuel: u64) -> (ExecStatus, State) {
    let tokens = lexicon_parser(String::from(src));
    let program = parse_instructions(tokens).expect("program should be balanced");
    assert!(start < tape_len);
    let mut st = State::new(tape_len, start, input);
    let status = execute(&program, &mut st, fuel);
    (status, st)
}

fn count_leaves(program: &[Instruction]) -> usize {
    let mut total = 0;
    for inst in program {
        match inst {
            Instruction::Loop(body) => total += count_leaves(body),
            _ => total += 1,
        }
    }
    total
}

#[test]
fn filter_keeps_only_commands_in_order() {
    let tokens = lexicon_parser(String::from("a+b>c"));
    assert_eq!(tokens, vec![LexicalInst::Inc, LexicalInst::MovRight]);
}

#[test]
fn filter_maps_every_command_character() {
    let tokens = lexicon_parser(String::from("><+-.,[]"));
    assert_eq!(
        tokens,
        vec![
            LexicalInst::MovRight,
            LexicalInst::MovLeft,
            LexicalInst::Inc,
            LexicalInst::Dec,
            LexicalInst::Write,
            LexicalInst::Read,
            LexicalInst::IniLoop,
            LexicalInst::EndLoop,
        ]
    );
}

#[test]
fn filter_of_command_free_text_is_empty() {
    let tokens = lexicon_parser(String::from("no commands here!\n\t 123"));
    assert_eq!(tokens, vec![]);
}

#[test]
fn sole_closing_bracket_fails() {
    let r = parse_instructions(lexicon_parser(String::from("]")));
    assert_eq!(r.unwrap_err(), ParseError::UnmatchedClosing { index: 0 });
}

#[test]
fn sole_opening_bracket_fails() {
    let r = parse_instructions(lexicon_parser(String::from("[")));
    assert_eq!(r.unwrap_err(), ParseError::UnmatchedOpening { index: 0 });
}

#[test]
fn empty_loop_parses_to_one_empty_loop_node() {
    let program = parse_instructions(lexicon_parser(String::from("[]"))).unwrap();
    assert_eq!(program.len(), 1);
    match &program[0] {
        Instruction::Loop(body) => assert_eq!(body.len(), 0),
        _ => panic!("expected a loop node"),
    }
}

#[test]
fn closing_bracket_error_reports_token_index() {
    // the lexer drops the comment characters, so the close is token 1
    let r = parse_instructions(lexicon_parser(String::from("+ comment ]")));
    assert_eq!(r.unwrap_err(), ParseError::UnmatchedClosing { index: 1 });
}

#[test]
fn opening_bracket_error_reports_innermost_unclosed() {
    let r = parse_instructions(lexicon_parser(String::from("[][")));
    assert_eq!(r.unwrap_err(), ParseError::UnmatchedOpening { index: 2 });
    let r = parse_instructions(lexicon_parser(String::from("[[")));
    assert_eq!(r.unwrap_err(), ParseError::UnmatchedOpening { index: 1 });
    // the inner pair is matched, so the unclosed loop is the outer one
    let r = parse_instructions(lexicon_parser(String::from("[[]")));
    assert_eq!(r.unwrap_err(), ParseError::UnmatchedOpening { index: 0 });
    let r = parse_instructions(lexicon_parser(String::from("[][[")));
    assert_eq!(r.unwrap_err(), ParseError::UnmatchedOpening { index: 3 });
}

#[test]
fn closing_error_takes_precedence_over_later_unclosed_opens() {
    let r = parse_instructions(lexicon_parser(String::from("][[")));
    assert_eq!(r.unwrap_err(), ParseError::UnmatchedClosing { index: 0 });
}

#[test]
fn nested_loops_parse_to_nested_nodes() {
    let program = parse_instructions(lexicon_parser(String::from("+[>[-]<]"))).unwrap();
    assert_eq!(program.len(), 2);
    assert!(matches!(program[0], Instruction::Inc));
    match &program[1] {
        Instruction::Loop(body) => {
            assert_eq!(body.len(), 3);
            assert!(matches!(body[0], Instruction::MovRight));
            match &body[1] {
                Instruction::Loop(inner) => {
                    assert_eq!(inner.len(), 1);
                    assert!(matches!(inner[0], Instruction::Dec));
                },
                _ => panic!("expected an inner loop node"),
            }
            assert!(matches!(body[2], Instruction::MovLeft));
        },
        _ => panic!("expected a loop node"),
    }
}

#[test]
fn balanced_parse_keeps_leaf_count() {
    let tokens = lexicon_parser(String::from("++>+++++[<+>-]<."));
    let non_bracket = tokens
        .iter()
        .filter(|t| !matches!(t, LexicalInst::IniLoop | LexicalInst::EndLoop))
        .count();
    let program = parse_instructions(tokens).unwrap();
    assert_eq!(count_leaves(&program), non_bracket);
}

#[test]
fn increments_wrap_around_at_256() {
    let src: String = std::iter::repeat('+').take(256).collect();
    let (status, st) = run(&src, vec![], 8, 0, 100);
    assert_eq!(status, ExecStatus::Finished);
    assert_eq!(st.tape[0], 0);
}

#[test]
fn decrement_of_zero_wraps_to_255() {
    let (status, st) = run("-", vec![], 8, 0, 100);
    assert_eq!(status, ExecStatus::Finished);
    assert_eq!(st.tape[0], 255);
}

#[test]
fn clearing_loop_terminates_and_zeroes_cell() {
    let (status, st) = run("+[-]", vec![], 8, 0, 100);
    assert_eq!(status, ExecStatus::Finished);
    assert_eq!(st.tape[0], 0);
}

#[test]
fn increment_transfer_sums_into_left_cell() {
    let (status, st) = run("++>+++++[<+>-]<.", vec![], 8, 0, 1000);
    assert_eq!(status, ExecStatus::Finished);
    assert_eq!(st.tape[0], 7);
    assert_eq!(st.output, vec![7]);
}

#[test]
fn read_then_write_echoes_the_input_byte() {
    let (status, st) = run(",.", vec![65], 8, 0, 100);
    assert_eq!(status, ExecStatus::Finished);
    assert_eq!(st.output, vec![65]);
}

#[test]
fn moving_right_off_the_tape_fails() {
    let (status, _) = run(">>", vec![], 2, 0, 100);
    assert_eq!(status, ExecStatus::Failed(RuntimeError::PointerOutOfRange));
}

#[test]
fn moving_left_off_the_tape_fails() {
    let (status, st) = run("<", vec![], 2, 0, 100);
    assert_eq!(status, ExecStatus::Failed(RuntimeError::PointerOutOfRange));
    assert_eq!(st.pointer, 0);
}

#[test]
fn reading_exhausted_input_fails() {
    let (status, _) = run(",,", vec![65], 8, 0, 100);
    assert_eq!(status, ExecStatus::Failed(RuntimeError::InputExhausted));
}

#[test]
fn empty_loop_body_on_nonzero_cell_runs_out_of_steps() {
    let (status, _) = run("+[]", vec![], 8, 0, 5);
    assert_eq!(status, ExecStatus::OutOfSteps);
}

#[test]
fn larger_budget_gives_the_same_completed_outcome() {
    let (status_small, st_small) = run("++>+++++[<+>-]<.", vec![], 8, 0, 7);
    let (status_big, st_big) = run("++>+++++[<+>-]<.", vec![], 8, 0, 1_000_000);
    assert_eq!(status_small, ExecStatus::Finished);
    assert_eq!(status_big, ExecStatus::Finished);
    assert_eq!(st_small.tape, st_big.tape);
    assert_eq!(st_small.output, st_big.output);
}

#[test]
fn interior_starting_offset_is_respected() {
    let (status, st) = run("+<->.", vec![], 30000, 1000, 100);
    assert_eq!(status, ExecStatus::Finished);
    assert_eq!(st.tape[1000], 1);
    assert_eq!(st.tape[999], 255);
    assert_eq!(st.output, vec![1]);
    assert_eq!(st.pointer, 1000);
}

#[test]
fn output_before_a_runtime_error_is_kept() {
    let (status, st) = run("+.<", vec![], 4, 0, 100);
    assert_eq!(status, ExecStatus::Failed(RuntimeError::PointerOutOfRange));
    assert_eq!(st.output, vec![1]);
}

#[test]
fn read_overwrites_the_current_cell() {
    let (status, st) = run("+++,.", vec![9], 4, 0, 100);
    assert_eq!(status, ExecStatus::Finished);
    assert_eq!(st.tape[0], 9);
    assert_eq!(st.output, vec![9]);
}
