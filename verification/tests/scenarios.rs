use rusty_forth::interp::{simulate_program, Halt};
use rusty_forth::lexer::{load_program_from_file, LoadError};
use rusty_forth::token::{ErrorKind, Token};

fn load(source: &str) -> Result<Vec<Token>, LoadError> {
    let lines: Vec<String> = source.lines().map(|l| l.to_string()).collect();
    load_program_from_file("prog.rf", &lines)
}

fn run(source: &str) -> (Halt, Vec<i32>) {
    let program = load(source).expect("program loads");
    simulate_program(program, 10_000)
}

#[test]
fn adds_and_prints() {
    assert_eq!(run("1 2 + ."), (Halt::Finished, vec![3]));
}

#[test]
fn subtracts_in_source_order() {
    assert_eq!(run("5 3 - ."), (Halt::Finished, vec![2]));
    assert_eq!(run("3 5 - ."), (Halt::Finished, vec![-2]));
}

#[test]
fn if_else_takes_true_branch() {
    assert_eq!(run("1 if 2 . else 3 . end"), (Halt::Finished, vec![2]));
}

#[test]
fn if_else_takes_false_branch() {
    assert_eq!(run("0 if 2 . else 3 . end"), (Halt::Finished, vec![3]));
}

#[test]
fn greater_of_equal_values_is_zero() {
    assert_eq!(run("3 dup > ."), (Halt::Finished, vec![0]));
}

#[test]
fn greater_follows_source_order() {
    assert_eq!(run("4 3 > ."), (Halt::Finished, vec![1]));
    assert_eq!(run("3 4 > ."), (Halt::Finished, vec![0]));
}

#[test]
fn equal_is_symmetric_on_values() {
    assert_eq!(run("7 7 = ."), (Halt::Finished, vec![1]));
    assert_eq!(run("7 8 = ."), (Halt::Finished, vec![0]));
    assert_eq!(run("8 7 = ."), (Halt::Finished, vec![0]));
}

#[test]
fn counted_loop_prints_each_value_once() {
    let (halt, output) = run("0 while dup 3 > 0 = do dup . 1 + end");
    assert_eq!(halt, Halt::Finished);
    assert_eq!(output, vec![0, 1, 2, 3]);
}

#[test]
fn loop_with_false_guard_runs_no_body() {
    assert_eq!(run("while 0 do 9 . end 5 ."), (Halt::Finished, vec![5]));
}

#[test]
fn false_if_without_else_skips_body() {
    assert_eq!(run("7 . 0 if 1 . 2 . end 8 ."), (Halt::Finished, vec![7, 8]));
    assert_eq!(run("7 . 8 ."), (Halt::Finished, vec![7, 8]));
}

#[test]
fn nested_blocks_run() {
    let source = "0 while dup 4 > 0 = do dup 2 = if 99 . else dup . end 1 + end";
    assert_eq!(run(source), (Halt::Finished, vec![0, 1, 99, 3, 4]));
}

#[test]
fn stray_end_is_a_structural_error() {
    match load("1 2 end") {
        Err(LoadError::Structure(d)) => {
            assert_eq!(d.kind, ErrorKind::StackEmpty);
            assert_eq!(d.file_path, "prog.rf");
            assert_eq!(d.row, 1);
            assert_eq!(d.col, 5);
        }
        other => panic!("unexpected: {:?}", other),
    }
}

#[test]
fn program_over_several_lines() {
    assert_eq!(run("1 2\n+\n  .\n"), (Halt::Finished, vec![3]));
}

#[test]
fn addition_wraps_around() {
    assert_eq!(run("2147483647 1 + ."), (Halt::Finished, vec![-2147483648]));
    assert_eq!(run("-2147483648 1 - ."), (Halt::Finished, vec![2147483647]));
}

#[test]
fn endless_loop_runs_out_of_steps() {
    let program = load("while 1 do end").expect("program loads");
    let (halt, output) = simulate_program(program, 1000);
    assert_eq!(halt, Halt::OutOfSteps);
    assert_eq!(output, Vec::<i32>::new());
}

#[test]
fn underflow_is_reported_at_the_token() {
    let (halt, output) = run("1 .\n2 +");
    match halt {
        Halt::Faulted(d) => {
            assert_eq!(d.kind, ErrorKind::StackEmpty);
            assert_eq!(d.row, 2);
            assert_eq!(d.col, 3);
            assert_eq!(d.file_path, "prog.rf");
        }
        other => panic!("unexpected: {:?}", other),
    }
    assert_eq!(output, vec![1]);
}
