use rusty_forth::interp::{run_steps, simulate_program, step_program, Halt, Machine};
use rusty_forth::token::{
    doo, dump, dup, elze, end, equal, gt, iff, minus, plus, push, wile, Diagnostic, ErrorKind,
    Token, Word,
};

fn tokens(words: &[Word]) -> Vec<Token> {
    let mut out = Vec::new();
    for (i, w) in words.iter().enumerate() {
        out.push(Token { file_path: "m.rf".to_string(), col: i + 1, row: 3, word: *w });
    }
    out
}

fn machine(pc: usize, stack: &[i32]) -> Machine {
    Machine { pc, stack: stack.to_vec(), output: vec![40] }
}

fn after(word: Word, stack: &[i32]) -> Machine {
    let program = tokens(&[push(0), word]);
    let mut m = machine(1, stack);
    step_program(&program, &mut m).expect("steps");
    m
}

fn fault(word: Word, stack: &[i32]) -> Diagnostic {
    let program = tokens(&[push(0), word]);
    let mut m = machine(1, stack);
    let before = m.clone();
    let d = step_program(&program, &mut m).expect_err("faults");
    assert_eq!(m, before);
    d
}

#[test]
fn new_machine_is_at_the_start() {
    assert_eq!(Machine::new(), Machine { pc: 0, stack: vec![], output: vec![] });
}

#[test]
fn push_adds_a_value() {
    assert_eq!(after(push(-3), &[1]), Machine { pc: 2, stack: vec![1, -3], output: vec![40] });
}

#[test]
fn plus_adds_with_wrap() {
    assert_eq!(after(plus(), &[9, 2, 3]).stack, vec![9, 5]);
    assert_eq!(after(plus(), &[i32::MAX, 1]).stack, vec![i32::MIN]);
}

#[test]
fn minus_is_left_minus_right() {
    assert_eq!(after(minus(), &[9, 5, 3]).stack, vec![9, 2]);
    assert_eq!(after(minus(), &[3, 5]).stack, vec![-2]);
    assert_eq!(after(minus(), &[i32::MIN, 1]).stack, vec![i32::MAX]);
}

#[test]
fn equal_gives_one_or_zero() {
    assert_eq!(after(equal(), &[4, 4]).stack, vec![1]);
    assert_eq!(after(equal(), &[4, 5]).stack, vec![0]);
    assert_eq!(after(equal(), &[5, 4]).stack, vec![0]);
}

#[test]
fn greater_compares_in_source_order() {
    assert_eq!(after(gt(), &[5, 4]).stack, vec![1]);
    assert_eq!(after(gt(), &[4, 5]).stack, vec![0]);
    assert_eq!(after(gt(), &[4, 4]).stack, vec![0]);
    assert_eq!(after(gt(), &[-1, -2]).stack, vec![1]);
}

#[test]
fn dup_and_dump() {
    assert_eq!(after(dup(), &[1, 7]), Machine { pc: 2, stack: vec![1, 7, 7], output: vec![40] });
    assert_eq!(after(dump(), &[1, 7]), Machine { pc: 2, stack: vec![1], output: vec![40, 7] });
}

#[test]
fn conditional_words_jump_on_zero() {
    assert_eq!(after(iff(Some(9)), &[5, 0]), Machine { pc: 9, stack: vec![5], output: vec![40] });
    assert_eq!(after(iff(Some(9)), &[5, 2]), Machine { pc: 2, stack: vec![5], output: vec![40] });
    assert_eq!(after(doo(Some(0)), &[0]), Machine { pc: 0, stack: vec![], output: vec![40] });
    assert_eq!(after(doo(Some(0)), &[-1]), Machine { pc: 2, stack: vec![], output: vec![40] });
    assert_eq!(after(iff(None), &[1]).pc, 2);
}

#[test]
fn unconditional_words_always_jump() {
    assert_eq!(after(elze(Some(7)), &[3]), Machine { pc: 7, stack: vec![3], output: vec![40] });
    assert_eq!(after(end(Some(0)), &[]), Machine { pc: 0, stack: vec![], output: vec![40] });
    assert_eq!(after(end(Some(2)), &[1]).pc, 2);
    assert_eq!(after(wile(), &[1]), Machine { pc: 2, stack: vec![1], output: vec![40] });
}

#[test]
fn underflow_faults_and_leaves_the_machine() {
    for word in [plus(), minus(), equal(), gt()] {
        assert_eq!(fault(word, &[]).kind, ErrorKind::StackEmpty);
        assert_eq!(fault(word, &[1]).kind, ErrorKind::StackEmpty);
    }
    for word in [dump(), dup(), iff(Some(0)), doo(Some(0))] {
        let d = fault(word, &[]);
        assert_eq!(
            d,
            Diagnostic { kind: ErrorKind::StackEmpty, file_path: "m.rf".to_string(), row: 3, col: 2 }
        );
    }
}

#[test]
fn missing_target_faults() {
    assert_eq!(fault(iff(None), &[0]).kind, ErrorKind::MissingTarget);
    assert_eq!(fault(doo(None), &[0]).kind, ErrorKind::MissingTarget);
    assert_eq!(fault(elze(None), &[]).kind, ErrorKind::MissingTarget);
    assert_eq!(fault(end(None), &[1]).kind, ErrorKind::MissingTarget);
    assert_eq!(fault(iff(None), &[]).kind, ErrorKind::StackEmpty);
}

#[test]
fn run_stops_when_the_budget_is_used() {
    let program = tokens(&[push(1), dump(), push(2), dump()]);
    let mut m = Machine::new();
    assert_eq!(run_steps(&program, &mut m, 3), Halt::OutOfSteps);
    assert_eq!(m, Machine { pc: 3, stack: vec![2], output: vec![1] });
    assert_eq!(run_steps(&program, &mut m, 1), Halt::Finished);
    assert_eq!(m, Machine { pc: 4, stack: vec![], output: vec![1, 2] });
    assert_eq!(run_steps(&program, &mut m, 0), Halt::Finished);
}

#[test]
fn run_keeps_output_printed_before_a_fault() {
    let program = tokens(&[push(1), dump(), plus(), push(2), dump()]);
    let (halt, output) = simulate_program(program, 100);
    assert_eq!(
        halt,
        Halt::Faulted(Diagnostic {
            kind: ErrorKind::StackEmpty,
            file_path: "m.rf".to_string(),
            row: 3,
            col: 3
        })
    );
    assert_eq!(output, vec![1]);
}

#[test]
fn jump_past_the_end_finishes() {
    let program = tokens(&[end(Some(50)), push(1), dump()]);
    assert_eq!(simulate_program(program, 10), (Halt::Finished, vec![]));
}

#[test]
fn empty_program_finishes_at_once() {
    assert_eq!(simulate_program(Vec::new(), 0), (Halt::Finished, vec![]));
}

#[test]
fn backward_jump_to_zero_runs() {
    let program = tokens(&[push(1), dump(), end(Some(0))]);
    let (halt, output) = simulate_program(program, 8);
    assert_eq!(halt, Halt::OutOfSteps);
    assert_eq!(output, vec![1, 1, 1]);
}

#[test]
fn step_behind_the_program_changes_nothing() {
    let program = tokens(&[push(1)]);
    let mut m = machine(1, &[4]);
    assert_eq!(step_program(&program, &mut m), Ok(()));
    assert_eq!(m, machine(1, &[4]));
    let mut m = machine(9, &[]);
    assert_eq!(step_program(&program, &mut m), Ok(()));
    assert_eq!(m, machine(9, &[]));
}
