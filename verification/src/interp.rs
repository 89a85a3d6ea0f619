//! The interpreter: a value stack, a program counter and the printed values.
//!
//! Arithmetic wraps around in 32 bits. A jump sets the program counter to the
//! target itself; a counter at or past the end of the program ends the run.

use vstd::prelude::*;
use crate::token::{Word, Token, ErrorKind, Diagnostic, diagnostic_at, diagnose};

verus! {

/// The state of a run as plain values.
pub struct State {
    pub pc: int,
    pub stack: Seq<i32>,
    pub output: Seq<i32>,
}

/// The interpreter's state: the position of the next token, the value stack
/// (top last) and the values printed so far, oldest first.
#[derive(Debug, Clone, PartialEq, Eq)]
pub struct Machine {
    pub pc: usize,
    pub stack: Vec<i32>,
    pub output: Vec<i32>,
}

impl View for Machine {
    type V = State;

    open spec fn view(&self) -> State {
        State { pc: self.pc as int, stack: self.stack@, output: self.output@ }
    }
}

/// How a run ended.
#[derive(Debug, Clone, PartialEq, Eq)]
pub enum Halt {
    /// The program counter left the program.
    Finished,
    /// The step budget was used up before the program ended.
    OutOfSteps,
    /// A token could not be executed.
    Faulted(Diagnostic),
}

/// The state before the first step.
pub open spec fn initial() -> State {
    State { pc: 0, stack: Seq::empty(), output: Seq::empty() }
}

/// How many values a word pops.
pub open spec fn operands(w: Word) -> nat {
    match w {
        Word::OpPlus | Word::OpMinus | Word::OpEqual | Word::OpGt => 2,
        Word::OpDump | Word::OpDup | Word::OpIf(_) | Word::OpDo(_) => 1,
        _ => 0,
    }
}

/// 1 for true, 0 for false.
pub open spec fn truth(b: bool) -> i32 {
    if b {
        1i32
    } else {
        0i32
    }
}

/// Where control goes when the word at `pc` transfers to `target`.
pub open spec fn jump(program: Seq<Token>, s: State, stack: Seq<i32>, target: Option<usize>) -> Result<
    State,
    Diagnostic,
> {
    match target {
        Some(t) => Ok(State { pc: t as int, stack, output: s.output }),
        None => Err(diagnostic_at(ErrorKind::MissingTarget, program[s.pc])),
    }
}

/// One step from `s`, whose counter is inside `program`: the next state, or
/// the fault raised at the token under the counter.
pub open spec fn step(program: Seq<Token>, s: State) -> Result<State, Diagnostic> {
    let w = program[s.pc].word;
    let n = s.stack.len() as int;
    let next = s.pc + 1;
    if n < operands(w) {
        Err(diagnostic_at(ErrorKind::StackEmpty, program[s.pc]))
    } else {
        let a = s.stack[n - 1];
        let b = s.stack[n - 2];
        let rest1 = s.stack.take(n - 1);
        let rest2 = s.stack.take(n - 2);
        match w {
            Word::OpPush(v) => Ok(State { pc: next, stack: s.stack.push(v), output: s.output }),
            Word::OpPlus => Ok(
                State { pc: next, stack: rest2.push(a.wrapping_add(b)), output: s.output },
            ),
            Word::OpMinus => Ok(
                State { pc: next, stack: rest2.push(b.wrapping_sub(a)), output: s.output },
            ),
            Word::OpEqual => Ok(
                State { pc: next, stack: rest2.push(truth(a == b)), output: s.output },
            ),
            Word::OpGt => Ok(State { pc: next, stack: rest2.push(truth(b > a)), output: s.output }),
            Word::OpDump => Ok(State { pc: next, stack: rest1, output: s.output.push(a) }),
            Word::OpDup => Ok(State { pc: next, stack: s.stack.push(a), output: s.output }),
            Word::OpIf(t) | Word::OpDo(t) => if a == 0 {
                jump(program, s, rest1, t)
            } else {
                Ok(State { pc: next, stack: rest1, output: s.output })
            },
            Word::OpElse(t) | Word::OpEnd(t) => jump(program, s, s.stack, t),
            Word::OpWhile => Ok(State { pc: next, stack: s.stack, output: s.output }),
        }
    }
}

/// The state reached from `s` in at most `steps` steps and how the run
/// ended there. A fault leaves the state as it was before the faulting step.
pub open spec fn run(program: Seq<Token>, s: State, steps: nat) -> (State, Halt)
    decreases steps,
{
    if !(0 <= s.pc < program.len()) {
        (s, Halt::Finished)
    } else if steps == 0 {
        (s, Halt::OutOfSteps)
    } else {
        match step(program, s) {
            Err(d) => (s, Halt::Faulted(d)),
            Ok(s2) => run(program, s2, (steps - 1) as nat),
        }
    }
}

impl Machine {
    /// A machine at the start of a program.
    pub fn new() -> (m: Machine)
        ensures
            m@ == initial(),
    {
        Machine { pc: 0, stack: Vec::new(), output: Vec::new() }
    }

    /// Pops `count` values, pushes `value` and moves to the next token.
    fn replace_top(&mut self, count: usize, value: i32)
        requires
            count <= old(self).stack@.len(),
            old(self).pc < usize::MAX,
        ensures
            final(self)@ == (State {
                pc: old(self).pc + 1,
                stack: old(self).stack@.take(old(self).stack@.len() - count).push(value),
                output: old(self).output@,
            }),
    {
        let keep: usize = self.stack.len() - count;
        self.stack.truncate(keep);
        self.stack.push(value);
        self.pc = self.pc + 1;
    }

    /// Follows `target`, or reports that it is missing.
    fn go(&mut self, program: &Vec<Token>, target: Option<usize>) -> (r: Result<(), Diagnostic>)
        requires
            old(self).pc < program@.len(),
        ensures
            match jump(program@, old(self)@, old(self).stack@, target) {
                Ok(s2) => r is Ok && final(self)@ == s2,
                Err(d) => r == Err::<(), Diagnostic>(d) && final(self)@ == old(self)@,
            },
    {
        match target {
            Some(t) => {
                self.pc = t;
                Ok(())
            },
            None => Err(diagnose(ErrorKind::MissingTarget, &program[self.pc])),
        }
    }
}

/// Executes the token under the counter of `m`. On a fault `m` is
/// unchanged, and so is a machine whose counter has left the program.
pub fn step_program(program: &Vec<Token>, m: &mut Machine) -> (r: Result<(), Diagnostic>)
    ensures
        old(m).pc >= program@.len() ==> r is Ok && final(m)@ == old(m)@,
        old(m).pc < program@.len() ==> match step(program@, old(m)@) {
            Ok(s2) => r is Ok && final(m)@ == s2,
            Err(d) => r == Err::<(), Diagnostic>(d) && final(m)@ == old(m)@,
        },
{
    if m.pc >= program.len() {
        return Ok(());
    }
    let token = &program[m.pc];
    let n: usize = m.stack.len();
    let needed: usize = match token.word {
        Word::OpPlus | Word::OpMinus | Word::OpEqual | Word::OpGt => 2,
        Word::OpDump | Word::OpDup | Word::OpIf(_) | Word::OpDo(_) => 1,
        _ => 0,
    };
    if n < needed {
        return Err(diagnose(ErrorKind::StackEmpty, token));
    }
    let a: i32 = if n >= 1 { m.stack[n - 1] } else { 0 };
    let b: i32 = if n >= 2 { m.stack[n - 2] } else { 0 };
    assert(m.stack@.take(n as int) == m.stack@);
    match token.word {
        Word::OpPush(v) => m.replace_top(0, v),
        Word::OpPlus => m.replace_top(2, a.wrapping_add(b)),
        Word::OpMinus => m.replace_top(2, b.wrapping_sub(a)),
        Word::OpEqual => m.replace_top(2, if a == b { 1 } else { 0 }),
        Word::OpGt => m.replace_top(2, if b > a { 1 } else { 0 }),
        Word::OpDup => m.replace_top(0, a),
        Word::OpDump => {
            m.stack.truncate(n - 1);
            m.output.push(a);
            m.pc = m.pc + 1;
        },
        Word::OpIf(t) | Word::OpDo(t) => {
            if a == 0 {
                match t {
                    Some(target) => {
                        m.stack.truncate(n - 1);
                        m.pc = target;
                    },
                    None => {
                        return Err(diagnose(ErrorKind::MissingTarget, token));
                    },
                }
            } else {
                m.stack.truncate(n - 1);
                m.pc = m.pc + 1;
            }
        },
        Word::OpElse(t) | Word::OpEnd(t) => {
            return m.go(program, t);
        },
        Word::OpWhile => {
            m.pc = m.pc + 1;
        },
    }
    Ok(())
}

/// Runs `m` on `program` for at most `max_steps` steps.
pub fn run_steps(program: &Vec<Token>, m: &mut Machine, max_steps: u64) -> (halt: Halt)
    ensures
        (final(m)@, halt) == run(program@, old(m)@, max_steps as nat),
{
    let mut left: u64 = max_steps;
    loop
        invariant
            run(program@, m@, left as nat) == run(program@, old(m)@, max_steps as nat),
        decreases left,
    {
        if m.pc >= program.len() {
            return Halt::Finished;
        }
        if left == 0 {
            return Halt::OutOfSteps;
        }
        match step_program(program, m) {
            Err(d) => {
                return Halt::Faulted(d);
            },
            Ok(_) => {},
        }
        left = left - 1;
    }
}

/// Runs `program` from the start for at most `max_steps` steps and returns
/// how the run ended with the values printed, oldest first.
pub fn simulate_program(program: Vec<Token>, max_steps: u64) -> (r: (Halt, Vec<i32>))
    ensures
        r.0 == run(program@, initial(), max_steps as nat).1,
        r.1@ == run(program@, initial(), max_steps as nat).0.output,
{
    let mut m = Machine::new();
    let halt = run_steps(&program, &mut m, max_steps);
    (halt, m.output)
}

} // verus!
