//! Laws that relate resolution and interpretation.

use vstd::prelude::*;
use crate::token::{Word, Token, Diagnostic};
use crate::resolve::{well_nested, resolved_from, opener, lemma_opener_precedes, linked, closes, law_every_block_closed, same_kind};
use crate::interp::{State, step, truth, run};
use crate::codegen::{Transfer, transfer_of};

verus! {

/// The position that a control word transfers to.
pub open spec fn target_of(w: Word) -> Option<usize> {
    match w {
        Word::OpIf(t) => t,
        Word::OpElse(t) => t,
        Word::OpEnd(t) => t,
        Word::OpDo(t) => t,
        _ => None,
    }
}

/// The control words that carry a target: all but `while`.
pub open spec fn carries_target(w: Word) -> bool {
    w is OpIf || w is OpElse || w is OpEnd || w is OpDo
}

/// In a resolved program every jump target is a token position or the
/// program's length, the exit: each is an address that the interpreter
/// can continue at and a label that the generated text defines. Forward
/// targets lie behind their word; only an `end` goes back, to its `while`.
pub proof fn law_targets_in_range(source: Seq<Token>, program: Seq<Token>, i: int)
    requires
        source.len() <= usize::MAX,
        well_nested(source),
        resolved_from(source, program),
        0 <= i < source.len(),
        carries_target(source[i].word),
    ensures
        target_of(program[i].word) is Some,
        target_of(program[i].word)->Some_0 <= program.len(),
        !(program[i].word is OpEnd) ==> i < target_of(program[i].word)->Some_0,
        program[i].word is OpEnd ==> target_of(program[i].word)->Some_0 == i + 1 || (
        target_of(program[i].word)->Some_0 < i && program[target_of(
            program[i].word,
        )->Some_0 as int].word is OpWhile),
{
    assert(same_kind(source[i].word, program[i].word));
    if source[i].word is OpEnd {
        lemma_opener_precedes(source, i);
        assert(linked(source, program, i));
        let p = opener(source, i) as int;
        if source[p].word is OpDo {
            lemma_opener_precedes(source, p);
            let w = opener(source, p) as int;
            assert(same_kind(source[w].word, program[w].word));
        }
    } else {
        law_every_block_closed(source, i);
        let j = choose|j: int| #[trigger] closes(source, i, j);
        lemma_opener_precedes(source, j);
        assert(linked(source, program, j));
    }
}

/// The interpreter moves as the generated text does: after a step that
/// does not fault, control is where the transfer that the generator emits
/// for the word leads, with the popped condition deciding a conditional one.
pub proof fn law_step_follows_transfer(program: Seq<Token>, s: State)
    requires
        0 <= s.pc < program.len(),
        step(program, s) is Ok,
    ensures
        step(program, s)->Ok_0.pc == match transfer_of(program[s.pc].word, s.pc) {
            Transfer::Next => s.pc + 1,
            Transfer::Always(t) => t as int,
            Transfer::IfZero(t) => if s.stack.last() == 0 {
                t as int
            } else {
                s.pc + 1
            },
        },
{
}

/// `-` on operands pushed as `x` then `y` leaves `x - y`, wrapped to 32
/// bits: the difference itself wherever it fits.
pub proof fn law_minus_in_source_order(program: Seq<Token>, s: State, base: Seq<i32>, x: i32, y: i32)
    requires
        0 <= s.pc < program.len(),
        program[s.pc].word == Word::OpMinus,
        s.stack == base.push(x).push(y),
    ensures
        step(program, s) == Ok::<State, Diagnostic>(
            State { pc: s.pc + 1, stack: base.push(x.wrapping_sub(y)), output: s.output },
        ),
        i32::MIN <= x - y <= i32::MAX ==> x.wrapping_sub(y) == x - y,
{
    assert(s.stack.take(s.stack.len() - 2) =~= base);
}

/// `+` leaves the sum of its two operands, wrapped to 32 bits, whatever
/// their order.
pub proof fn law_plus_adds(program: Seq<Token>, s: State, base: Seq<i32>, x: i32, y: i32)
    requires
        0 <= s.pc < program.len(),
        program[s.pc].word == Word::OpPlus,
        s.stack == base.push(x).push(y),
    ensures
        step(program, s) == Ok::<State, Diagnostic>(
            State { pc: s.pc + 1, stack: base.push(x.wrapping_add(y)), output: s.output },
        ),
        x.wrapping_add(y) == y.wrapping_add(x),
        i32::MIN <= x + y <= i32::MAX ==> x.wrapping_add(y) == x + y,
{
    assert(s.stack.take(s.stack.len() - 2) =~= base);
}

/// `>` on operands pushed as `x` then `y` leaves 1 if `x > y`, else 0.
pub proof fn law_greater_in_source_order(
    program: Seq<Token>,
    s: State,
    base: Seq<i32>,
    x: i32,
    y: i32,
)
    requires
        0 <= s.pc < program.len(),
        program[s.pc].word == Word::OpGt,
        s.stack == base.push(x).push(y),
    ensures
        step(program, s) == Ok::<State, Diagnostic>(
            State { pc: s.pc + 1, stack: base.push(truth(x > y)), output: s.output },
        ),
        truth(x > y) == 1 <==> x > y,
{
    assert(s.stack.take(s.stack.len() - 2) =~= base);
}

/// `=` leaves 1 if its operands are equal, else 0, and the order in which
/// they were pushed makes no difference.
pub proof fn law_equal_is_symmetric(
    program: Seq<Token>,
    s: State,
    swapped: State,
    base: Seq<i32>,
    x: i32,
    y: i32,
)
    requires
        0 <= s.pc < program.len(),
        program[s.pc].word == Word::OpEqual,
        s.stack == base.push(x).push(y),
        swapped == (State { pc: s.pc, stack: base.push(y).push(x), output: s.output }),
    ensures
        step(program, s) == Ok::<State, Diagnostic>(
            State { pc: s.pc + 1, stack: base.push(truth(x == y)), output: s.output },
        ),
        step(program, swapped) == step(program, s),
{
    assert(s.stack.take(s.stack.len() - 2) =~= base);
    assert(swapped.stack.take(swapped.stack.len() - 2) =~= base);
}

/// An `if` at `i` that the `end` at `j` closes, with no `else` between:
/// on a false condition the next step is at the `end` and the one after it
/// behind the block. No token of the body is executed, the condition is
/// gone from the stack and nothing is printed: the run goes on as one that
/// starts behind the block with the condition dropped.
pub proof fn law_false_if_skips_block(
    source: Seq<Token>,
    program: Seq<Token>,
    s: State,
    i: int,
    j: int,
)
    requires
        source.len() <= usize::MAX,
        well_nested(source),
        resolved_from(source, program),
        0 <= j < source.len(),
        source[j].word is OpEnd,
        i == opener(source, j),
        source[i].word is OpIf,
        s.pc == i,
        s.stack.len() > 0,
        s.stack.last() == 0,
    ensures
        i < j,
        step(program, s) == Ok::<State, Diagnostic>(
            State { pc: j, stack: s.stack.drop_last(), output: s.output },
        ),
        step(program, State { pc: j, stack: s.stack.drop_last(), output: s.output }) == Ok::<
            State,
            Diagnostic,
        >(State { pc: j + 1, stack: s.stack.drop_last(), output: s.output }),
        forall|steps: nat|
            #[trigger] run(program, s, steps + 2) == run(
                program,
                State { pc: j + 1, stack: s.stack.drop_last(), output: s.output },
                steps,
            ),
{
    lemma_opener_precedes(source, j);
    assert(linked(source, program, j));
    assert(s.stack.take(s.stack.len() - 1) =~= s.stack.drop_last());
    let at_end = State { pc: j, stack: s.stack.drop_last(), output: s.output };
    let behind = State { pc: j + 1, stack: s.stack.drop_last(), output: s.output };
    assert forall|steps: nat| #[trigger] run(program, s, steps + 2) == run(program, behind, steps) by {
        assert(run(program, s, steps + 2) == run(program, at_end, (steps + 1) as nat));
        assert(run(program, at_end, (steps + 1) as nat) == run(program, behind, steps));
    }
}

/// An `if` at `i` with its `else` at `e` and its `end` at `j`: on a false
/// condition the next step is at the first token after the `else`; a run
/// that reaches the `else` after the true branch goes on at the `end`, and
/// from there behind the block.
pub proof fn law_if_else_branches(
    source: Seq<Token>,
    program: Seq<Token>,
    s: State,
    i: int,
    e: int,
    j: int,
)
    requires
        source.len() <= usize::MAX,
        well_nested(source),
        resolved_from(source, program),
        0 <= j < source.len(),
        source[j].word is OpEnd,
        e == opener(source, j),
        source[e].word is OpElse,
        i == opener(source, e),
    ensures
        i < e < j,
        source[i].word is OpIf,
        s.pc == i && s.stack.len() > 0 ==> step(program, s) == Ok::<State, Diagnostic>(
            State {
                pc: if s.stack.last() == 0 {
                    e + 1
                } else {
                    i + 1
                },
                stack: s.stack.drop_last(),
                output: s.output,
            },
        ),
        s.pc == e ==> step(program, s) == Ok::<State, Diagnostic>(
            State { pc: j, stack: s.stack, output: s.output },
        ),
        s.pc == j ==> step(program, s) == Ok::<State, Diagnostic>(
            State { pc: j + 1, stack: s.stack, output: s.output },
        ),
{
    lemma_opener_precedes(source, j);
    lemma_opener_precedes(source, e);
    assert(linked(source, program, j));
    assert(linked(source, program, e));
    assert(s.stack.take(s.stack.len() - 1) =~= s.stack.drop_last());
}

/// A loop with its `while` at `w`, its `do` at `d` and its `end` at `j`:
/// the `end` always goes back to the `while`, so the guard between `while`
/// and `do` is evaluated again before every run of the body; the `do`
/// enters the body on a true guard and, on a false one, goes behind the
/// `end` without executing a token of the body, the first time as any other.
pub proof fn law_loop_retests_guard(
    source: Seq<Token>,
    program: Seq<Token>,
    s: State,
    w: int,
    d: int,
    j: int,
)
    requires
        source.len() <= usize::MAX,
        well_nested(source),
        resolved_from(source, program),
        0 <= j < source.len(),
        source[j].word is OpEnd,
        d == opener(source, j),
        source[d].word is OpDo,
        w == opener(source, d),
    ensures
        0 <= w < d < j,
        source[w].word is OpWhile,
        s.pc == j ==> step(program, s) == Ok::<State, Diagnostic>(
            State { pc: w, stack: s.stack, output: s.output },
        ),
        s.pc == w ==> step(program, s) == Ok::<State, Diagnostic>(
            State { pc: w + 1, stack: s.stack, output: s.output },
        ),
        s.pc == d && s.stack.len() > 0 ==> step(program, s) == Ok::<State, Diagnostic>(
            State {
                pc: if s.stack.last() == 0 {
                    j + 1
                } else {
                    d + 1
                },
                stack: s.stack.drop_last(),
                output: s.output,
            },
        ),
{
    lemma_opener_precedes(source, j);
    lemma_opener_precedes(source, d);
    assert(linked(source, program, j));
    assert(s.stack.take(s.stack.len() - 1) =~= s.stack.drop_last());
}

} // verus!
