//! Block resolution: every control word is given the absolute position it
//! transfers to, and malformed nesting is reported.

use vstd::prelude::*;
use vstd::pervasive::unreached;
use crate::token::{Word, Token, ErrorKind, Diagnostic, diagnostic_at, same_place, diagnose, with_word, handle_stack_empty};

verus! {

/// Words that stay pending until a later word closes them.
pub open spec fn opens_block(w: Word) -> bool {
    w is OpIf || w is OpElse || w is OpWhile || w is OpDo
}

/// Words that pop a pending block.
pub open spec fn closes_block(w: Word) -> bool {
    w is OpElse || w is OpDo || w is OpEnd
}

/// Whether a word that closes (`closer`) may pop a pending word (`pending`).
pub open spec fn may_close(closer: Word, pending: Word) -> bool {
    match closer {
        Word::OpElse(_) => pending is OpIf,
        Word::OpDo(_) => pending is OpWhile,
        Word::OpEnd(_) => pending is OpIf || pending is OpElse || pending is OpDo,
        _ => false,
    }
}

/// The pending positions after the token at `i` has been processed on top
/// of `pending`, or the structural error that this token raises.
pub open spec fn advance(program: Seq<Token>, pending: Seq<usize>, i: int) -> Result<
    Seq<usize>,
    Diagnostic,
> {
    let w = program[i].word;
    if closes_block(w) {
        if pending.len() == 0 {
            Err(diagnostic_at(ErrorKind::StackEmpty, program[i]))
        } else if !may_close(w, program[pending.last() as int].word) {
            Err(diagnostic_at(ErrorKind::BlockMismatch, program[i]))
        } else if w is OpEnd {
            Ok(pending.drop_last())
        } else {
            Ok(pending.drop_last().push(i as usize))
        }
    } else if opens_block(w) {
        Ok(pending.push(i as usize))
    } else {
        Ok(pending)
    }
}

/// The pending positions, innermost last, after the first `n` tokens, or the
/// first structural error among them.
pub open spec fn scan(program: Seq<Token>, n: nat) -> Result<Seq<usize>, Diagnostic>
    decreases n,
{
    if n == 0 {
        Ok(Seq::empty())
    } else {
        match scan(program, (n - 1) as nat) {
            Err(d) => Err(d),
            Ok(pending) => advance(program, pending, n - 1),
        }
    }
}

/// The error that resolution reports for `program`, if any: the first
/// token that closes nothing or the wrong thing, else the innermost block
/// still open at the end.
pub open spec fn structural_error(program: Seq<Token>) -> Option<Diagnostic> {
    match scan(program, program.len()) {
        Err(d) => Some(d),
        Ok(pending) => if pending.len() == 0 {
            None
        } else {
            Some(diagnostic_at(ErrorKind::UnclosedBlock, program[pending.last() as int]))
        },
    }
}

/// Blocks nest properly: nothing closes what is not open, and nothing stays open.
pub open spec fn well_nested(program: Seq<Token>) -> bool {
    structural_error(program) is None
}

/// The position that the closing token at `j` pops.
pub open spec fn opener(program: Seq<Token>, j: int) -> usize {
    scan(program, j as nat)->Ok_0.last()
}

/// `b` is the word `a`, up to the jump target.
pub open spec fn same_kind(a: Word, b: Word) -> bool {
    match a {
        Word::OpIf(_) => b is OpIf,
        Word::OpElse(_) => b is OpElse,
        Word::OpEnd(_) => b is OpEnd,
        Word::OpDo(_) => b is OpDo,
        _ => b == a,
    }
}

/// A control word carries its target; other words need none.
pub open spec fn has_target(w: Word) -> bool {
    match w {
        Word::OpIf(t) => t is Some,
        Word::OpElse(t) => t is Some,
        Word::OpEnd(t) => t is Some,
        Word::OpDo(t) => t is Some,
        _ => true,
    }
}

/// The targets in `out` that the closing token at `j` decides:
/// - an `else` sends its `if` to the position after itself;
/// - an `end` of an `if` or an `else` sends that word to itself and goes on
///   to the next position;
/// - an `end` of a `do` sends the `do` past itself and goes back to the `while`.
pub open spec fn linked(program: Seq<Token>, out: Seq<Token>, j: int) -> bool {
    let p = opener(program, j);
    match program[j].word {
        Word::OpElse(_) => out[p as int].word == Word::OpIf(Some((j + 1) as usize)),
        Word::OpEnd(_) => match program[p as int].word {
            Word::OpIf(_) => out[p as int].word == Word::OpIf(Some(j as usize)) && out[j].word
                == Word::OpEnd(Some((j + 1) as usize)),
            Word::OpElse(_) => out[p as int].word == Word::OpElse(Some(j as usize))
                && out[j].word == Word::OpEnd(Some((j + 1) as usize)),
            Word::OpDo(_) => out[p as int].word == Word::OpDo(Some((j + 1) as usize))
                && out[j].word == Word::OpEnd(Some(opener(program, p as int))),
            _ => true,
        },
        _ => true,
    }
}

/// `out` is `program` with every jump target filled in.
pub open spec fn resolved_from(program: Seq<Token>, out: Seq<Token>) -> bool {
    &&& out.len() == program.len()
    &&& forall|i: int|
        0 <= i < program.len() ==> same_place(#[trigger] out[i], program[i]) && same_kind(
            program[i].word,
            out[i].word,
        ) && has_target(out[i].word)
    &&& forall|j: int| 0 <= j < program.len() ==> #[trigger] linked(program, out, j)
}

/// What holds between the input, the output so far and the pending
/// positions after `n` tokens.
spec fn partly_resolved(
    program: Seq<Token>,
    out: Seq<Token>,
    pending: Seq<usize>,
    n: int,
) -> bool {
    &&& 0 <= n <= program.len()
    &&& out.len() == n
    &&& scan(program, n as nat) == Ok::<Seq<usize>, Diagnostic>(pending)
    &&& forall|k: int|
        0 <= k < pending.len() ==> (#[trigger] pending[k]) < n && opens_block(
            program[pending[k] as int].word,
        )
    &&& forall|a: int, b: int|
        0 <= a < b < pending.len() ==> (#[trigger] pending[a]) < (#[trigger] pending[b])
    &&& forall|k: int|
        0 <= k < pending.len() && program[(#[trigger] pending[k]) as int].word is OpDo ==> {
            let d = pending[k] as int;
            &&& out[d].word == Word::OpDo(Some(opener(program, d)))
            &&& opener(program, d) < d
        }
    &&& forall|i: int|
        0 <= i < n ==> same_place(#[trigger] out[i], program[i]) && same_kind(
            program[i].word,
            out[i].word,
        ) && (has_target(out[i].word) || pending.contains(i as usize))
    &&& forall|j: int|
        0 <= j < n ==> #[trigger] linked(program, out, j) && (closes_block(program[j].word)
            ==> opener(program, j) < j && !pending.contains(opener(program, j)))
}

/// Pushing adds exactly the pushed position.
proof fn lemma_contains_push(s: Seq<usize>, v: usize, x: usize)
    ensures
        s.push(v).contains(x) <==> (s.contains(x) || x == v),
{
    if s.contains(x) {
        let k = choose|k: int| 0 <= k < s.len() && s[k] == x;
        assert(s.push(v)[k] == x);
    }
    if x == v {
        assert(s.push(v)[s.len() as int] == x);
    }
}

/// Popping from strictly increasing positions removes exactly the last one.
proof fn lemma_contains_drop_last(s: Seq<usize>, x: usize)
    requires
        s.len() > 0,
        forall|a: int, b: int| 0 <= a < b < s.len() ==> (#[trigger] s[a]) < (#[trigger] s[b]),
    ensures
        s.drop_last().contains(x) <==> (s.contains(x) && x != s.last()),
        s.contains(s.last()),
{
    assert(s[s.len() - 1] == s.last());
    if s.drop_last().contains(x) {
        let k = choose|k: int| 0 <= k < s.drop_last().len() && s.drop_last()[k] == x;
        assert(s[k] == x);
    }
    if s.contains(x) && x != s.last() {
        let k = choose|k: int| 0 <= k < s.len() && s[k] == x;
        assert(s.drop_last()[k] == x);
    }
}

/// Once a prefix has a structural error, every longer prefix has the same one.
pub proof fn lemma_error_stays(program: Seq<Token>, k: nat, n: nat)
    requires
        k <= n,
        scan(program, k) is Err,
    ensures
        scan(program, n) == scan(program, k),
    decreases n,
{
    if k < n {
        lemma_error_stays(program, k, (n - 1) as nat);
    }
}

/// The word that the resolver puts at `n` when it reaches the token there.
spec fn emitted_word(program: Seq<Token>, out: Seq<Token>, pending: Seq<usize>, n: int) -> Word {
    let p = pending.last() as int;
    match program[n].word {
        Word::OpDo(_) => Word::OpDo(Some(p as usize)),
        Word::OpEnd(_) => match out[p].word {
            Word::OpDo(anchor) => Word::OpEnd(anchor),
            _ => Word::OpEnd(Some((n + 1) as usize)),
        },
        w => w,
    }
}

/// The word that the resolver leaves at the popped position when the token
/// at `n` closes it.
spec fn patched_word(program: Seq<Token>, out: Seq<Token>, pending: Seq<usize>, n: int) -> Word {
    let p = pending.last() as int;
    match program[n].word {
        Word::OpElse(_) => Word::OpIf(Some((n + 1) as usize)),
        Word::OpEnd(_) => match out[p].word {
            Word::OpIf(_) => Word::OpIf(Some(n as usize)),
            Word::OpElse(_) => Word::OpElse(Some(n as usize)),
            _ => Word::OpDo(Some((n + 1) as usize)),
        },
        _ => out[p].word,
    }
}

/// `out1` is `out0` after the resolver has processed the token at `n`.
spec fn stepped(
    program: Seq<Token>,
    out0: Seq<Token>,
    pending: Seq<usize>,
    out1: Seq<Token>,
    n: int,
) -> bool {
    let p = pending.last() as int;
    let closing = closes_block(program[n].word);
    &&& out1.len() == n + 1
    &&& same_place(out1[n], program[n])
    &&& out1[n].word == emitted_word(program, out0, pending, n)
    &&& forall|i: int| 0 <= i < n && !(closing && i == p) ==> #[trigger] out1[i] == out0[i]
    &&& closing ==> same_place(out1[p], out0[p]) && out1[p].word == patched_word(
        program,
        out0,
        pending,
        n,
    )
}

/// One step of the resolver keeps what holds between input, output and
/// pending positions.
proof fn lemma_step(
    program: Seq<Token>,
    out_before: Seq<Token>,
    before: Seq<usize>,
    out: Seq<Token>,
    at: int,
)
    requires
        partly_resolved(program, out_before, before, at),
        at < program.len() <= usize::MAX,
        advance(program, before, at) is Ok,
        stepped(program, out_before, before, out, at),
    ensures
        partly_resolved(program, out, advance(program, before, at)->Ok_0, at + 1),
{
    let n = at + 1;
    let pending = advance(program, before, at)->Ok_0;
    let w = program[at].word;
    let here = at as usize;
    assert(scan(program, n as nat) == Ok::<Seq<usize>, Diagnostic>(pending));
    assert forall|x: usize|
        pending.contains(x) <==> ((x == here && opens_block(w)) || (before.contains(x) && !(
        closes_block(w) && x == before.last()))) by {
        if closes_block(w) {
            lemma_contains_drop_last(before, x);
            lemma_contains_push(before.drop_last(), here, x);
        } else {
            lemma_contains_push(before, here, x);
        }
    }
    if closes_block(w) {
        lemma_contains_drop_last(before, before.last());
    }
    assert forall|j: int| 0 <= j < n && closes_block(#[trigger] program[j].word) implies opener(
        program,
        j,
    ) < j && !pending.contains(opener(program, j)) by {
        if j < n - 1 {
            assert(linked(program, out_before, j));
        } else {
            assert(opener(program, j) == before.last());
        }
    }
    assert forall|j: int| 0 <= j < n implies #[trigger] linked(program, out, j) by {
        if j < n - 1 {
            assert(linked(program, out_before, j));
            if closes_block(program[j].word) {
                assert(!before.contains(opener(program, j)));
                assert(out[opener(program, j) as int] == out_before[opener(program, j) as int]);
                if program[j].word is OpEnd {
                    assert(out[j] == out_before[j]);
                }
            }
        } else {
            assert(opener(program, j) == before.last());
        }
    }
    assert forall|i: int| 0 <= i < n implies same_place(#[trigger] out[i], program[i])
        && same_kind(program[i].word, out[i].word) && (has_target(out[i].word)
        || pending.contains(i as usize)) by {
        if i < n - 1 {
            assert(same_place(out_before[i], program[i]));
        }
    }
}

/// Every pending position lies before the tokens still to come.
pub proof fn lemma_pending_in_range(program: Seq<Token>, n: nat)
    requires
        n <= program.len() <= usize::MAX,
        scan(program, n) is Ok,
    ensures
        forall|k: int|
            0 <= k < scan(program, n)->Ok_0.len() ==> (#[trigger] scan(program, n)->Ok_0[k]) < n,
    decreases n,
{
    if n > 0 {
        lemma_pending_in_range(program, (n - 1) as nat);
    }
}

/// In a program without structural error, a closing token pops a position
/// before its own, and the word there is one that it may close.
pub proof fn lemma_opener_precedes(program: Seq<Token>, j: int)
    requires
        program.len() <= usize::MAX,
        scan(program, program.len()) is Ok,
        0 <= j < program.len(),
        closes_block(program[j].word),
    ensures
        0 <= opener(program, j) < j,
        may_close(program[j].word, program[opener(program, j) as int].word),
{
    if scan(program, (j + 1) as nat) is Err {
        lemma_error_stays(program, (j + 1) as nat, program.len());
    }
    lemma_pending_in_range(program, j as nat);
}

/// The token at `j` closes the block that the token at `i` opened.
pub open spec fn closes(program: Seq<Token>, i: int, j: int) -> bool {
    i < j < program.len() && closes_block(program[j].word) && opener(program, j) == i
}

/// After `n` tokens, a position that opened a block is still pending or
/// has been closed by one of them.
pub proof fn lemma_pending_or_closed(program: Seq<Token>, n: nat, i: int)
    requires
        n <= program.len() <= usize::MAX,
        scan(program, n) is Ok,
        0 <= i < n,
        opens_block(program[i].word),
    ensures
        scan(program, n)->Ok_0.contains(i as usize) || exists|j: int|
            j < n && #[trigger] closes(program, i, j),
    decreases n,
{
    let before = scan(program, (n - 1) as nat)->Ok_0;
    let after = scan(program, n)->Ok_0;
    let here = (n - 1) as usize;
    let w = program[n - 1].word;
    if i == n - 1 {
        assert(after[after.len() - 1] == here);
    } else {
        lemma_pending_or_closed(program, (n - 1) as nat, i);
        if before.contains(i as usize) {
            let k = choose|k: int| 0 <= k < before.len() && before[k] == i as usize;
            if closes_block(w) {
                if k == before.len() - 1 {
                    assert(closes(program, i, n - 1));
                } else {
                    assert(before.drop_last()[k] == i as usize);
                    assert(after[k] == i as usize);
                }
            } else {
                assert(after[k] == i as usize);
            }
        } else {
            let j = choose|j: int| j < n - 1 && #[trigger] closes(program, i, j);
            assert(closes(program, i, j));
        }
    }
}

/// In a well-nested program every token that opens a block is closed by a
/// later one.
pub proof fn law_every_block_closed(program: Seq<Token>, i: int)
    requires
        program.len() <= usize::MAX,
        well_nested(program),
        0 <= i < program.len(),
        opens_block(program[i].word),
    ensures
        exists|j: int| #[trigger] closes(program, i, j),
{
    lemma_pending_or_closed(program, program.len(), i);
    let j = choose|j: int| j < program.len() && #[trigger] closes(program, i, j);
    assert(closes(program, i, j));
}

/// Pending positions are in the order in which they were opened.
pub proof fn lemma_pending_increases(program: Seq<Token>, n: nat)
    requires
        n <= program.len() <= usize::MAX,
        scan(program, n) is Ok,
    ensures
        forall|a: int, b: int|
            0 <= a < b < scan(program, n)->Ok_0.len() ==> (#[trigger] scan(program, n)->Ok_0[a])
                < (#[trigger] scan(program, n)->Ok_0[b]),
    decreases n,
{
    if n > 0 {
        lemma_pending_increases(program, (n - 1) as nat);
        lemma_pending_in_range(program, (n - 1) as nat);
    }
}

/// A position that has been closed is not pending again.
pub proof fn lemma_closed_stays_closed(program: Seq<Token>, i: int, j: int, n: nat)
    requires
        program.len() <= usize::MAX,
        closes(program, i, j),
        j < n <= program.len(),
        scan(program, n) is Ok,
    ensures
        !scan(program, n)->Ok_0.contains(i as usize),
    decreases n,
{
    if scan(program, (n - 1) as nat) is Err {
        lemma_error_stays(program, (n - 1) as nat, n);
    }
    let before = scan(program, (n - 1) as nat)->Ok_0;
    let after = scan(program, n)->Ok_0;
    lemma_pending_increases(program, (n - 1) as nat);
    if n > j + 1 {
        lemma_closed_stays_closed(program, i, j, (n - 1) as nat);
    }
    if after.contains(i as usize) {
        let k = choose|k: int| 0 <= k < after.len() && after[k] == i as usize;
        if k < before.len() {
            assert(before[k] == i as usize);
            assert(before.last() == before[before.len() - 1]);
        }
    }
}

/// In a program without structural error no block is closed twice.
pub proof fn law_block_closed_once(program: Seq<Token>, i: int, j: int, k: int)
    requires
        program.len() <= usize::MAX,
        scan(program, program.len()) is Ok,
        closes(program, i, j),
        closes(program, i, k),
    ensures
        j == k,
    decreases
            (if k < j {
                1int
            } else {
                0int
            }),
{
    if j < k {
        if scan(program, k as nat) is Err {
            lemma_error_stays(program, k as nat, program.len());
        }
        if scan(program, (k + 1) as nat) is Err {
            lemma_error_stays(program, (k + 1) as nat, program.len());
        }
        lemma_closed_stays_closed(program, i, j, k as nat);
        let pending = scan(program, k as nat)->Ok_0;
        assert(pending[pending.len() - 1] == pending.last());
    } else if k < j {
        law_block_closed_once(program, i, k, j);
    }
}

/// Fills in the jump target of every control word of `program`, or reports
/// the structural error that `structural_error` describes.
pub fn crossreference_blocks(program: Vec<Token>) -> (r: Result<Vec<Token>, Diagnostic>)
    ensures
        r is Ok <==> well_nested(program@),
        match r {
            Ok(out) => resolved_from(program@, out@),
            Err(d) => structural_error(program@) == Some(d),
        },
{
    let mut stack: Vec<usize> = Vec::new();
    let mut out_program: Vec<Token> = Vec::new();
    let mut token_idx: usize = 0;
    while token_idx < program.len()
        invariant
            partly_resolved(program@, out_program@, stack@, token_idx as int),
        decreases program.len() - token_idx,
    {
        let token = &program[token_idx];
        let ghost before = stack@;
        let ghost out_before = out_program@;
        assert(scan(program@, (token_idx + 1) as nat) == advance(
            program@,
            before,
            token_idx as int,
        ));
        match token.word {
            Word::OpIf(_) => {
                stack.push(token_idx);
                out_program.push(with_word(token, token.word));
            },
            Word::OpWhile => {
                stack.push(token_idx);
                out_program.push(with_word(token, token.word));
            },
            Word::OpElse(_) => {
                let if_idx = match handle_stack_empty(stack.pop(), token) {
                    Ok(idx) => idx,
                    Err(d) => {
                        proof {
                            lemma_error_stays(program@, (token_idx + 1) as nat, program@.len());
                        }
                        return Err(d);
                    },
                };
                match program[if_idx].word {
                    Word::OpIf(_) => {},
                    _ => {
                        proof {
                            lemma_error_stays(program@, (token_idx + 1) as nat, program@.len());
                        }
                        return Err(diagnose(ErrorKind::BlockMismatch, token));
                    },
                }
                let patched = with_word(&out_program[if_idx], Word::OpIf(Some(token_idx + 1)));
                out_program.set(if_idx, patched);
                stack.push(token_idx);
                out_program.push(with_word(token, token.word));
            },
            Word::OpDo(_) => {
                let wile_idx = match handle_stack_empty(stack.pop(), token) {
                    Ok(idx) => idx,
                    Err(d) => {
                        proof {
                            lemma_error_stays(program@, (token_idx + 1) as nat, program@.len());
                        }
                        return Err(d);
                    },
                };
                match program[wile_idx].word {
                    Word::OpWhile => {},
                    _ => {
                        proof {
                            lemma_error_stays(program@, (token_idx + 1) as nat, program@.len());
                        }
                        return Err(diagnose(ErrorKind::BlockMismatch, token));
                    },
                }
                stack.push(token_idx);
                out_program.push(with_word(token, Word::OpDo(Some(wile_idx))));
            },
            Word::OpEnd(_) => {
                let block_idx = match handle_stack_empty(stack.pop(), token) {
                    Ok(idx) => idx,
                    Err(d) => {
                        proof {
                            lemma_error_stays(program@, (token_idx + 1) as nat, program@.len());
                        }
                        return Err(d);
                    },
                };
                match program[block_idx].word {
                    Word::OpIf(_) => {
                        let patched = with_word(
                            &out_program[block_idx],
                            Word::OpIf(Some(token_idx)),
                        );
                        out_program.set(block_idx, patched);
                        out_program.push(with_word(token, Word::OpEnd(Some(token_idx + 1))));
                    },
                    Word::OpElse(_) => {
                        let patched = with_word(
                            &out_program[block_idx],
                            Word::OpElse(Some(token_idx)),
                        );
                        out_program.set(block_idx, patched);
                        out_program.push(with_word(token, Word::OpEnd(Some(token_idx + 1))));
                    },
                    Word::OpDo(_) => {
                        let wile_idx = match out_program[block_idx].word {
                            Word::OpDo(Some(wile_idx)) => wile_idx,
                            _ => unreached(),
                        };
                        let patched = with_word(
                            &out_program[block_idx],
                            Word::OpDo(Some(token_idx + 1)),
                        );
                        out_program.set(block_idx, patched);
                        out_program.push(with_word(token, Word::OpEnd(Some(wile_idx))));
                    },
                    _ => {
                        proof {
                            lemma_error_stays(program@, (token_idx + 1) as nat, program@.len());
                        }
                        return Err(diagnose(ErrorKind::BlockMismatch, token));
                    },
                }
            },
            _ => {
                out_program.push(with_word(token, token.word));
            },
        }
        proof {
            lemma_step(program@, out_before, before, out_program@, token_idx as int);
        }
        token_idx += 1;
    }
    match stack.pop() {
        Some(open_idx) => Err(diagnose(ErrorKind::UnclosedBlock, &program[open_idx])),
        None => Ok(out_program),
    }
}

} // verus!
