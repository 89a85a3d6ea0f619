//! The shapes of well-nested programs: plain words, sequences, `if` blocks
//! with and without `else`, and loops.

use vstd::prelude::*;
use crate::token::{Token, Diagnostic};
use crate::resolve::{scan, advance, well_nested, opens_block, closes_block, lemma_pending_in_range};

verus! {

/// Positions moved right by `by`.
pub open spec fn shifted(positions: Seq<usize>, by: nat) -> Seq<usize> {
    Seq::new(positions.len(), |k: int| (positions[k] + by) as usize)
}

/// A prefix of a program is scanned as the program itself is.
pub proof fn lemma_scan_prefix(a: Seq<Token>, b: Seq<Token>, n: nat)
    requires
        n <= a.len() <= usize::MAX,
    ensures
        scan(a + b, n) == scan(a, n),
    decreases n,
{
    if n > 0 {
        lemma_scan_prefix(a, b, (n - 1) as nat);
        if scan(a, (n - 1) as nat) is Ok {
            lemma_pending_in_range(a, (n - 1) as nat);
        }
    }
}

/// Behind a prefix, a part that closes nothing of the prefix is scanned as
/// it is alone: its pending positions, moved right, come on top of those of
/// the prefix.
pub proof fn lemma_scan_append(a: Seq<Token>, b: Seq<Token>, n: nat)
    requires
        n <= b.len(),
        a.len() + b.len() <= usize::MAX,
        scan(a, a.len()) is Ok,
        scan(b, n) is Ok,
    ensures
        scan(a + b, a.len() + n) == Ok::<Seq<usize>, Diagnostic>(
            scan(a, a.len())->Ok_0 + shifted(scan(b, n)->Ok_0, a.len()),
        ),
    decreases n,
{
    let whole = a + b;
    let below = scan(a, a.len())->Ok_0;
    if n == 0 {
        lemma_scan_prefix(a, b, a.len());
        assert(below + shifted(scan(b, 0)->Ok_0, a.len()) =~= below);
    } else {
        lemma_scan_append(a, b, (n - 1) as nat);
        lemma_pending_in_range(b, (n - 1) as nat);
        let q = scan(b, (n - 1) as nat)->Ok_0;
        let pending = below + shifted(q, a.len());
        let i = a.len() + n - 1;
        let w = b[n - 1].word;
        assert(whole[i] == b[n - 1]);
        assert(scan(whole, (a.len() + n) as nat) == advance(whole, pending, i));
        if closes_block(w) {
            assert(q.len() > 0);
            assert(pending.last() == q.last() + a.len());
            assert(whole[pending.last() as int] == b[q.last() as int]);
            if w is OpEnd {
                assert(pending.drop_last() =~= below + shifted(q.drop_last(), a.len()));
            } else {
                assert(pending.drop_last().push(i as usize) =~= below + shifted(
                    q.drop_last().push((n - 1) as usize),
                    a.len(),
                ));
            }
        } else if opens_block(w) {
            assert(pending.push(i as usize) =~= below + shifted(
                q.push((n - 1) as usize),
                a.len(),
            ));
        }
    }
}

/// The program of the one token `t`.
pub open spec fn single(t: Token) -> Seq<Token> {
    seq![t]
}

/// The empty program is well nested.
pub proof fn law_empty_is_well_nested()
    ensures
        well_nested(Seq::<Token>::empty()),
{
}

/// A word that neither opens nor closes a block is a well-nested program.
pub proof fn law_plain_word_is_well_nested(t: Token)
    requires
        !opens_block(t.word),
        !closes_block(t.word),
    ensures
        well_nested(single(t)),
{
    reveal_with_fuel(scan, 2);
}

/// Two well-nested programs, one after the other, are well nested.
pub proof fn law_sequence_is_well_nested(a: Seq<Token>, b: Seq<Token>)
    requires
        a.len() + b.len() <= usize::MAX,
        well_nested(a),
        well_nested(b),
    ensures
        well_nested(a + b),
{
    lemma_scan_append(a, b, b.len());
    assert(scan(a, a.len())->Ok_0 + shifted(scan(b, b.len())->Ok_0, a.len()) =~= Seq::<
        usize,
    >::empty());
}

/// After an opening token `t` and a well-nested `body`, `t` alone is pending.
proof fn lemma_opened(t: Token, body: Seq<Token>)
    requires
        1 + body.len() <= usize::MAX,
        t.word is OpIf || t.word is OpWhile,
        well_nested(body),
    ensures
        scan(single(t) + body, 1 + body.len()) == Ok::<Seq<usize>, Diagnostic>(seq![0usize]),
{
    reveal_with_fuel(scan, 2);
    assert(scan(single(t), 1) == Ok::<Seq<usize>, Diagnostic>(Seq::<usize>::empty().push(0usize)));
    lemma_scan_append(single(t), body, body.len());
    assert(scan(single(t), 1)->Ok_0 + shifted(scan(body, body.len())->Ok_0, 1) =~= seq![0usize]);
}

/// After `opened`, which leaves the one position `at` pending, a token `t`
/// that replaces it and a well-nested `body`, `t` alone is pending.
proof fn lemma_replaced(opened: Seq<Token>, at: usize, t: Token, body: Seq<Token>)
    requires
        opened.len() + 1 + body.len() <= usize::MAX,
        scan(opened, opened.len()) == Ok::<Seq<usize>, Diagnostic>(seq![at]),
        at < opened.len(),
        (t.word is OpElse && opened[at as int].word is OpIf) || (t.word is OpDo
            && opened[at as int].word is OpWhile),
        well_nested(body),
    ensures
        scan(opened + single(t) + body, opened.len() + 1 + body.len()) == Ok::<
            Seq<usize>,
            Diagnostic,
        >(seq![opened.len() as usize]),
{
    let head = opened + single(t);
    lemma_scan_prefix(opened, single(t), opened.len());
    assert(head[opened.len() as int] == t);
    assert(head[at as int] == opened[at as int]);
    assert(seq![at].drop_last().push(opened.len() as usize) =~= seq![opened.len() as usize]);
    assert(scan(head, head.len()) == Ok::<Seq<usize>, Diagnostic>(seq![opened.len() as usize]));
    lemma_scan_append(head, body, body.len());
    assert(scan(head, head.len())->Ok_0 + shifted(scan(body, body.len())->Ok_0, head.len())
        =~= seq![opened.len() as usize]);
}

/// An `end` behind `opened`, which leaves one position pending that an
/// `end` may close, makes a well-nested program.
proof fn lemma_closed(opened: Seq<Token>, at: usize, t: Token)
    requires
        opened.len() + 1 <= usize::MAX,
        scan(opened, opened.len()) == Ok::<Seq<usize>, Diagnostic>(seq![at]),
        at < opened.len(),
        t.word is OpEnd,
        opened[at as int].word is OpIf || opened[at as int].word is OpElse
            || opened[at as int].word is OpDo,
    ensures
        well_nested(opened + single(t)),
{
    let whole = opened + single(t);
    lemma_scan_prefix(opened, single(t), opened.len());
    assert(whole[opened.len() as int] == t);
    assert(whole[at as int] == opened[at as int]);
    assert(seq![at].drop_last() =~= Seq::<usize>::empty());
}

/// `if body end` is well nested when `body` is.
pub proof fn law_if_block_is_well_nested(open: Token, body: Seq<Token>, close: Token)
    requires
        body.len() + 2 <= usize::MAX,
        open.word is OpIf,
        close.word is OpEnd,
        well_nested(body),
    ensures
        well_nested(single(open) + body + single(close)),
{
    lemma_opened(open, body);
    lemma_closed(single(open) + body, 0, close);
}

/// `if first else second end` is well nested when `first` and `second` are.
pub proof fn law_if_else_block_is_well_nested(
    open: Token,
    first: Seq<Token>,
    middle: Token,
    second: Seq<Token>,
    close: Token,
)
    requires
        first.len() + second.len() + 3 <= usize::MAX,
        open.word is OpIf,
        middle.word is OpElse,
        close.word is OpEnd,
        well_nested(first),
        well_nested(second),
    ensures
        well_nested(single(open) + first + single(middle) + second + single(close)),
{
    let opened = single(open) + first;
    lemma_opened(open, first);
    lemma_replaced(opened, 0, middle, second);
    let upto = opened + single(middle) + second;
    assert(upto[opened.len() as int] == middle);
    lemma_closed(upto, opened.len() as usize, close);
}

/// `while guard do body end` is well nested when `guard` and `body` are.
pub proof fn law_loop_is_well_nested(
    open: Token,
    guard: Seq<Token>,
    middle: Token,
    body: Seq<Token>,
    close: Token,
)
    requires
        guard.len() + body.len() + 3 <= usize::MAX,
        open.word is OpWhile,
        middle.word is OpDo,
        close.word is OpEnd,
        well_nested(guard),
        well_nested(body),
    ensures
        well_nested(single(open) + guard + single(middle) + body + single(close)),
{
    let opened = single(open) + guard;
    lemma_opened(open, guard);
    lemma_replaced(opened, 0, middle, body);
    let upto = opened + single(middle) + body;
    assert(upto[opened.len() as int] == middle);
    lemma_closed(upto, opened.len() as usize, close);
}

} // verus!
