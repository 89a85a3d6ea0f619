//! Generation of assembly text from a resolved program.
//!
//! Every token position gets a label `addr_<position>`, and one more label
//! at the program's length marks the exit. Jumps name the label of their
//! target, so control moves in the text as it does in the interpreter.

use vstd::prelude::*;
use vstd::string::StringExecFns;
use crate::token::{Word, Token, ErrorKind, Diagnostic, diagnostic_at, diagnose};
use crate::resolve::has_target;
use crate::text::{LINE_END, decimal, signed_decimal, append_decimal, append_signed, law_decimal_is_injective};

verus! {

/// The fixed head of every unit: the routine that prints one number, and the entry point.
pub const RUNTIME_HEAD: &'static str =
    "BITS 64\nsegment .text\ndump:\n    mov     r9, -3689348814741910323\n    sub     rsp, 40\n    mov     BYTE [rsp+31], 10\n    lea     rcx, [rsp+30]\n.L2:\n    mov     rax, rdi\n    lea     r8, [rsp+32]\n    mul     r9\n    mov     rax, rdi\n    sub     r8, rcx\n    shr     rdx, 3\n    lea     rsi, [rdx+rdx*4]\n    add     rsi, rsi\n    sub     rax, rsi\n    add     eax, 48\n    mov     BYTE [rcx], al\n    mov     rax, rdi\n    mov     rdi, rdx\n    mov     rdx, rcx\n    sub     rcx, 1\n    cmp     rax, 9\n    ja      .L2\n    lea     rax, [rsp+32]\n    mov     edi, 1\n    sub     rdx, rax\n    xor     eax, eax\n    lea     rsi, [rsp+32+rdx]\n    mov     rdx, r8\n    mov     rax, 1\n    syscall\n    add     rsp, 40\n    ret\nglobal _start\n_start:\n";

/// The fixed tail: exit with status 0.
pub const RUNTIME_EXIT: &'static str = "    mov rax, 60\n    mov rdi, 0\n    syscall\n";

/// What a label starts with, before its number.
pub const LABEL_HEAD: &'static str = "addr_";

/// What ends a label line.
pub const LABEL_TAIL: &'static str = ":\n";

/// The start of the note on a push, before the number.
pub const PUSH_NOTE: &'static str = "    ;; -- push ";

/// The end of the note on a push and the start of the push itself.
pub const PUSH_CODE: &'static str = " --\n    push ";

/// Pops two values and pushes their sum.
pub const PLUS_CODE: &'static str =
    "    ;; -- plus --\n    pop rax\n    pop rbx\n    add rax, rbx\n    push rax\n";

/// Pops the right operand, then the left, and pushes left minus right.
pub const MINUS_CODE: &'static str =
    "    ;; -- minus --\n    pop rax\n    pop rbx\n    sub rbx, rax\n    push rbx\n";

/// Pops two values and pushes 1 if they are equal, else 0.
pub const EQUAL_CODE: &'static str =
    "    ;; -- equal -- \n    mov rcx, 0\n    mov rdx, 1\n    pop rax\n    pop rbx\n    cmp rax, rbx\n    cmove rcx, rdx\n    push rcx\n";

/// Pops a value and prints it.
pub const DUMP_CODE: &'static str = "    ;; -- dump --\n    pop rdi\n    call dump\n";

/// Pushes the top value once more.
pub const DUP_CODE: &'static str = "    ;; -- dup -- \n    pop rax\n    push rax\n    push rax\n";

/// Pops the right operand, then the left, and pushes 1 if left is greater, else 0.
pub const GT_CODE: &'static str =
    "    ;; -- gt --\n    mov rcx, 0\n    mov rdx, 1\n    pop rbx\n    pop rax\n    cmp rax, rbx\n    cmovg rcx, rdx\n    push rcx\n";

/// The note on an `if`.
pub const IF_NOTE: &'static str = "    ;; -- if --\n";

/// The note on an `else`.
pub const ELSE_NOTE: &'static str = "    ;; -- else --\n";

/// The note on an `end`.
pub const END_NOTE: &'static str = "    ;; -- end --\n";

/// The note on a `while`, which does nothing.
pub const WHILE_CODE: &'static str = "    ;; -- while --\n";

/// The note on a `do`.
pub const DO_NOTE: &'static str = "    ;; -- do --\n";

/// Pops a value and jumps, if it is zero, to the label whose number follows.
pub const JUMP_IF_ZERO: &'static str = "    pop rax\n    test rax, rax\n    jz addr_";

/// Jumps to the label whose number follows.
pub const JUMP: &'static str = "    jmp addr_";

/// Where control goes after a word.
#[derive(Debug, Clone, Copy, PartialEq, Eq)]
pub enum Transfer {
    /// To the next position.
    Next,
    /// To the given position.
    Always(usize),
    /// To the given position if the popped value is zero, else to the next.
    IfZero(usize),
}

/// Where control goes after `w` at position `i`. An `end` whose target is
/// the next position needs no jump.
pub open spec fn transfer_of(w: Word, i: int) -> Transfer {
    match w {
        Word::OpIf(Some(t)) => Transfer::IfZero(t),
        Word::OpDo(Some(t)) => Transfer::IfZero(t),
        Word::OpElse(Some(t)) => Transfer::Always(t),
        Word::OpEnd(Some(t)) => if t == i + 1 {
            Transfer::Next
        } else {
            Transfer::Always(t)
        },
        _ => Transfer::Next,
    }
}

/// The instructions that carry out a transfer.
pub open spec fn transfer_text(transfer: Transfer) -> Seq<char> {
    match transfer {
        Transfer::Next => Seq::empty(),
        Transfer::Always(t) => JUMP@ + decimal(t as int) + LINE_END@,
        Transfer::IfZero(t) => JUMP_IF_ZERO@ + decimal(t as int) + LINE_END@,
    }
}

/// The instructions for `w` up to its transfer of control.
pub open spec fn plain_text(w: Word) -> Seq<char> {
    match w {
        Word::OpPush(v) => PUSH_NOTE@ + signed_decimal(v as int) + PUSH_CODE@ + signed_decimal(
            v as int,
        ) + LINE_END@,
        Word::OpPlus => PLUS_CODE@,
        Word::OpMinus => MINUS_CODE@,
        Word::OpEqual => EQUAL_CODE@,
        Word::OpDump => DUMP_CODE@,
        Word::OpDup => DUP_CODE@,
        Word::OpGt => GT_CODE@,
        Word::OpWhile => WHILE_CODE@,
        Word::OpIf(_) => IF_NOTE@,
        Word::OpDo(_) => DO_NOTE@,
        Word::OpElse(_) => ELSE_NOTE@,
        Word::OpEnd(_) => END_NOTE@,
    }
}

/// The label line of position `i`.
pub open spec fn label_text(i: int) -> Seq<char> {
    LABEL_HEAD@ + decimal(i) + LABEL_TAIL@
}

/// The instructions for `w` at position `i`, after its label: what the
/// word does, then its transfer of control.
pub open spec fn body_text(w: Word, i: int) -> Seq<char> {
    plain_text(w) + transfer_text(transfer_of(w, i))
}

/// Labels and instructions of the first `n` tokens.
pub open spec fn tokens_text(program: Seq<Token>, n: nat) -> Seq<char>
    decreases n,
{
    if n == 0 {
        Seq::empty()
    } else {
        tokens_text(program, (n - 1) as nat) + label_text(n - 1) + body_text(
            program[n - 1].word,
            n - 1,
        )
    }
}

/// The whole unit for `program`.
pub open spec fn assembly(program: Seq<Token>) -> Seq<char> {
    RUNTIME_HEAD@ + tokens_text(program, program.len()) + label_text(program.len() as int)
        + RUNTIME_EXIT@
}

/// The token at `i` is the first control word without a target.
pub open spec fn first_untargeted(program: Seq<Token>, i: int) -> bool {
    &&& 0 <= i < program.len()
    &&& !has_target(program[i].word)
    &&& forall|k: int| 0 <= k < i ==> has_target(#[trigger] program[k].word)
}

/// Different positions have different labels, so a jump names one place.
pub proof fn law_labels_are_distinct(a: int, b: int)
    requires
        0 <= a,
        0 <= b,
        label_text(a) == label_text(b),
    ensures
        a == b,
{
    let head = LABEL_HEAD@;
    let tail = LABEL_TAIL@;
    let x = decimal(a);
    let y = decimal(b);
    assert(label_text(a).len() == head.len() + x.len() + tail.len());
    assert(label_text(b).len() == head.len() + y.len() + tail.len());
    assert forall|k: int| 0 <= k < x.len() implies x[k] == y[k] by {
        assert(label_text(a)[head.len() + k] == x[k]);
        assert(label_text(b)[head.len() + k] == y[k]);
    }
    assert(x =~= y);
    law_decimal_is_injective(a, b);
}

/// Appends the label line of position `i` to `out`.
pub fn append_label(out: &mut String, i: usize)
    ensures
        final(out)@ == old(out)@ + label_text(i as int),
{
    out.append(LABEL_HEAD);
    append_decimal(out, i as u64);
    out.append(LABEL_TAIL);
    assert(out@ =~= old(out)@ + label_text(i as int));
}

/// Where control goes after `word` at position `i`.
pub fn transfer(word: Word, i: usize) -> (r: Transfer)
    ensures
        r == transfer_of(word, i as int),
{
    match word {
        Word::OpIf(Some(t)) => Transfer::IfZero(t),
        Word::OpDo(Some(t)) => Transfer::IfZero(t),
        Word::OpElse(Some(t)) => Transfer::Always(t),
        Word::OpEnd(Some(t)) => if i < usize::MAX && t == i + 1 {
            Transfer::Next
        } else {
            Transfer::Always(t)
        },
        _ => Transfer::Next,
    }
}

/// Appends the instructions that carry out `transfer` to `out`.
pub fn append_transfer(out: &mut String, transfer: Transfer)
    ensures
        final(out)@ == old(out)@ + transfer_text(transfer),
{
    match transfer {
        Transfer::Next => {},
        Transfer::Always(t) => {
            out.append(JUMP);
            append_decimal(out, t as u64);
            out.append(LINE_END);
        },
        Transfer::IfZero(t) => {
            out.append(JUMP_IF_ZERO);
            append_decimal(out, t as u64);
            out.append(LINE_END);
        },
    }
    assert(out@ =~= old(out)@ + transfer_text(transfer));
}

/// Appends the instructions for `word` up to its transfer of control to `out`.
pub fn append_plain(out: &mut String, word: Word)
    ensures
        final(out)@ == old(out)@ + plain_text(word),
{
    match word {
        Word::OpPush(v) => {
            out.append(PUSH_NOTE);
            append_signed(out, v);
            out.append(PUSH_CODE);
            append_signed(out, v);
            out.append(LINE_END);
        },
        Word::OpPlus => out.append(PLUS_CODE),
        Word::OpMinus => out.append(MINUS_CODE),
        Word::OpEqual => out.append(EQUAL_CODE),
        Word::OpDump => out.append(DUMP_CODE),
        Word::OpDup => out.append(DUP_CODE),
        Word::OpGt => out.append(GT_CODE),
        Word::OpWhile => out.append(WHILE_CODE),
        Word::OpIf(_) => out.append(IF_NOTE),
        Word::OpDo(_) => out.append(DO_NOTE),
        Word::OpElse(_) => out.append(ELSE_NOTE),
        Word::OpEnd(_) => out.append(END_NOTE),
    }
    assert(out@ =~= old(out)@ + plain_text(word));
}

/// Appends the instructions for `word` at position `i` to `out`.
pub fn append_body(out: &mut String, word: Word, i: usize)
    ensures
        final(out)@ == old(out)@ + body_text(word, i as int),
{
    append_plain(out, word);
    append_transfer(out, transfer(word, i));
    assert(out@ =~= old(out)@ + body_text(word, i as int));
}

/// Whether `word` needs no target or has one.
pub fn word_has_target(word: Word) -> (b: bool)
    ensures
        b == has_target(word),
{
    match word {
        Word::OpIf(None) | Word::OpElse(None) | Word::OpEnd(None) | Word::OpDo(None) => false,
        _ => true,
    }
}

/// Generates the assembly text of `program`. A control word without a
/// target has no text: the first such token is reported.
pub fn compile_program(program: &Vec<Token>) -> (r: Result<String, Diagnostic>)
    ensures
        match r {
            Ok(text) => text@ == assembly(program@) && forall|k: int|
                0 <= k < program@.len() ==> has_target(#[trigger] program@[k].word),
            Err(d) => exists|i: int| #[trigger]
                first_untargeted(program@, i) && d == diagnostic_at(
                    ErrorKind::MissingTarget,
                    program@[i],
                ),
        },
{
    let mut out = String::from_str(RUNTIME_HEAD);
    let mut token_idx: usize = 0;
    while token_idx < program.len()
        invariant
            token_idx <= program@.len(),
            out@ == RUNTIME_HEAD@ + tokens_text(program@, token_idx as nat),
            forall|k: int| 0 <= k < token_idx ==> has_target(#[trigger] program@[k].word),
        decreases program@.len() - token_idx,
    {
        let token = &program[token_idx];
        if !word_has_target(token.word) {
            assert(first_untargeted(program@, token_idx as int));
            return Err(diagnose(ErrorKind::MissingTarget, token));
        }
        append_label(&mut out, token_idx);
        append_body(&mut out, token.word, token_idx);
        assert(out@ =~= RUNTIME_HEAD@ + tokens_text(program@, (token_idx + 1) as nat));
        token_idx += 1;
    }
    append_label(&mut out, program.len());
    out.append(RUNTIME_EXIT);
    assert(out@ =~= assembly(program@));
    Ok(out)
}

} // verus!
