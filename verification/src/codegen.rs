//! Lowering of an analysed instruction list to brainfuck text.
//!
//! The generator keeps the emitted buffer, a signed head index relative
//! to cell zero of the variable region, and a stack of open block
//! frames. User variables sit at cells `0..`, in analysis order; the
//! seventeen temp cells `t0..t16` sit at `-1..-17`, to the left. Every
//! emitter's contract states the exact text it appends and where it
//! leaves the head, so the recorded head index provably tracks the net
//! movement of the emitted text.

use vstd::prelude::*;
use vstd::string::StringExecFns;
use vstd::pervasive::unreached;
use crate::analysis::{AnalysisError, InstructionsAnalysis, balanced, build_vars_spec, operands, lemma_build_vars_complete, first_index_of};
use crate::instruction::Instruction;

verus! {

/// Cells reserved for the temp pool, to the left of the variables.
pub const TEMP_CELLS: usize = 17;

/// Size of the interpreter's tape.
pub const TAPE_SIZE: usize = 30000;

/// A violation of the code generator's own invariants: these mark
/// instruction lists the lowering rules cannot handle, not user errors
/// the analyzer reports.
#[derive(Debug, Clone, PartialEq, Eq, Structural)]
pub enum InvariantViolation {
    /// More variables than the tape can hold beside the temp pool.
    TooManyVariables,
    /// Two operands that the lowering needs distinct were the same.
    OperandsMustDiffer,
    /// `match` keys empty, or not strictly ascending.
    BadMatchKeys,
    /// `case` outside a `match`, or more cases than keys.
    MisplacedCase,
    /// `end` reached a `match` whose key bodies were not all supplied.
    UnfinishedMatch,
    /// `end` with no block open.
    MisplacedEnd,
    /// An operand name that the analysis did not register.
    UnknownVariable,
}

/// An error raised while generating code.
#[derive(Debug, Clone, PartialEq)]
pub enum CodegenError {
    /// The analysis pass rejected the instruction list.
    Analysis(AnalysisError),
    /// The lowering's own invariants were violated.
    InvariantViolation(InvariantViolation),
}

/// `n` copies of one character.
pub open spec fn char_repeat(c: char, n: nat) -> Seq<char> {
    Seq::new(n, |i: int| c)
}

/// The `<`/`>` text that moves the head from `from` to `to`.
pub open spec fn move_text(from: int, to: int) -> Seq<char> {
    if to >= from {
        char_repeat('>', (to - from) as nat)
    } else {
        char_repeat('<', (from - to) as nat)
    }
}

/// Net head movement of a brainfuck text: `>` counts one right,
/// `<` one left, everything else stays.
pub open spec fn net_move(s: Seq<char>) -> int
    decreases s.len(),
{
    if s.len() == 0 {
        0
    } else {
        net_move(s.drop_last()) + (if s.last() == '>' {
            1int
        } else if s.last() == '<' {
            -1int
        } else {
            0int
        })
    }
}

/// Net movement distributes over concatenation.
pub proof fn lemma_net_move_concat(a: Seq<char>, b: Seq<char>)
    ensures
        net_move(a + b) == net_move(a) + net_move(b),
    decreases b.len(),
{
    if b.len() == 0 {
        assert(a + b =~= a);
    } else {
        assert((a + b).drop_last() =~= a + b.drop_last());
        assert((a + b).last() == b.last());
        lemma_net_move_concat(a, b.drop_last());
    }
}

/// Net movement of a repeated character.
pub proof fn lemma_net_move_repeat(c: char, n: nat)
    ensures
        net_move(char_repeat(c, n)) == if c == '>' {
            n as int
        } else if c == '<' {
            -(n as int)
        } else {
            0int
        },
    decreases n,
{
    if n == 0 {
    } else {
        assert(char_repeat(c, n).drop_last() =~= char_repeat(c, (n - 1) as nat));
        assert(char_repeat(c, n).last() == c);
        lemma_net_move_repeat(c, (n - 1) as nat);
    }
}

/// The text opening a `while_nz` block: `[` at the variable.
#[verifier::opaque]
pub open spec fn wnz_open_text(p: int, a: int) -> Seq<char> {
    move_text(p, a) + seq!['[']
}

/// The text opening an `until_eq` block.
#[verifier::opaque]
pub open spec fn until_open_text(p: int, a: int, b: int) -> Seq<char> {
    sub_text(p, a, b) + seq!['['] + add_text(a as int, a, b)
}

/// The text opening an `if_neq` block.
#[verifier::opaque]
pub open spec fn if_neq_open_text(p: int, a: int, b: int) -> Seq<char> {
    sub_text(p, a, b) + copy_text(a, a, -3) + seq!['['] + zero_text(-3, -3) + add_text(-3, a, b)
}

/// The first half of an `if_eq` opening: prime the `t2` flag, subtract
/// `b`, and clear the flag inside a loop entered only when the
/// difference is not zero.
#[verifier::opaque]
pub open spec fn if_eq_entry_text(p: int, a: int, b: int) -> Seq<char> {
    set_text(p, -3, 1) + sub_text(-3, a, b) + copy_text(a, a, -4) + seq!['['] + set_text(-4, -3, 0)
        + zero_text(-3, -4) + seq![']']
}

/// The text opening an `if_eq` block.
#[verifier::opaque]
pub open spec fn if_eq_open_text(p: int, a: int, b: int) -> Seq<char> {
    if_eq_entry_text(p, a, b) + add_text(-4, a, b) + move_text(a, -3) + seq!['['] + zero_text(
        -3,
        -3,
    )
}

/// The text opening an `if_eq_c` block.
#[verifier::opaque]
pub open spec fn if_eq_c_open_text(p: int, a: int, k: nat) -> Seq<char> {
    set_text(p, -3, 1) + zero_text(-3, -4) + dec_by_text(-4, a, k) + seq!['['] + set_text(a, -3, 0)
        + move_value_text(-3, a, -4) + seq![']'] + move_text(a, -4) + seq!['['] + dec_by_text(
        -4,
        -4,
        1,
    ) + inc_by_text(-4, a, 1) + move_text(a, -4) + seq![']'] + inc_by_text(-4, a, k) + move_text(
        a,
        -3,
    ) + seq!['['] + zero_text(-3, -3)
}

/// The text opening an `if_neq_c` block.
#[verifier::opaque]
pub open spec fn if_neq_c_open_text(p: int, a: int, k: nat) -> Seq<char> {
    dec_by_text(p, a, k) + copy_text(a, a, -3) + inc_by_text(-3, a, k) + move_text(a, -3)
        + seq!['['] + zero_text(-3, -3)
}

/// A message with the `\\n`, `\\t` and `\\r` escapes resolved.
pub open spec fn unescape(s: Seq<char>) -> Seq<char>
    decreases s.len(),
{
    if s.len() == 0 {
        seq![]
    } else if s.len() >= 2 && s[0] == '\\' && (s[1] == 'n' || s[1] == 't' || s[1] == 'r') {
        seq![
            if s[1] == 'n' {
                '\n'
            } else if s[1] == 't' {
                '\t'
            } else {
                '\r'
            },
        ] + unescape(s.skip(2))
    } else {
        seq![s[0]] + unescape(s.skip(1))
    }
}

/// The `+`/`-` deltas and `.` outputs that print a message from the
/// `t0` cell, given the cell's previous value.
pub open spec fn msg_chars_text(msg: Seq<char>, last: int) -> Seq<char>
    decreases msg.len(),
{
    if msg.len() == 0 {
        seq![]
    } else {
        let c = msg[0] as int;
        let d = c - last;
        (if d > 0 {
            char_repeat('+', (d % 256) as nat)
        } else {
            char_repeat('-', ((-d) % 256) as nat)
        }) + seq!['.'] + msg_chars_text(msg.drop_first(), c)
    }
}

/// The text of `print_msg`: clear `t0`, walk the message emitting the
/// difference from the previous byte and a `.` per character, then
/// clear `t0` again.
#[verifier::opaque]
pub open spec fn print_msg_text(p: int, raw: Seq<char>) -> Seq<char> {
    zero_text(p, -1) + msg_chars_text(unescape(raw), 0) + zero_text(-1, -1)
}

/// The `-`/`[` chain that `match` emits for its sorted keys: each key
/// subtracts its distance from the previous key, then opens a bracket.
pub open spec fn match_keys_text(keys: Seq<u8>, prev: int) -> Seq<char>
    decreases keys.len(),
{
    if keys.len() == 0 {
        seq![]
    } else {
        char_repeat('-', (keys[0] - prev) as nat) + seq!['['] + match_keys_text(
            keys.drop_first(),
            keys[0] as int,
        )
    }
}

/// The preamble of a `match`: copy the variable into the `t1` scratch
/// (restoring it out of `t0`), then prime the `t0` flag with 1.
#[verifier::opaque]
pub open spec fn match_pre_text(p: int, v: int) -> Seq<char> {
    zero_text(p, -2) + move_text(-2, v) + seq!['[', '-'] + move_text(v, -1) + seq!['+']
        + move_text(-1, -2) + seq!['+'] + move_text(-2, v) + seq![']'] + move_text(v, -1)
        + seq!['[', '-'] + move_text(-1, v) + seq!['+'] + move_text(v, -1) + seq![']'] + move_text(
        -1,
        -2,
    ) + move_text(-2, -1) + seq!['[', '-', ']'] + seq!['+'] + move_text(-1, -2)
}

/// The text opening a `match` block: the preamble, the decrement chain
/// that tries each key in turn, and the fall-through into the default
/// body with the flag cleared.
#[verifier::opaque]
pub open spec fn match_open_text(p: int, v: int, keys: Seq<u8>) -> Seq<char> {
    match_pre_text(p, v) + match_keys_text(keys, 0) + seq!['[', '-', ']'] + move_text(-2, -1)
        + seq!['-']
}

/// The text a `case` emits: close the previous body's flag loop if it
/// was a key body, close one dispatch bracket, and open this key's
/// flag-guarded body.
#[verifier::opaque]
pub open spec fn case_text(p: int, first: bool) -> Seq<char> {
    (if first {
        seq![]
    } else {
        seq![']']
    }) + move_text(p, -2) + seq![']'] + move_text(-2, -1) + seq!['[', '-']
}

/// The text of `push`: drain a copy of the value rightward across the
/// occupied stack pairs, then tag the new top.
#[verifier::opaque]
pub open spec fn push_text(p: int, count: int, a: int) -> Seq<char> {
    copy_text(p, a, -2) + seq!['['] + seq!['-'] + move_text(-2, count) + seq!['>', '>']
        + seq!['[', '>', '>', ']'] + seq!['>', '+', '<'] + seq!['<', '<'] + seq!['[', '<', '<', ']']
        + move_text(count, -2) + seq![']'] + move_text(-2, count) + seq!['>', '>']
        + seq!['[', '>', '>', ']'] + seq!['+'] + seq!['<', '<'] + seq!['[', '<', '<', ']']
        + move_text(count, a)
}

/// The text of `pop`: walk to the rightmost occupied pair, drain its
/// value into the target cell, and clear the tag. The sentinel byte in
/// the closing walk is inert outside the interpreter's debug check.
#[verifier::opaque]
pub open spec fn pop_text(p: int, count: int, a: int) -> Seq<char> {
    zero_text(p, a) + move_text(a, count) + seq!['>', '>'] + seq!['[', '>', '>', ']', '<']
        + seq!['['] + seq!['-'] + seq!['<'] + seq!['[', '<', '<', ']'] + move_text(count, a)
        + seq!['+'] + move_text(a, count) + seq!['>', '>'] + seq!['[', '>', '>', ']', '<']
        + seq![']'] + seq!['<', '#', '[', '-', ']'] + seq!['<', '<', '[', '<', '<', ']']
        + move_text(count, a)
}

/// Keys acceptable to `match`: at least one, strictly ascending.
pub open spec fn good_match_keys(keys: Seq<u8>) -> bool {
    &&& keys.len() > 0
    &&& forall|i: int| 0 < i < keys.len() ==> keys[i - 1] < #[trigger] keys[i]
}

/// What one lowering step yields: the emitted fragment, the head cell
/// it ends on, and the stack of open blocks after it.
pub struct EmitOut {
    pub text: Seq<char>,
    pub ptr: int,
    pub stack: Seq<BlockFrame>,
}

/// The separator appended after every instruction: the `#` debug
/// sentinel in test mode, nothing otherwise.
pub open spec fn sep_text(test_mode: bool) -> Seq<char> {
    if test_mode {
        seq!['#']
    } else {
        Seq::empty()
    }
}

/// One instruction lowered: the exact fragment it emits, where the
/// head ends, and how the block stack changes — or nothing where the
/// lowering's structural rules refuse it (operands that must be
/// distinct, well-formed `match` keys, `case` only inside a `match`
/// with bodies still owed, `end` only on an open block whose `match`
/// bodies are all supplied). Variables resolve to their
/// first-appearance cell in `vars`.
pub open spec fn emit_step(
    vars: Seq<Seq<char>>,
    p: int,
    stack: Seq<BlockFrame>,
    i: Instruction,
) -> Option<EmitOut> {
    match i {
        Instruction::Copy { a, b } => if a@ == b@ {
            None
        } else {
            Some(
                EmitOut {
                    text: copy_text(p, first_index_of(vars, a@), first_index_of(vars, b@)),
                    ptr: first_index_of(vars, b@),
                    stack,
                },
            )
        },
        Instruction::Assign(a, k) => Some(
            EmitOut {
                text: set_text(p, first_index_of(vars, a@), k as nat),
                ptr: first_index_of(vars, a@),
                stack,
            },
        ),
        Instruction::Inc(a) => Some(
            EmitOut {
                text: inc_by_text(p, first_index_of(vars, a@), 1),
                ptr: first_index_of(vars, a@),
                stack,
            },
        ),
        Instruction::Dec(a) => Some(
            EmitOut {
                text: dec_by_text(p, first_index_of(vars, a@), 1),
                ptr: first_index_of(vars, a@),
                stack,
            },
        ),
        Instruction::IncBy(a, k) => Some(
            EmitOut {
                text: inc_by_text(p, first_index_of(vars, a@), k as nat),
                ptr: first_index_of(vars, a@),
                stack,
            },
        ),
        Instruction::DecBy(a, k) => Some(
            EmitOut {
                text: dec_by_text(p, first_index_of(vars, a@), k as nat),
                ptr: first_index_of(vars, a@),
                stack,
            },
        ),
        Instruction::Read(a) => Some(
            EmitOut {
                text: read_text(p, first_index_of(vars, a@)),
                ptr: first_index_of(vars, a@),
                stack,
            },
        ),
        Instruction::Print(a) => Some(
            EmitOut {
                text: print_text(p, first_index_of(vars, a@)),
                ptr: first_index_of(vars, a@),
                stack,
            },
        ),
        Instruction::PrintMsg(m) => Some(
            EmitOut { text: print_msg_text(p, m@), ptr: -1, stack },
        ),
        Instruction::PrintC(a) => Some(
            EmitOut { text: printc_text(p, first_index_of(vars, a@)), ptr: -16, stack },
        ),
        Instruction::Add { a, b } => if a@ == b@ {
            None
        } else {
            Some(
                EmitOut {
                    text: add_text(p, first_index_of(vars, a@), first_index_of(vars, b@)),
                    ptr: first_index_of(vars, a@),
                    stack,
                },
            )
        },
        Instruction::Sub { a, b } => if a@ == b@ {
            None
        } else {
            Some(
                EmitOut {
                    text: sub_text(p, first_index_of(vars, a@), first_index_of(vars, b@)),
                    ptr: first_index_of(vars, a@),
                    stack,
                },
            )
        },
        Instruction::Mul { a, b } => Some(
            EmitOut {
                text: mul_text(p, first_index_of(vars, a@), first_index_of(vars, b@)),
                ptr: -4,
                stack,
            },
        ),
        Instruction::Div { a, b, quotient, remainder } => if a@ == b@ {
            None
        } else {
            Some(
                EmitOut {
                    text: div_text(
                        p,
                        first_index_of(vars, a@),
                        first_index_of(vars, b@),
                        first_index_of(vars, remainder@),
                        first_index_of(vars, quotient@),
                    ),
                    ptr: first_index_of(vars, quotient@),
                    stack,
                },
            )
        },
        Instruction::IfEqual { a, b } => if a@ == b@ {
            None
        } else {
            Some(
                EmitOut {
                    text: if_eq_open_text(p, first_index_of(vars, a@), first_index_of(vars, b@)),
                    ptr: -3,
                    stack: stack.push(BlockFrame::IfEqual),
                },
            )
        },
        Instruction::IfEqualConst { a, b } => Some(
            EmitOut {
                text: if_eq_c_open_text(p, first_index_of(vars, a@), b as nat),
                ptr: -3,
                stack: stack.push(BlockFrame::IfEqualConst),
            },
        ),
        Instruction::IfNotEqualConst { a, b } => Some(
            EmitOut {
                text: if_neq_c_open_text(p, first_index_of(vars, a@), b as nat),
                ptr: -3,
                stack: stack.push(BlockFrame::IfNotEqualConst),
            },
        ),
        Instruction::IfNotEqual { a, b } => if a@ == b@ {
            None
        } else {
            Some(
                EmitOut {
                    text: if_neq_open_text(p, first_index_of(vars, a@), first_index_of(vars, b@)),
                    ptr: first_index_of(vars, a@),
                    stack: stack.push(
                        BlockFrame::IfNotEqual {
                            a: first_index_of(vars, a@) as i32,
                            b: first_index_of(vars, b@) as i32,
                        },
                    ),
                },
            )
        },
        Instruction::UntilEqual { a, b } => if a@ == b@ {
            None
        } else {
            Some(
                EmitOut {
                    text: until_open_text(p, first_index_of(vars, a@), first_index_of(vars, b@)),
                    ptr: first_index_of(vars, a@),
                    stack: stack.push(
                        BlockFrame::UntilEqual {
                            a: first_index_of(vars, a@) as i32,
                            b: first_index_of(vars, b@) as i32,
                        },
                    ),
                },
            )
        },
        Instruction::WhileNotZero(a) => Some(
            EmitOut {
                text: wnz_open_text(p, first_index_of(vars, a@)),
                ptr: first_index_of(vars, a@),
                stack: stack.push(
                    BlockFrame::WhileNotZero { a: first_index_of(vars, a@) as i32 },
                ),
            },
        ),
        Instruction::End => if stack.len() == 0 {
            None
        } else {
            match stack.last() {
                BlockFrame::WhileNotZero { a } => Some(
                    EmitOut {
                        text: move_text(p, a as int) + seq![']'],
                        ptr: a as int,
                        stack: stack.drop_last(),
                    },
                ),
                BlockFrame::IfNotEqual { a, b } => Some(
                    EmitOut {
                        text: sub_text(p, a as int, b as int) + move_text(a as int, -3)
                            + seq![']'] + add_text(-3, a as int, b as int),
                        ptr: a as int,
                        stack: stack.drop_last(),
                    },
                ),
                BlockFrame::UntilEqual { a, b } => Some(
                    EmitOut {
                        text: sub_text(p, a as int, b as int) + seq![']'] + add_text(
                            a as int,
                            a as int,
                            b as int,
                        ),
                        ptr: a as int,
                        stack: stack.drop_last(),
                    },
                ),
                BlockFrame::IfEqual => Some(
                    EmitOut {
                        text: zero_text(p, -3) + seq![']'],
                        ptr: -3,
                        stack: stack.drop_last(),
                    },
                ),
                BlockFrame::IfEqualConst => Some(
                    EmitOut {
                        text: zero_text(p, -3) + seq![']'],
                        ptr: -3,
                        stack: stack.drop_last(),
                    },
                ),
                BlockFrame::IfNotEqualConst => Some(
                    EmitOut {
                        text: move_text(p, -3) + seq![']'] + zero_text(-3, -3),
                        ptr: -3,
                        stack: stack.drop_last(),
                    },
                ),
                BlockFrame::Matching { total, done } => if done == total {
                    Some(EmitOut { text: seq![']'], ptr: p, stack: stack.drop_last() })
                } else {
                    None
                },
            }
        },
        Instruction::Compare { a, b, res } => if a@ == b@ {
            None
        } else {
            Some(
                EmitOut {
                    text: compare_text(
                        p,
                        first_index_of(vars, a@),
                        first_index_of(vars, b@),
                        first_index_of(vars, res@),
                    ),
                    ptr: first_index_of(vars, a@),
                    stack,
                },
            )
        },
        Instruction::Push(a) => Some(
            EmitOut {
                text: push_text(p, vars.len() as int, first_index_of(vars, a@)),
                ptr: first_index_of(vars, a@),
                stack,
            },
        ),
        Instruction::Pop(a) => Some(
            EmitOut {
                text: pop_text(p, vars.len() as int, first_index_of(vars, a@)),
                ptr: first_index_of(vars, a@),
                stack,
            },
        ),
        Instruction::Match(a, keys) => if good_match_keys(keys@) {
            Some(
                EmitOut {
                    text: match_open_text(p, first_index_of(vars, a@), keys@),
                    ptr: -1,
                    stack: stack.push(BlockFrame::Matching { total: keys@.len() as usize, done: 0 }),
                },
            )
        } else {
            None
        },
        Instruction::Case() => if stack.len() > 0 && (stack.last()
            matches BlockFrame::Matching { total, done } && done < total) {
            Some(
                EmitOut {
                    text: case_text(p, stack.last()->Matching_done == 0),
                    ptr: -1,
                    stack: stack.update(
                        stack.len() - 1,
                        BlockFrame::Matching {
                            total: stack.last()->Matching_total,
                            done: (stack.last()->Matching_done + 1) as usize,
                        },
                    ),
                },
            )
        } else {
            None
        },
        Instruction::Raw(r) => Some(EmitOut { text: r@, ptr: p, stack }),
    }
}

/// A whole instruction list lowered: the concatenation, in order, of
/// each instruction's fragment followed by the separator — or nothing
/// where any step is refused.
pub open spec fn emit_all(
    vars: Seq<Seq<char>>,
    p: int,
    stack: Seq<BlockFrame>,
    instrs: Seq<Instruction>,
    sep: Seq<char>,
) -> Option<EmitOut>
    decreases instrs.len(),
{
    if instrs.len() == 0 {
        Some(EmitOut { text: Seq::empty(), ptr: p, stack })
    } else {
        match emit_step(vars, p, stack, instrs[0]) {
            Some(o) => match emit_all(vars, o.ptr, o.stack, instrs.drop_first(), sep) {
                Some(rest) => Some(
                    EmitOut {
                        text: o.text + sep + rest.text,
                        ptr: rest.ptr,
                        stack: rest.stack,
                    },
                ),
                None => None,
            },
            None => None,
        }
    }
}

/// What the code generator accepts: a list the analyzer passes, whose
/// variables fit on the tape beside the temp pool, and whose every
/// lowering step succeeds.
pub open spec fn cg_accepts(instrs: Seq<Instruction>, sep: Seq<char>) -> bool {
    &&& balanced(instrs)
    &&& build_vars_spec(instrs) is Ok
    &&& build_vars_spec(instrs)->Ok_0.len() <= TAPE_SIZE - TEMP_CELLS
    &&& emit_all(build_vars_spec(instrs)->Ok_0, 0, seq![], instrs, sep) is Some
}

/// Reassociating one appended chunk: concatenation is associative.
proof fn lemma_chunk_assoc(x: Seq<char>, a: Seq<char>, b: Seq<char>)
    ensures
        x + a + b == x + (a + b),
{
    assert(x + a + b =~= x + (a + b));
}

/// An empty chunk changes nothing.
proof fn lemma_chunk_empty(x: Seq<char>)
    ensures
        x + Seq::<char>::empty() == x,
{
    assert(x + Seq::<char>::empty() =~= x);
}

/// The text of `mul`: copy `b` into the `t2` counter, add `a` into the
/// `t3` total once per count, then move the total back into `a`.
#[verifier::opaque]
pub open spec fn mul_text(p: int, a: int, b: int) -> Seq<char> {
    copy_text(p, b, -3) + wnz_open_text(-3, -3) + dec_by_text(-3, -3, 1) + add_text(-3, -4, a)
        + move_text(-4, -3) + seq![']'] + move_value_text(-3, -4, a)
}

/// The scanning half of `compare`: open the not-equal guard, then
/// count both operands down in step with the `t1` counter until one
/// reaches zero, setting `res` from which it was.
#[verifier::opaque]
pub open spec fn compare_scan_text(p: int, a: int, b: int, res: int) -> Seq<char> {
    zero_text(p, res) + if_neq_open_text(res, a, b) + zero_text(a, -2) + set_text(-2, -1, 1)
        + wnz_open_text(-1, -1) + inc_by_text(-1, -2, 1) + dec_by_text(-2, b, 1) + dec_by_text(
        b,
        a,
        1,
    ) + if_eq_c_open_text(a, a, 0) + set_text(-3, res, 1) + set_text(res, -1, 0) + zero_text(
        -1,
        -3,
    ) + seq![']'] + if_eq_c_open_text(-3, b, 0) + set_text(-3, res, 2) + set_text(res, -1, 0)
        + zero_text(-1, -3) + seq![']'] + move_text(-3, -1) + seq![']']
}

/// The text of `compare`: the scan, then the counter replayed onto
/// both operands and the not-equal guard closed.
#[verifier::opaque]
pub open spec fn compare_text(p: int, a: int, b: int, res: int) -> Seq<char> {
    compare_scan_text(p, a, b, res) + move_text(-1, -2) + seq!['[', '-'] + move_text(-2, a)
        + seq!['+'] + move_text(a, b) + seq!['+'] + move_text(b, -2) + seq![']'] + sub_text(
        -2,
        a,
        b,
    ) + move_text(a, -3) + seq![']'] + add_text(-3, a, b)
}

/// The text of `div`: snapshot both inputs into `t9`/`t8`, repeatedly
/// compare and subtract while counting the quotient, then restore the
/// inputs and leave the remainder.
#[verifier::opaque]
pub open spec fn div_text(p: int, a: int, b: int, rem: int, quot: int) -> Seq<char> {
    copy_text(p, a, -10) + copy_text(-10, b, -9) + zero_text(-9, rem) + zero_text(rem, quot)
        + set_text(quot, -8, 1) + wnz_open_text(-8, -8) + compare_text(-8, a, b, -7)
        + if_neq_c_open_text(a, -7, 1) + sub_text(-3, a, b) + inc_by_text(a, quot, 1) + move_text(
        quot,
        -3,
    ) + seq![']'] + zero_text(-3, -3) + if_neq_c_open_text(-3, -7, 2) + set_text(-3, -8, 0)
        + move_text(-8, -3) + seq![']'] + zero_text(-3, -3) + move_text(-3, -8) + seq![']']
        + zero_text(-8, -7) + move_value_text(-7, a, rem) + move_value_text(a, -10, a)
        + move_value_text(-10, -9, b) + move_text(-9, quot)
}

/// The text of `printc`: split the value into hundreds, tens and ones
/// with two divisions by constants, print each digit that is not
/// zero, and clear the temps used.
#[verifier::opaque]
pub open spec fn printc_text(p: int, a: int) -> Seq<char> {
    set_text(p, -16, 100) + div_text(-16, a, -16, -11, -12) + set_text(-12, -16, 10) + div_text(
        -16,
        -11,
        -16,
        -13,
        -15,
    ) + set_text(-15, -16, 0) + if_neq_open_text(-16, -12, -16) + inc_by_text(-12, -12, 48)
        + print_text(-12, -12) + sub_text(-12, -12, -16) + move_text(-12, -3) + seq![']']
        + add_text(-3, -12, -16) + if_neq_open_text(-12, -15, -16) + inc_by_text(-15, -15, 48)
        + print_text(-15, -15) + sub_text(-15, -15, -16) + move_text(-15, -3) + seq![']']
        + add_text(-3, -15, -16) + if_neq_open_text(-15, -13, -16) + inc_by_text(-13, -13, 48)
        + print_text(-13, -13) + sub_text(-13, -13, -16) + move_text(-13, -3) + seq![']']
        + add_text(-3, -13, -16) + zero_text(-13, -11) + zero_text(-11, -12) + zero_text(-12, -13)
        + zero_text(-13, -14) + zero_text(-14, -15) + zero_text(-15, -16)
}

/// A frame on the stack of open blocks, holding what the matching
/// closing fragment needs: the cells of the opener's operands, or for
/// a `match` how many key bodies are owed and done.
#[derive(Debug, Clone, PartialEq)]
pub enum BlockFrame {
    IfEqual,
    IfEqualConst,
    IfNotEqualConst,
    IfNotEqual { a: i32, b: i32 },
    UntilEqual { a: i32, b: i32 },
    WhileNotZero { a: i32 },
    Matching { total: usize, done: usize },
}

/// The brainfuck code generator.
#[derive(Debug)]
pub struct Codegen {
    code: String,
    ptr: i32,
    /// The instruction list to lower.
    pub instructions: Vec<Instruction>,
    parsed: InstructionsAnalysis,
    block_stack: Vec<BlockFrame>,
    test_mode: bool,
}

/// A cell index the head may legally visit: a temp, a variable, or one
/// of the stack-walk launch cells just past the variables.
spec fn cell_in_range(i: int, var_count: int) -> bool {
    -(TEMP_CELLS as int) <= i <= var_count
}

spec fn frame_wf(f: BlockFrame, var_count: int) -> bool {
    match f {
        BlockFrame::IfNotEqual { a, b } => cell_in_range(a as int, var_count) && cell_in_range(
            b as int,
            var_count,
        ),
        BlockFrame::UntilEqual { a, b } => cell_in_range(a as int, var_count) && cell_in_range(
            b as int,
            var_count,
        ),
        BlockFrame::WhileNotZero { a } => cell_in_range(a as int, var_count),
        BlockFrame::Matching { total, done } => done <= total,
        _ => true,
    }
}

impl Codegen {
    /// The instruction list, as the contracts see it.
    pub closed spec fn spec_instructions(&self) -> Seq<Instruction> {
        self.instructions@
    }

    /// The variable table the generator resolves names against.
    pub closed spec fn spec_vars(&self) -> Seq<Seq<char>> {
        self.parsed.vars()
    }

    /// Whether the generator appends the `#` debug sentinel after
    /// every instruction.
    pub closed spec fn spec_test_mode(&self) -> bool {
        self.test_mode
    }

    /// Internal consistency of the generator state.
    pub closed spec fn wf(&self) -> bool {
        &&& self.spec_vars().len() <= TAPE_SIZE - TEMP_CELLS
        &&& cell_in_range(self.ptr as int, self.spec_vars().len() as int)
        &&& forall|k: int| 0 <= k < self.block_stack@.len() ==> frame_wf(
            #[trigger] self.block_stack@[k],
            self.spec_vars().len() as int,
        )
    }

    /// The fields the emitters never touch: the instruction list, the
    /// variable table and the separator mode.
    spec fn same_config(&self, other: &Self) -> bool {
        &&& self.instructions == other.instructions
        &&& self.parsed == other.parsed
        &&& self.test_mode == other.test_mode
    }

    /// Append literal text; the head does not move.
    fn emit(&mut self, s: &str)
        ensures
            final(self).code@ == old(self).code@ + s@,
            final(self).ptr == old(self).ptr,
            final(self).block_stack == old(self).block_stack,
            final(self).same_config(old(self)),
            net_move(final(self).code@) == net_move(old(self).code@) + net_move(s@),
    {
        self.code.append(s);
        proof {
            lemma_net_move_concat(old(self).code@, s@);
        }
    }

    /// Append `n` copies of the character that `s` holds.
    fn emit_repeat(&mut self, s: &str, c: Ghost<char>, n: usize)
        requires
            s@ == seq![c@],
        ensures
            final(self).code@ == old(self).code@ + char_repeat(c@, n as nat),
            final(self).ptr == old(self).ptr,
            final(self).block_stack == old(self).block_stack,
            final(self).same_config(old(self)),
            net_move(final(self).code@) == net_move(old(self).code@) + (if c@ == '>' {
                n as int
            } else if c@ == '<' {
                -(n as int)
            } else {
                0int
            }),
    {
        proof {
            lemma_net_move_concat(old(self).code@, char_repeat(c@, n as nat));
            lemma_net_move_repeat(c@, n as nat);
        }
        let mut j: usize = 0;
        while j < n
            invariant
                j <= n,
                s@ == seq![c@],
                self.code@ == old(self).code@ + char_repeat(c@, j as nat),
                self.ptr == old(self).ptr,
                self.block_stack == old(self).block_stack,
                self.same_config(old(self)),
            decreases n - j,
        {
            self.code.append(s);
            proof {
                assert(old(self).code@ + char_repeat(c@, j as nat) + s@ =~= old(self).code@
                    + char_repeat(c@, (j + 1) as nat));
            }
            j = j + 1;
        }
    }

    /// Move the head by `diff` cells, emitting `<` or `>` repeats.
    fn move_by(&mut self, diff: i32)
        requires
            -(TAPE_SIZE as int) <= old(self).ptr + diff <= TAPE_SIZE as int,
            -(TAPE_SIZE as int) <= old(self).ptr <= TAPE_SIZE as int,
        ensures
            final(self).ptr == old(self).ptr + diff,
            final(self).code@ == old(self).code@ + move_text(
                old(self).ptr as int,
                old(self).ptr + diff,
            ),
            final(self).block_stack == old(self).block_stack,
            final(self).same_config(old(self)),
            net_move(final(self).code@) == net_move(old(self).code@) + diff,
    {
        proof {
            lit_arrows();
        }
        if diff < 0 {
            let n = (-diff) as usize;
            self.emit_repeat("<", Ghost('<'), n);
        } else {
            let n = diff as usize;
            self.emit_repeat(">", Ghost('>'), n);
        }
        self.ptr = self.ptr + diff;
    }

    /// Move the head to the given cell.
    fn goto(&mut self, cell: i32)
        requires
            old(self).wf(),
            cell_in_range(cell as int, old(self).spec_vars().len() as int),
        ensures
            final(self).wf(),
            final(self).ptr == cell,
            final(self).code@ == old(self).code@ + move_text(old(self).ptr as int, cell as int),
            final(self).block_stack == old(self).block_stack,
            final(self).same_config(old(self)),
            net_move(final(self).code@) == net_move(old(self).code@) + cell - old(self).ptr,
    {
        self.move_by(cell - self.ptr);
    }
}

/// The text of `zero`: go to the cell and clear it.
#[verifier::opaque]
pub open spec fn zero_text(p: int, a: int) -> Seq<char> {
    move_text(p, a) + seq!['[', '-', ']']
}

/// The text of `inc_by`: go to the cell and add `k`.
#[verifier::opaque]
pub open spec fn inc_by_text(p: int, a: int, k: nat) -> Seq<char> {
    move_text(p, a) + char_repeat('+', k)
}

/// The text of `dec_by`: go to the cell and subtract `k`.
#[verifier::opaque]
pub open spec fn dec_by_text(p: int, a: int, k: nat) -> Seq<char> {
    move_text(p, a) + char_repeat('-', k)
}

/// The text of `set`: clear the cell, then add `k`.
#[verifier::opaque]
pub open spec fn set_text(p: int, a: int, k: nat) -> Seq<char> {
    zero_text(p, a) + char_repeat('+', k)
}

/// The text of `read`: clear the cell, then consume one input byte.
#[verifier::opaque]
pub open spec fn read_text(p: int, a: int) -> Seq<char> {
    move_text(p, a) + seq!['[', '-', ']'] + seq![',']
}

/// The text of `print`: go to the cell and emit it.
#[verifier::opaque]
pub open spec fn print_text(p: int, a: int) -> Seq<char> {
    move_text(p, a) + seq!['.']
}

/// The text of `move_value`: clear `to`, then drain `from` into it.
/// The head ends on `from`.
#[verifier::opaque]
pub open spec fn move_value_text(p: int, from: int, to: int) -> Seq<char> {
    zero_text(p, to) + move_text(to, from) + seq!['[', '-'] + move_text(from, to) + seq!['+']
        + move_text(to, from) + seq![']']
}

/// First phase of the drain: empty `from` into `t0` and, with `sign`,
/// straight into `to`.
#[verifier::opaque]
pub open spec fn drain_spill_text(from: int, to: int, sign: char) -> Seq<char> {
    move_text(from, from) + seq!['[', '-'] + move_text(from, -1) + seq!['+'] + move_text(-1, to)
        + seq![sign] + move_text(to, from) + seq![']']
}

/// Second phase of the drain: restore `from` out of `t0`.
#[verifier::opaque]
pub open spec fn drain_restore_text(from: int) -> Seq<char> {
    move_text(from, -1) + seq!['[', '-'] + move_text(-1, from) + seq!['+'] + move_text(from, -1)
        + seq![']']
}

/// The drain at the heart of `copy`, `add` and `sub`: empty `from`
/// into the `t0` temp cell and straight into `to` (`+` to add, `-` to
/// subtract), then restore `from` out of `t0`. The head starts on
/// `from` and ends on `to`.
#[verifier::opaque]
pub open spec fn drain_text(from: int, to: int, sign: char) -> Seq<char> {
    drain_spill_text(from, to, sign) + drain_restore_text(from) + move_text(-1, to)
}

/// The text of `copy`: clear `to`, then drain `from` through the temps.
#[verifier::opaque]
pub open spec fn copy_text(p: int, from: int, to: int) -> Seq<char> {
    zero_text(p, to) + move_text(to, from) + drain_text(from, to, '+')
}

/// The text of `add`: drain `from` through the temps, adding into `to`.
#[verifier::opaque]
pub open spec fn add_text(p: int, to: int, from: int) -> Seq<char> {
    move_text(p, from) + drain_text(from, to, '+')
}

/// The text of `sub`: drain `from` through the temps, subtracting
/// from `to`.
#[verifier::opaque]
pub open spec fn sub_text(p: int, to: int, from: int) -> Seq<char> {
    move_text(p, from) + drain_text(from, to, '-')
}

impl Codegen {
    /// Clear a cell: `[-]` at `a`.
    fn zero(&mut self, a: i32)
        requires
            old(self).wf(),
            cell_in_range(a as int, old(self).spec_vars().len() as int),
        ensures
            final(self).wf(),
            final(self).ptr == a,
            final(self).code@ == old(self).code@ + zero_text(old(self).ptr as int, a as int),
            final(self).block_stack == old(self).block_stack,
            final(self).same_config(old(self)),
            net_move(final(self).code@) == net_move(old(self).code@) + final(self).ptr - old(self).ptr,
    {
        proof {
            lit_clear();
        }
        self.goto(a);
        self.emit("[-]");
        proof {
                        reveal(zero_text);
assert(self.code@ =~= old(self).code@ + zero_text(old(self).ptr as int, a as int));
        }
    }

    /// Add `b` to the cell with `+` repeats.
    fn inc_by(&mut self, a: i32, b: u8)
        requires
            old(self).wf(),
            cell_in_range(a as int, old(self).spec_vars().len() as int),
        ensures
            final(self).wf(),
            final(self).ptr == a,
            final(self).code@ == old(self).code@ + inc_by_text(old(self).ptr as int, a as int, b as nat),
            final(self).block_stack == old(self).block_stack,
            final(self).same_config(old(self)),
            net_move(final(self).code@) == net_move(old(self).code@) + final(self).ptr - old(self).ptr,
    {
        proof {
            lit_plus_minus();
        }
        self.goto(a);
        self.emit_repeat("+", Ghost('+'), b as usize);
        proof {
                        reveal(inc_by_text);
assert(self.code@ =~= old(self).code@ + inc_by_text(old(self).ptr as int, a as int, b as nat));
        }
    }

    /// Subtract `b` from the cell with `-` repeats.
    fn dec_by(&mut self, a: i32, b: u8)
        requires
            old(self).wf(),
            cell_in_range(a as int, old(self).spec_vars().len() as int),
        ensures
            final(self).wf(),
            final(self).ptr == a,
            final(self).code@ == old(self).code@ + dec_by_text(old(self).ptr as int, a as int, b as nat),
            final(self).block_stack == old(self).block_stack,
            final(self).same_config(old(self)),
            net_move(final(self).code@) == net_move(old(self).code@) + final(self).ptr - old(self).ptr,
    {
        proof {
            lit_plus_minus();
        }
        self.goto(a);
        self.emit_repeat("-", Ghost('-'), b as usize);
        proof {
                        reveal(dec_by_text);
assert(self.code@ =~= old(self).code@ + dec_by_text(old(self).ptr as int, a as int, b as nat));
        }
    }

    /// Set the cell to a constant: clear it, then add.
    fn set(&mut self, a: i32, b: u8)
        requires
            old(self).wf(),
            cell_in_range(a as int, old(self).spec_vars().len() as int),
        ensures
            final(self).wf(),
            final(self).ptr == a,
            final(self).code@ == old(self).code@ + set_text(old(self).ptr as int, a as int, b as nat),
            final(self).block_stack == old(self).block_stack,
            final(self).same_config(old(self)),
            net_move(final(self).code@) == net_move(old(self).code@) + final(self).ptr - old(self).ptr,
    {
        self.zero(a);
        self.inc_by(a, b);
        proof {
                        reveal(set_text);
            reveal(inc_by_text);
assert(self.code@ =~= old(self).code@ + set_text(old(self).ptr as int, a as int, b as nat));
        }
    }

    /// Zero the cell, then read one input byte into it.
    fn read(&mut self, a: i32)
        requires
            old(self).wf(),
            cell_in_range(a as int, old(self).spec_vars().len() as int),
        ensures
            final(self).wf(),
            final(self).ptr == a,
            final(self).code@ == old(self).code@ + read_text(old(self).ptr as int, a as int),
            final(self).block_stack == old(self).block_stack,
            final(self).same_config(old(self)),
            net_move(final(self).code@) == net_move(old(self).code@) + final(self).ptr - old(self).ptr,
    {
        proof {
            lit_io();
        }
        self.zero(a);
        self.emit(",");
        proof {
                        reveal(read_text);
            reveal(zero_text);
assert(self.code@ =~= old(self).code@ + read_text(old(self).ptr as int, a as int));
        }
    }

    /// Emit the cell's byte.
    fn print(&mut self, a: i32)
        requires
            old(self).wf(),
            cell_in_range(a as int, old(self).spec_vars().len() as int),
        ensures
            final(self).wf(),
            final(self).ptr == a,
            final(self).code@ == old(self).code@ + print_text(old(self).ptr as int, a as int),
            final(self).block_stack == old(self).block_stack,
            final(self).same_config(old(self)),
            net_move(final(self).code@) == net_move(old(self).code@) + final(self).ptr - old(self).ptr,
    {
        proof {
            lit_io();
        }
        self.goto(a);
        self.emit(".");
        proof {
                        reveal(print_text);
assert(self.code@ =~= old(self).code@ + print_text(old(self).ptr as int, a as int));
        }
    }

    /// Move a value between cells: clear `to`, drain `from` into it.
    /// The head ends on `from`.
    fn move_value(&mut self, from: i32, to: i32)
        requires
            old(self).wf(),
            cell_in_range(from as int, old(self).spec_vars().len() as int),
            cell_in_range(to as int, old(self).spec_vars().len() as int),
        ensures
            final(self).wf(),
            final(self).ptr == from,
            final(self).code@ == old(self).code@ + move_value_text(
                old(self).ptr as int,
                from as int,
                to as int,
            ),
            final(self).block_stack == old(self).block_stack,
            final(self).same_config(old(self)),
            net_move(final(self).code@) == net_move(old(self).code@) + final(self).ptr - old(self).ptr,
    {
        proof {
            lit_clear();
            lit_plus_minus();
            lit_brackets();
        }
        self.zero(to);
        self.goto(from);
        self.emit("[-");
        self.goto(to);
        self.emit("+");
        self.goto(from);
        self.emit("]");
        proof {
                        reveal(move_value_text);
assert(self.code@ =~= old(self).code@ + move_value_text(
                old(self).ptr as int,
                from as int,
                to as int,
            ));
        }
    }

    /// The shared drain through `t0`/`t1`; `sign` is `"+"` for copy and
    /// add, `"-"` for sub. Starts and ends as `drain_text` says.
    #[verifier::rlimit(100)]
    fn drain(&mut self, from: i32, to: i32, sign: &str, sign_c: Ghost<char>)
        requires
            old(self).wf(),
            sign@ == seq![sign_c@],
            sign_c@ == '+' || sign_c@ == '-',
            cell_in_range(from as int, old(self).spec_vars().len() as int),
            cell_in_range(to as int, old(self).spec_vars().len() as int),
            old(self).ptr == from,
        ensures
            final(self).wf(),
            final(self).ptr == to,
            final(self).code@ == old(self).code@ + drain_text(from as int, to as int, sign_c@),
            final(self).block_stack == old(self).block_stack,
            final(self).same_config(old(self)),
            net_move(final(self).code@) == net_move(old(self).code@) + final(self).ptr - old(self).ptr,
    {
        proof {
            lit_clear();
            lit_plus_minus();
            lit_brackets();
            assert(net_move(seq![sign_c@]) == 0) by {
                reveal_with_fuel(net_move, 3);
                assert(seq![sign_c@].drop_last() =~= Seq::<char>::empty());
            }
        }
        self.goto(from);
        self.emit("[-");
        self.goto(-1);
        self.emit("+");
        self.goto(to);
        self.emit(sign);
        self.goto(from);
        self.emit("]");
        proof {
                        reveal(drain_spill_text);
assert(self.code@ =~= old(self).code@ + drain_spill_text(
                from as int,
                to as int,
                sign_c@,
            ));
        }
        let ghost c1 = self.code@;
        self.goto(-1);
        self.emit("[-");
        self.goto(from);
        self.emit("+");
        self.goto(-1);
        self.emit("]");
        self.goto(to);
        proof {
                        reveal(drain_restore_text);
assert(self.code@ =~= c1 + drain_restore_text(from as int) + move_text(-1, to as int));
                        reveal(drain_text);
assert(self.code@ =~= old(self).code@ + drain_text(from as int, to as int, sign_c@));
        }
    }

    /// Copy `from` into `to` through the temps; `from` is preserved at
    /// run time, and the head ends on `to`.
    fn copy(&mut self, from: i32, to: i32)
        requires
            old(self).wf(),
            cell_in_range(from as int, old(self).spec_vars().len() as int),
            cell_in_range(to as int, old(self).spec_vars().len() as int),
        ensures
            final(self).wf(),
            final(self).ptr == to,
            final(self).code@ == old(self).code@ + copy_text(
                old(self).ptr as int,
                from as int,
                to as int,
            ),
            final(self).block_stack == old(self).block_stack,
            final(self).same_config(old(self)),
            net_move(final(self).code@) == net_move(old(self).code@) + final(self).ptr - old(self).ptr,
    {
        proof {
            lit_plus_minus();
        }
        self.zero(to);
        self.goto(from);
        self.drain(from, to, "+", Ghost('+'));
        proof {
                        reveal(copy_text);
assert(self.code@ =~= old(self).code@ + copy_text(
                old(self).ptr as int,
                from as int,
                to as int,
            ));
        }
    }

    /// Add `from` into `to` through the temps; `from` is preserved at
    /// run time, and the head ends on `to`.
    fn add(&mut self, to: i32, from: i32)
        requires
            old(self).wf(),
            cell_in_range(from as int, old(self).spec_vars().len() as int),
            cell_in_range(to as int, old(self).spec_vars().len() as int),
        ensures
            final(self).wf(),
            final(self).ptr == to,
            final(self).code@ == old(self).code@ + add_text(
                old(self).ptr as int,
                to as int,
                from as int,
            ),
            final(self).block_stack == old(self).block_stack,
            final(self).same_config(old(self)),
            net_move(final(self).code@) == net_move(old(self).code@) + final(self).ptr - old(self).ptr,
    {
        proof {
            lit_plus_minus();
        }
        self.goto(from);
        self.drain(from, to, "+", Ghost('+'));
        proof {
                        reveal(add_text);
assert(self.code@ =~= old(self).code@ + add_text(
                old(self).ptr as int,
                to as int,
                from as int,
            ));
        }
    }

    /// Subtract `from` out of `to` through the temps; `from` is
    /// preserved at run time, and the head ends on `to`.
    fn sub(&mut self, to: i32, from: i32)
        requires
            old(self).wf(),
            cell_in_range(from as int, old(self).spec_vars().len() as int),
            cell_in_range(to as int, old(self).spec_vars().len() as int),
        ensures
            final(self).wf(),
            final(self).ptr == to,
            final(self).code@ == old(self).code@ + sub_text(
                old(self).ptr as int,
                to as int,
                from as int,
            ),
            final(self).block_stack == old(self).block_stack,
            final(self).same_config(old(self)),
            net_move(final(self).code@) == net_move(old(self).code@) + final(self).ptr - old(self).ptr,
    {
        proof {
            lit_plus_minus();
        }
        self.goto(from);
        self.drain(from, to, "-", Ghost('-'));
        proof {
                        reveal(sub_text);
assert(self.code@ =~= old(self).code@ + sub_text(
                old(self).ptr as int,
                to as int,
                from as int,
            ));
        }
    }
}

impl Codegen {
    /// Open a loop that runs while the variable is not zero.
    fn while_not_zero(&mut self, a: i32)
        requires
            old(self).wf(),
            cell_in_range(a as int, old(self).spec_vars().len() as int),
        ensures
            final(self).wf(),
            final(self).ptr == a,
            final(self).code@ == old(self).code@ + wnz_open_text(old(self).ptr as int, a as int),
            final(self).block_stack@ == old(self).block_stack@.push(
                BlockFrame::WhileNotZero { a },
            ),
            final(self).same_config(old(self)),
            net_move(final(self).code@) == net_move(old(self).code@) + final(self).ptr - old(self).ptr,
    {
        proof {
            lit_brackets();
        }
        self.goto(a);
        self.emit("[");
        self.block_stack.push(BlockFrame::WhileNotZero { a });
        proof {
                        reveal(wnz_open_text);
assert(self.code@ =~= old(self).code@ + wnz_open_text(old(self).ptr as int, a as int));
        }
    }

    /// Open a loop that runs until `a` equals `b`. Both cells are
    /// restored around each test.
    fn until_equal(&mut self, a: i32, b: i32)
        requires
            old(self).wf(),
            cell_in_range(a as int, old(self).spec_vars().len() as int),
            cell_in_range(b as int, old(self).spec_vars().len() as int),
        ensures
            final(self).wf(),
            final(self).ptr == a,
            final(self).code@ == old(self).code@ + until_open_text(
                old(self).ptr as int,
                a as int,
                b as int,
            ),
            final(self).block_stack@ == old(self).block_stack@.push(
                BlockFrame::UntilEqual { a, b },
            ),
            final(self).same_config(old(self)),
            net_move(final(self).code@) == net_move(old(self).code@) + final(self).ptr - old(self).ptr,
    {
        proof {
            lit_brackets();
        }
        self.sub(a, b);
        self.goto(a);
        self.emit("[");
        self.add(a, b);
        self.block_stack.push(BlockFrame::UntilEqual { a, b });
        proof {
                        reveal(until_open_text);
assert(self.code@ =~= old(self).code@ + until_open_text(
                old(self).ptr as int,
                a as int,
                b as int,
            ));
        }
    }

    /// Open a block run once when `a != b`; uses `t2` as the entry flag.
    fn if_not_equal(&mut self, a: i32, b: i32)
        requires
            old(self).wf(),
            cell_in_range(a as int, old(self).spec_vars().len() as int),
            cell_in_range(b as int, old(self).spec_vars().len() as int),
        ensures
            final(self).wf(),
            final(self).ptr == a,
            final(self).code@ == old(self).code@ + if_neq_open_text(
                old(self).ptr as int,
                a as int,
                b as int,
            ),
            final(self).block_stack@ == old(self).block_stack@.push(
                BlockFrame::IfNotEqual { a, b },
            ),
            final(self).same_config(old(self)),
            net_move(final(self).code@) == net_move(old(self).code@) + final(self).ptr - old(self).ptr,
    {
        proof {
            lit_brackets();
        }
        self.sub(a, b);
        self.goto(a);
        self.copy(a, -3);
        self.goto(-3);
        self.emit("[");
        self.zero(-3);
        self.add(a, b);
        self.block_stack.push(BlockFrame::IfNotEqual { a, b });
        proof {
                        reveal(if_neq_open_text);
assert(self.code@ =~= old(self).code@ + if_neq_open_text(
                old(self).ptr as int,
                a as int,
                b as int,
            ));
        }
    }

    /// The first half of `if_equal`: test the difference and clear the
    /// `t2` flag when the operands differ.
    #[verifier::rlimit(100)]
    fn if_equal_entry(&mut self, a: i32, b: i32)
        requires
            old(self).wf(),
            cell_in_range(a as int, old(self).spec_vars().len() as int),
            cell_in_range(b as int, old(self).spec_vars().len() as int),
        ensures
            final(self).wf(),
            final(self).ptr == -4,
            final(self).code@ == old(self).code@ + if_eq_entry_text(
                old(self).ptr as int,
                a as int,
                b as int,
            ),
            final(self).block_stack == old(self).block_stack,
            final(self).same_config(old(self)),
            net_move(final(self).code@) == net_move(old(self).code@) + final(self).ptr - old(self).ptr,
    {
        proof {
            lit_brackets();
        }
        self.set(-3, 1);
        self.sub(a, b);
        self.copy(a, -4);
        self.goto(-4);
        self.emit("[");
        self.set(-3, 0);
        self.goto(-4);
        self.zero(-4);
        self.emit("]");
        proof {
            reveal(if_eq_entry_text);
            reveal(zero_text);
            reveal(set_text);
            assert(self.code@ =~= old(self).code@ + if_eq_entry_text(
                old(self).ptr as int,
                a as int,
                b as int,
            ));
        }
    }

    /// Open a block run once when `a == b`; uses `t2` as the entry flag
    /// and `t3` as scratch.
    #[verifier::rlimit(100)]
    fn if_equal(&mut self, a: i32, b: i32)
        requires
            old(self).wf(),
            cell_in_range(a as int, old(self).spec_vars().len() as int),
            cell_in_range(b as int, old(self).spec_vars().len() as int),
        ensures
            final(self).wf(),
            final(self).ptr == -3,
            final(self).code@ == old(self).code@ + if_eq_open_text(
                old(self).ptr as int,
                a as int,
                b as int,
            ),
            final(self).block_stack@ == old(self).block_stack@.push(BlockFrame::IfEqual),
            final(self).same_config(old(self)),
            net_move(final(self).code@) == net_move(old(self).code@) + final(self).ptr - old(self).ptr,
    {
        proof {
            lit_brackets();
        }
        self.if_equal_entry(a, b);
        self.add(a, b);
        self.goto(-3);
        self.emit("[");
        self.zero(-3);
        self.block_stack.push(BlockFrame::IfEqual);
        proof {
                        reveal(if_eq_open_text);
assert(self.code@ =~= old(self).code@ + if_eq_open_text(
                old(self).ptr as int,
                a as int,
                b as int,
            ));
        }
    }

    /// Open a block run once when `a` equals the constant; uses `t2` as
    /// the entry flag and `t3` as scratch.
    #[verifier::rlimit(100)]
    fn if_equal_const(&mut self, a: i32, k: u8)
        requires
            old(self).wf(),
            cell_in_range(a as int, old(self).spec_vars().len() as int),
        ensures
            final(self).wf(),
            final(self).ptr == -3,
            final(self).code@ == old(self).code@ + if_eq_c_open_text(
                old(self).ptr as int,
                a as int,
                k as nat,
            ),
            final(self).block_stack@ == old(self).block_stack@.push(BlockFrame::IfEqualConst),
            final(self).same_config(old(self)),
            net_move(final(self).code@) == net_move(old(self).code@) + final(self).ptr - old(self).ptr,
    {
        proof {
            lit_brackets();
        }
        self.set(-3, 1);
        self.zero(-4);
        self.dec_by(a, k);
        self.goto(a);
        self.emit("[");
        self.set(-3, 0);
        self.move_value(a, -4);
        self.goto(a);
        self.emit("]");
        let ghost mid = self.block_stack@;
        self.while_not_zero(-4);
        self.dec_by(-4, 1);
        self.inc_by(a, 1);
        let r = self.end();
        proof {
            assert(r is Ok);
            assert(self.block_stack@ =~= old(self).block_stack@);
        }
        self.inc_by(a, k);
        self.goto(-3);
        self.emit("[");
        self.zero(-3);
        self.block_stack.push(BlockFrame::IfEqualConst);
        proof {
                        reveal(if_eq_c_open_text);
            reveal(wnz_open_text);
assert(self.code@ =~= old(self).code@ + if_eq_c_open_text(
                old(self).ptr as int,
                a as int,
                k as nat,
            ));
        }
    }

    /// Open a block run once when `a` differs from the constant; uses
    /// `t2` as the entry flag.
    fn if_not_equal_const(&mut self, a: i32, k: u8)
        requires
            old(self).wf(),
            cell_in_range(a as int, old(self).spec_vars().len() as int),
        ensures
            final(self).wf(),
            final(self).ptr == -3,
            final(self).code@ == old(self).code@ + if_neq_c_open_text(
                old(self).ptr as int,
                a as int,
                k as nat,
            ),
            final(self).block_stack@ == old(self).block_stack@.push(BlockFrame::IfNotEqualConst),
            final(self).same_config(old(self)),
            net_move(final(self).code@) == net_move(old(self).code@) + final(self).ptr - old(self).ptr,
    {
        proof {
            lit_brackets();
        }
        self.dec_by(a, k);
        self.copy(a, -3);
        self.inc_by(a, k);
        self.goto(-3);
        self.emit("[");
        self.zero(-3);
        self.block_stack.push(BlockFrame::IfNotEqualConst);
        proof {
                        reveal(if_neq_c_open_text);
assert(self.code@ =~= old(self).code@ + if_neq_c_open_text(
                old(self).ptr as int,
                a as int,
                k as nat,
            ));
        }
    }

    /// Close the innermost open block, emitting the fragment the
    /// opener's frame calls for.
    fn end(&mut self) -> (r: Result<(), CodegenError>)
        requires
            old(self).wf(),
        ensures
            final(self).wf(),
            final(self).same_config(old(self)),
            old(self).block_stack@.len() == 0 ==> r is Err && *final(self) == *old(self),
            old(self).block_stack@.len() > 0 ==> match old(self).block_stack@.last() {
                BlockFrame::WhileNotZero { a } => r is Ok && final(self).ptr == a && final(self).code@ == old(self).code@ + move_text(old(self).ptr as int, a as int) + seq![']'],
                BlockFrame::IfNotEqual { a, b } => r is Ok && final(self).ptr == a && final(self).code@ == old(self).code@ + sub_text(old(self).ptr as int, a as int, b as int)
                    + move_text(a as int, -3) + seq![']'] + add_text(-3, a as int, b as int),
                BlockFrame::UntilEqual { a, b } => r is Ok && final(self).ptr == a && final(self).code@ == old(self).code@ + sub_text(old(self).ptr as int, a as int, b as int)
                    + seq![']'] + add_text(a as int, a as int, b as int),
                BlockFrame::IfEqual => r is Ok && final(self).ptr == -3 && final(self).code@ == old(self).code@ + zero_text(old(self).ptr as int, -3) + seq![']'],
                BlockFrame::IfEqualConst => r is Ok && final(self).ptr == -3 && final(self).code@
                    == old(self).code@ + zero_text(old(self).ptr as int, -3) + seq![']'],
                BlockFrame::IfNotEqualConst => r is Ok && final(self).ptr == -3 && final(self).code@ == old(self).code@ + move_text(old(self).ptr as int, -3) + seq![']']
                    + zero_text(-3, -3),
                BlockFrame::Matching { total, done } => {
                    if done == total {
                        r is Ok && final(self).ptr == old(self).ptr && final(self).code@ == old(self).code@ + seq![']']
                    } else {
                        r is Err && *final(self) == *old(self)
                    }
                },
            },
            r is Ok ==> old(self).block_stack@.len() > 0 && final(self).block_stack@ == old(self).block_stack@.drop_last(),
            r is Ok ==> net_move(final(self).code@) == net_move(old(self).code@) + final(self).ptr
                - old(self).ptr,
            r is Err ==> *final(self) == *old(self) && r->Err_0 is InvariantViolation,
    {
        proof {
            lit_brackets();
        }
        let frame = match self.block_stack.last() {
            None => {
                return Err(CodegenError::InvariantViolation(InvariantViolation::MisplacedEnd));
            }
            Some(f) => f.clone_frame(),
        };
        if let BlockFrame::Matching { total, done } = frame {
            if done != total {
                return Err(CodegenError::InvariantViolation(InvariantViolation::UnfinishedMatch));
            }
        }
        let _ = self.block_stack.pop();
        match frame {
            BlockFrame::WhileNotZero { a } => {
                self.goto(a);
                self.emit("]");
                proof {
                    assert(self.code@ =~= old(self).code@ + move_text(
                        old(self).ptr as int,
                        a as int,
                    ) + seq![']']);
                }
            }
            BlockFrame::IfNotEqual { a, b } => {
                self.sub(a, b);
                self.goto(-3);
                self.emit("]");
                self.add(a, b);
                proof {
                    assert(self.code@ =~= old(self).code@ + sub_text(
                        old(self).ptr as int,
                        a as int,
                        b as int,
                    ) + move_text(a as int, -3) + seq![']'] + add_text(-3, a as int, b as int));
                }
            }
            BlockFrame::UntilEqual { a, b } => {
                self.sub(a, b);
                self.goto(a);
                self.emit("]");
                self.add(a, b);
                proof {
                    assert(self.code@ =~= old(self).code@ + sub_text(
                        old(self).ptr as int,
                        a as int,
                        b as int,
                    ) + seq![']'] + add_text(a as int, a as int, b as int));
                }
            }
            BlockFrame::IfEqual => {
                self.zero(-3);
                self.goto(-3);
                self.emit("]");
                proof {
                    assert(self.code@ =~= old(self).code@ + zero_text(old(self).ptr as int, -3)
                        + seq![']']);
                }
            }
            BlockFrame::IfEqualConst => {
                self.zero(-3);
                self.emit("]");
                proof {
                    assert(self.code@ =~= old(self).code@ + zero_text(old(self).ptr as int, -3)
                        + seq![']']);
                }
            }
            BlockFrame::IfNotEqualConst => {
                self.goto(-3);
                self.emit("]");
                self.zero(-3);
                proof {
                    assert(self.code@ =~= old(self).code@ + move_text(old(self).ptr as int, -3)
                        + seq![']'] + zero_text(-3, -3));
                }
            }
            BlockFrame::Matching { .. } => {
                self.emit("]");
                proof {
                    assert(self.code@ =~= old(self).code@ + seq![']']);
                }
            }
        }
        Ok(())
    }
}

impl BlockFrame {
    /// An explicit copy, so that contracts can speak of the fields.
    fn clone_frame(&self) -> (r: Self)
        ensures
            r == *self,
    {
        match self {
            BlockFrame::IfEqual => BlockFrame::IfEqual,
            BlockFrame::IfEqualConst => BlockFrame::IfEqualConst,
            BlockFrame::IfNotEqualConst => BlockFrame::IfNotEqualConst,
            BlockFrame::IfNotEqual { a, b } => BlockFrame::IfNotEqual { a: *a, b: *b },
            BlockFrame::UntilEqual { a, b } => BlockFrame::UntilEqual { a: *a, b: *b },
            BlockFrame::WhileNotZero { a } => BlockFrame::WhileNotZero { a: *a },
            BlockFrame::Matching { total, done } => BlockFrame::Matching {
                total: *total,
                done: *done,
            },
        }
    }
}

impl Codegen {
    /// Multiply: add `a` to a running total `b` times, through `t2`
    /// and `t3`. The head ends on `t3`.
    #[verifier::rlimit(100)]
    fn mul(&mut self, a: i32, b: i32)
        requires
            old(self).wf(),
            cell_in_range(a as int, old(self).spec_vars().len() as int),
            cell_in_range(b as int, old(self).spec_vars().len() as int),
        ensures
            final(self).wf(),
            final(self).ptr == -4,
            final(self).code@ == old(self).code@ + mul_text(old(self).ptr as int, a as int, b as int),
            final(self).block_stack@ == old(self).block_stack@,
            final(self).same_config(old(self)),
            net_move(final(self).code@) == net_move(old(self).code@) + final(self).ptr - old(self).ptr,
    {
        let ghost base = old(self).code@;
        let ghost frag: Seq<char>;
        self.copy(b, -3);
        proof {
            frag = copy_text(old(self).ptr as int, b as int, -3);
        }
        self.while_not_zero(-3);
        proof {
            lemma_chunk_assoc(base, frag, wnz_open_text(-3, -3));
            frag = frag + wnz_open_text(-3, -3);
        }
        self.dec_by(-3, 1);
        proof {
            lemma_chunk_assoc(base, frag, dec_by_text(-3, -3, 1));
            frag = frag + dec_by_text(-3, -3, 1);
        }
        self.add(-4, a);
        proof {
            lemma_chunk_assoc(base, frag, add_text(-3, -4, a as int));
            frag = frag + add_text(-3, -4, a as int);
        }
        let r = self.end();
        proof {
            assert(r is Ok);
            assert(self.block_stack@ =~= old(self).block_stack@);
            lemma_chunk_assoc(base, frag, move_text(-4, -3));
            frag = frag + move_text(-4, -3);
            lemma_chunk_assoc(base, frag, seq![']']);
            frag = frag + seq![']'];
        }
        self.move_value(-4, a);
        proof {
            lemma_chunk_assoc(base, frag, move_value_text(-3, -4, a as int));
            frag = frag + move_value_text(-3, -4, a as int);
            reveal(mul_text);
            assert(frag == mul_text(old(self).ptr as int, a as int, b as int));
        }
    }

    /// The scanning half of `compare`: guard on inequality, count both
    /// operands down with the `t1` counter until one reaches zero and
    /// set `res` accordingly. Leaves the not-equal frame open.
    #[verifier::rlimit(100)]
    fn compare_scan(&mut self, a: i32, b: i32, res: i32)
        requires
            old(self).wf(),
            cell_in_range(a as int, old(self).spec_vars().len() as int),
            cell_in_range(b as int, old(self).spec_vars().len() as int),
            cell_in_range(res as int, old(self).spec_vars().len() as int),
        ensures
            final(self).wf(),
            final(self).ptr == -1,
            final(self).code@ == old(self).code@ + compare_scan_text(
                old(self).ptr as int,
                a as int,
                b as int,
                res as int,
            ),
            final(self).block_stack@ == old(self).block_stack@.push(
                BlockFrame::IfNotEqual { a, b },
            ),
            final(self).same_config(old(self)),
            net_move(final(self).code@) == net_move(old(self).code@) + final(self).ptr - old(self).ptr,
    {
        proof {
            lit_clear();
            lit_plus_minus();
            lit_brackets();
        }
        let ghost base = old(self).code@;
        let ghost frag: Seq<char>;
        self.zero(res);
        proof {
            frag = zero_text(old(self).ptr as int, res as int);
        }
        self.if_not_equal(a, b);
        proof {
            lemma_chunk_assoc(base, frag, if_neq_open_text(res as int, a as int, b as int));
            frag = frag + if_neq_open_text(res as int, a as int, b as int);
        }
        self.zero(-2);
        proof {
            lemma_chunk_assoc(base, frag, zero_text(a as int, -2));
            frag = frag + zero_text(a as int, -2);
        }
        self.set(-1, 1);
        proof {
            lemma_chunk_assoc(base, frag, set_text(-2, -1, 1));
            frag = frag + set_text(-2, -1, 1);
        }
        self.while_not_zero(-1);
        proof {
            lemma_chunk_assoc(base, frag, wnz_open_text(-1, -1));
            frag = frag + wnz_open_text(-1, -1);
        }
        self.inc_by(-2, 1);
        proof {
            lemma_chunk_assoc(base, frag, inc_by_text(-1, -2, 1));
            frag = frag + inc_by_text(-1, -2, 1);
        }
        self.dec_by(b, 1);
        proof {
            lemma_chunk_assoc(base, frag, dec_by_text(-2, b as int, 1));
            frag = frag + dec_by_text(-2, b as int, 1);
        }
        self.dec_by(a, 1);
        proof {
            lemma_chunk_assoc(base, frag, dec_by_text(b as int, a as int, 1));
            frag = frag + dec_by_text(b as int, a as int, 1);
        }
        self.if_equal_const(a, 0);
        proof {
            lemma_chunk_assoc(base, frag, if_eq_c_open_text(a as int, a as int, 0));
            frag = frag + if_eq_c_open_text(a as int, a as int, 0);
        }
        self.set(res, 1);
        proof {
            lemma_chunk_assoc(base, frag, set_text(-3, res as int, 1));
            frag = frag + set_text(-3, res as int, 1);
        }
        self.set(-1, 0);
        proof {
            lemma_chunk_assoc(base, frag, set_text(res as int, -1, 0));
            frag = frag + set_text(res as int, -1, 0);
        }
        let re1 = self.end();
        proof {
            assert(re1 is Ok);
            lemma_chunk_assoc(base, frag, zero_text(-1, -3));
            frag = frag + zero_text(-1, -3);
            lemma_chunk_assoc(base, frag, seq![']']);
            frag = frag + seq![']'];
        }
        self.if_equal_const(b, 0);
        proof {
            lemma_chunk_assoc(base, frag, if_eq_c_open_text(-3, b as int, 0));
            frag = frag + if_eq_c_open_text(-3, b as int, 0);
        }
        self.set(res, 2);
        proof {
            lemma_chunk_assoc(base, frag, set_text(-3, res as int, 2));
            frag = frag + set_text(-3, res as int, 2);
        }
        self.set(-1, 0);
        proof {
            lemma_chunk_assoc(base, frag, set_text(res as int, -1, 0));
            frag = frag + set_text(res as int, -1, 0);
        }
        let re2 = self.end();
        proof {
            assert(re2 is Ok);
            lemma_chunk_assoc(base, frag, zero_text(-1, -3));
            frag = frag + zero_text(-1, -3);
            lemma_chunk_assoc(base, frag, seq![']']);
            frag = frag + seq![']'];
        }
        let re3 = self.end();
        proof {
            assert(re3 is Ok);
            lemma_chunk_assoc(base, frag, move_text(-3, -1));
            frag = frag + move_text(-3, -1);
            lemma_chunk_assoc(base, frag, seq![']']);
            frag = frag + seq![']'];
        }
        proof {
            reveal(compare_scan_text);
            assert(frag == compare_scan_text(old(self).ptr as int, a as int, b as int, res as int));
            assert(self.block_stack@ =~= old(self).block_stack@.push(
                BlockFrame::IfNotEqual { a, b },
            ));
        }
    }

    /// Compare `a` and `b` into `res`: 0 if equal, 1 if `a` is less,
    /// 2 if greater. When they differ, both are counted down in step
    /// with the `t1` counter until one reaches zero, then restored
    /// from the counter. The head ends on `a`.
    #[verifier::rlimit(100)]
    fn compare(&mut self, a: i32, b: i32, res: i32)
        requires
            old(self).wf(),
            cell_in_range(a as int, old(self).spec_vars().len() as int),
            cell_in_range(b as int, old(self).spec_vars().len() as int),
            cell_in_range(res as int, old(self).spec_vars().len() as int),
        ensures
            final(self).wf(),
            final(self).ptr == a,
            final(self).code@ == old(self).code@ + compare_text(
                old(self).ptr as int,
                a as int,
                b as int,
                res as int,
            ),
            final(self).block_stack@ == old(self).block_stack@,
            final(self).same_config(old(self)),
            net_move(final(self).code@) == net_move(old(self).code@) + final(self).ptr - old(self).ptr,
    {
        proof {
            lit_clear();
            lit_plus_minus();
            lit_brackets();
        }
        let ghost base = old(self).code@;
        let ghost frag: Seq<char>;
        self.compare_scan(a, b, res);
        proof {
            frag = compare_scan_text(old(self).ptr as int, a as int, b as int, res as int);
        }
        // Replay the counter onto both inputs to restore them.
        self.goto(-2);
        proof {
            lemma_chunk_assoc(base, frag, move_text(-1, -2));
            frag = frag + move_text(-1, -2);
        }
        self.emit("[-");
        proof {
            lemma_chunk_assoc(base, frag, seq!['[', '-']);
            frag = frag + seq!['[', '-'];
        }
        self.goto(a);
        proof {
            lemma_chunk_assoc(base, frag, move_text(-2, a as int));
            frag = frag + move_text(-2, a as int);
        }
        self.emit("+");
        proof {
            lemma_chunk_assoc(base, frag, seq!['+']);
            frag = frag + seq!['+'];
        }
        self.goto(b);
        proof {
            lemma_chunk_assoc(base, frag, move_text(a as int, b as int));
            frag = frag + move_text(a as int, b as int);
        }
        self.emit("+");
        proof {
            lemma_chunk_assoc(base, frag, seq!['+']);
            frag = frag + seq!['+'];
        }
        self.goto(-2);
        proof {
            lemma_chunk_assoc(base, frag, move_text(b as int, -2));
            frag = frag + move_text(b as int, -2);
        }
        self.emit("]");
        proof {
            lemma_chunk_assoc(base, frag, seq![']']);
            frag = frag + seq![']'];
        }
        let re1 = self.end();
        proof {
            assert(re1 is Ok);
            lemma_chunk_assoc(base, frag, sub_text(-2, a as int, b as int));
            frag = frag + sub_text(-2, a as int, b as int);
            lemma_chunk_assoc(base, frag, move_text(a as int, -3));
            frag = frag + move_text(a as int, -3);
            lemma_chunk_assoc(base, frag, seq![']']);
            frag = frag + seq![']'];
            lemma_chunk_assoc(base, frag, add_text(-3, a as int, b as int));
            frag = frag + add_text(-3, a as int, b as int);
        }
        proof {
            assert(self.block_stack@ =~= old(self).block_stack@);
            reveal(compare_text);
            assert(frag == compare_text(old(self).ptr as int, a as int, b as int, res as int));
        }
    }

    /// Euclidean division: repeated subtraction guarded by `compare`,
    /// with the inputs snapshotted in `t8`/`t9` and restored at the
    /// end. The head ends on the quotient.
    #[verifier::rlimit(100)]
    fn div(&mut self, a: i32, b: i32, remainder: i32, quotient: i32)
        requires
            old(self).wf(),
            cell_in_range(a as int, old(self).spec_vars().len() as int),
            cell_in_range(b as int, old(self).spec_vars().len() as int),
            cell_in_range(remainder as int, old(self).spec_vars().len() as int),
            cell_in_range(quotient as int, old(self).spec_vars().len() as int),
        ensures
            final(self).wf(),
            final(self).ptr == quotient,
            final(self).code@ == old(self).code@ + div_text(
                old(self).ptr as int,
                a as int,
                b as int,
                remainder as int,
                quotient as int,
            ),
            final(self).block_stack@ == old(self).block_stack@,
            final(self).same_config(old(self)),
            net_move(final(self).code@) == net_move(old(self).code@) + final(self).ptr - old(self).ptr,
    {
        let ghost base = old(self).code@;
        let ghost frag: Seq<char>;
        self.copy(a, -10);
        proof {
            frag = copy_text(old(self).ptr as int, a as int, -10);
        }
        self.copy(b, -9);
        proof {
            lemma_chunk_assoc(base, frag, copy_text(-10, b as int, -9));
            frag = frag + copy_text(-10, b as int, -9);
        }
        self.zero(remainder);
        proof {
            lemma_chunk_assoc(base, frag, zero_text(-9, remainder as int));
            frag = frag + zero_text(-9, remainder as int);
        }
        self.zero(quotient);
        proof {
            lemma_chunk_assoc(base, frag, zero_text(remainder as int, quotient as int));
            frag = frag + zero_text(remainder as int, quotient as int);
        }
        self.set(-8, 1);
        proof {
            lemma_chunk_assoc(base, frag, set_text(quotient as int, -8, 1));
            frag = frag + set_text(quotient as int, -8, 1);
        }
        self.while_not_zero(-8);
        proof {
            lemma_chunk_assoc(base, frag, wnz_open_text(-8, -8));
            frag = frag + wnz_open_text(-8, -8);
        }
        self.compare(a, b, -7);
        proof {
            lemma_chunk_assoc(base, frag, compare_text(-8, a as int, b as int, -7));
            frag = frag + compare_text(-8, a as int, b as int, -7);
        }
        self.if_not_equal_const(-7, 1);
        proof {
            lemma_chunk_assoc(base, frag, if_neq_c_open_text(a as int, -7, 1));
            frag = frag + if_neq_c_open_text(a as int, -7, 1);
        }
        self.sub(a, b);
        proof {
            lemma_chunk_assoc(base, frag, sub_text(-3, a as int, b as int));
            frag = frag + sub_text(-3, a as int, b as int);
        }
        self.inc_by(quotient, 1);
        proof {
            lemma_chunk_assoc(base, frag, inc_by_text(a as int, quotient as int, 1));
            frag = frag + inc_by_text(a as int, quotient as int, 1);
        }
        let r1 = self.end();
        proof {
            assert(r1 is Ok);
            lemma_chunk_assoc(base, frag, move_text(quotient as int, -3));
            frag = frag + move_text(quotient as int, -3);
            lemma_chunk_assoc(base, frag, seq![']']);
            frag = frag + seq![']'];
            lemma_chunk_assoc(base, frag, zero_text(-3, -3));
            frag = frag + zero_text(-3, -3);
        }
        self.if_not_equal_const(-7, 2);
        proof {
            lemma_chunk_assoc(base, frag, if_neq_c_open_text(-3, -7, 2));
            frag = frag + if_neq_c_open_text(-3, -7, 2);
        }
        self.set(-8, 0);
        proof {
            lemma_chunk_assoc(base, frag, set_text(-3, -8, 0));
            frag = frag + set_text(-3, -8, 0);
        }
        let r2 = self.end();
        proof {
            assert(r2 is Ok);
            lemma_chunk_assoc(base, frag, move_text(-8, -3));
            frag = frag + move_text(-8, -3);
            lemma_chunk_assoc(base, frag, seq![']']);
            frag = frag + seq![']'];
            lemma_chunk_assoc(base, frag, zero_text(-3, -3));
            frag = frag + zero_text(-3, -3);
        }
        let r3 = self.end();
        proof {
            assert(r3 is Ok);
            assert(self.block_stack@ =~= old(self).block_stack@);
            lemma_chunk_assoc(base, frag, move_text(-3, -8));
            frag = frag + move_text(-3, -8);
            lemma_chunk_assoc(base, frag, seq![']']);
            frag = frag + seq![']'];
        }
        self.zero(-7);
        proof {
            lemma_chunk_assoc(base, frag, zero_text(-8, -7));
            frag = frag + zero_text(-8, -7);
        }
        self.move_value(a, remainder);
        proof {
            lemma_chunk_assoc(base, frag, move_value_text(-7, a as int, remainder as int));
            frag = frag + move_value_text(-7, a as int, remainder as int);
        }
        self.move_value(-10, a);
        proof {
            lemma_chunk_assoc(base, frag, move_value_text(a as int, -10, a as int));
            frag = frag + move_value_text(a as int, -10, a as int);
        }
        self.move_value(-9, b);
        proof {
            lemma_chunk_assoc(base, frag, move_value_text(-10, -9, b as int));
            frag = frag + move_value_text(-10, -9, b as int);
        }
        self.goto(quotient);
        proof {
            lemma_chunk_assoc(base, frag, move_text(-9, quotient as int));
            frag = frag + move_text(-9, quotient as int);
        }
        proof {
            reveal(div_text);
            assert(frag == div_text(old(self).ptr as int, a as int, b as int, remainder as int, quotient as int));
        }
    }

    /// Print a cell as decimal: split it into hundreds, tens and ones
    /// with two divisions, print each digit that is not zero, and zero
    /// the temps used. The head ends on `t15`.
    #[verifier::rlimit(100)]
    fn printc(&mut self, a: i32)
        requires
            old(self).wf(),
            cell_in_range(a as int, old(self).spec_vars().len() as int),
        ensures
            final(self).wf(),
            final(self).ptr == -16,
            final(self).code@ == old(self).code@ + printc_text(old(self).ptr as int, a as int),
            final(self).block_stack@ == old(self).block_stack@,
            final(self).same_config(old(self)),
            net_move(final(self).code@) == net_move(old(self).code@) + final(self).ptr - old(self).ptr,
    {
        let ghost base = old(self).code@;
        let ghost frag: Seq<char>;
        self.set(-16, 100);
        proof {
            frag = set_text(old(self).ptr as int, -16, 100);
        }
        self.div(a, -16, -11, -12);
        proof {
            lemma_chunk_assoc(base, frag, div_text(-16, a as int, -16, -11, -12));
            frag = frag + div_text(-16, a as int, -16, -11, -12);
        }
        self.set(-16, 10);
        proof {
            lemma_chunk_assoc(base, frag, set_text(-12, -16, 10));
            frag = frag + set_text(-12, -16, 10);
        }
        self.div(-11, -16, -13, -15);
        proof {
            lemma_chunk_assoc(base, frag, div_text(-16, -11, -16, -13, -15));
            frag = frag + div_text(-16, -11, -16, -13, -15);
        }
        self.set(-16, 0);
        proof {
            lemma_chunk_assoc(base, frag, set_text(-15, -16, 0));
            frag = frag + set_text(-15, -16, 0);
        }
        self.if_not_equal(-12, -16);
        proof {
            lemma_chunk_assoc(base, frag, if_neq_open_text(-16, -12, -16));
            frag = frag + if_neq_open_text(-16, -12, -16);
        }
        self.inc_by(-12, 48);
        proof {
            lemma_chunk_assoc(base, frag, inc_by_text(-12, -12, 48));
            frag = frag + inc_by_text(-12, -12, 48);
        }
        self.print(-12);
        proof {
            lemma_chunk_assoc(base, frag, print_text(-12, -12));
            frag = frag + print_text(-12, -12);
        }
        let r1 = self.end();
        proof {
            assert(r1 is Ok);
            lemma_chunk_assoc(base, frag, sub_text(-12, -12, -16));
            frag = frag + sub_text(-12, -12, -16);
            lemma_chunk_assoc(base, frag, move_text(-12, -3));
            frag = frag + move_text(-12, -3);
            lemma_chunk_assoc(base, frag, seq![']']);
            frag = frag + seq![']'];
            lemma_chunk_assoc(base, frag, add_text(-3, -12, -16));
            frag = frag + add_text(-3, -12, -16);
        }
        self.if_not_equal(-15, -16);
        proof {
            lemma_chunk_assoc(base, frag, if_neq_open_text(-12, -15, -16));
            frag = frag + if_neq_open_text(-12, -15, -16);
        }
        self.inc_by(-15, 48);
        proof {
            lemma_chunk_assoc(base, frag, inc_by_text(-15, -15, 48));
            frag = frag + inc_by_text(-15, -15, 48);
        }
        self.print(-15);
        proof {
            lemma_chunk_assoc(base, frag, print_text(-15, -15));
            frag = frag + print_text(-15, -15);
        }
        let r2 = self.end();
        proof {
            assert(r2 is Ok);
            lemma_chunk_assoc(base, frag, sub_text(-15, -15, -16));
            frag = frag + sub_text(-15, -15, -16);
            lemma_chunk_assoc(base, frag, move_text(-15, -3));
            frag = frag + move_text(-15, -3);
            lemma_chunk_assoc(base, frag, seq![']']);
            frag = frag + seq![']'];
            lemma_chunk_assoc(base, frag, add_text(-3, -15, -16));
            frag = frag + add_text(-3, -15, -16);
        }
        self.if_not_equal(-13, -16);
        proof {
            lemma_chunk_assoc(base, frag, if_neq_open_text(-15, -13, -16));
            frag = frag + if_neq_open_text(-15, -13, -16);
        }
        self.inc_by(-13, 48);
        proof {
            lemma_chunk_assoc(base, frag, inc_by_text(-13, -13, 48));
            frag = frag + inc_by_text(-13, -13, 48);
        }
        self.print(-13);
        proof {
            lemma_chunk_assoc(base, frag, print_text(-13, -13));
            frag = frag + print_text(-13, -13);
        }
        let r3 = self.end();
        proof {
            assert(r3 is Ok);
            assert(self.block_stack@ =~= old(self).block_stack@);
            lemma_chunk_assoc(base, frag, sub_text(-13, -13, -16));
            frag = frag + sub_text(-13, -13, -16);
            lemma_chunk_assoc(base, frag, move_text(-13, -3));
            frag = frag + move_text(-13, -3);
            lemma_chunk_assoc(base, frag, seq![']']);
            frag = frag + seq![']'];
            lemma_chunk_assoc(base, frag, add_text(-3, -13, -16));
            frag = frag + add_text(-3, -13, -16);
        }
        self.zero(-11);
        proof {
            lemma_chunk_assoc(base, frag, zero_text(-13, -11));
            frag = frag + zero_text(-13, -11);
        }
        self.zero(-12);
        proof {
            lemma_chunk_assoc(base, frag, zero_text(-11, -12));
            frag = frag + zero_text(-11, -12);
        }
        self.zero(-13);
        proof {
            lemma_chunk_assoc(base, frag, zero_text(-12, -13));
            frag = frag + zero_text(-12, -13);
        }
        self.zero(-14);
        proof {
            lemma_chunk_assoc(base, frag, zero_text(-13, -14));
            frag = frag + zero_text(-13, -14);
        }
        self.zero(-15);
        proof {
            lemma_chunk_assoc(base, frag, zero_text(-14, -15));
            frag = frag + zero_text(-14, -15);
        }
        self.zero(-16);
        proof {
            lemma_chunk_assoc(base, frag, zero_text(-15, -16));
            frag = frag + zero_text(-15, -16);
        }
        proof {
            reveal(printc_text);
            assert(frag == printc_text(old(self).ptr as int, a as int));
        }
    }

    /// Go to the cell just past the last user variable, where the
    /// side-tape stack begins.
    fn goto_end_of_vars(&mut self)
        requires
            old(self).wf(),
        ensures
            final(self).wf(),
            final(self).ptr == old(self).spec_vars().len() as int,
            final(self).code@ == old(self).code@ + move_text(
                old(self).ptr as int,
                old(self).spec_vars().len() as int,
            ),
            final(self).block_stack == old(self).block_stack,
            final(self).same_config(old(self)),
            net_move(final(self).code@) == net_move(old(self).code@) + final(self).ptr - old(self).ptr,
    {
        let count = self.parsed.variable_count();
        self.goto(count as i32);
    }

    /// Push the cell's value onto the side-tape stack, preserving it.
    /// The head ends back on `a`.
    #[verifier::rlimit(100)]
    fn stack_push(&mut self, a: i32)
        requires
            old(self).wf(),
            cell_in_range(a as int, old(self).spec_vars().len() as int),
        ensures
            final(self).wf(),
            final(self).ptr == a,
            final(self).code@ == old(self).code@ + push_text(
                old(self).ptr as int,
                old(self).spec_vars().len() as int,
                a as int,
            ),
            final(self).block_stack@ == old(self).block_stack@,
            final(self).same_config(old(self)),
            net_move(final(self).code@) == net_move(old(self).code@) + final(self).ptr - old(self).ptr,
    {
        proof {
            lit_plus_minus();
            lit_brackets();
            lit_walk();
        }
        self.copy(a, -2);
        self.goto(-2);
        self.while_not_zero(-2);
        self.emit("-");
        self.goto_end_of_vars();
        self.emit(">>");
        self.emit("[>>]");
        self.emit(">+<");
        self.emit("<<");
        self.emit("[<<]");
        self.goto(-2);
        let r = self.end();
        proof {
            assert(r is Ok);
            assert(self.block_stack@ =~= old(self).block_stack@);
        }
        self.goto_end_of_vars();
        self.emit(">>");
        self.emit("[>>]");
        self.emit("+");
        self.emit("<<");
        self.emit("[<<]");
        self.goto(a);
        proof {
                        reveal(push_text);
            reveal(wnz_open_text);
assert(self.code@ =~= old(self).code@ + push_text(
                old(self).ptr as int,
                old(self).spec_vars().len() as int,
                a as int,
            ));
        }
    }

    /// Pop the top of the side-tape stack into the cell. The closing
    /// walk relies on the run-time positions of the stack pairs, so
    /// the recorded head index is reconciled only at the final move.
    #[verifier::rlimit(100)]
    fn stack_pop(&mut self, a: i32)
        requires
            old(self).wf(),
            cell_in_range(a as int, old(self).spec_vars().len() as int),
        ensures
            final(self).wf(),
            final(self).ptr == a,
            final(self).code@ == old(self).code@ + pop_text(
                old(self).ptr as int,
                old(self).spec_vars().len() as int,
                a as int,
            ),
            final(self).block_stack == old(self).block_stack,
            final(self).same_config(old(self)),
    {
        proof {
            lit_plus_minus();
            lit_brackets();
            lit_arrows();
            lit_walk();
        }
        self.zero(a);
        self.goto_end_of_vars();
        self.emit(">>");
        self.emit("[>>]<");
        self.emit("[");
        self.emit("-");
        self.emit("<");
        self.emit("[<<]");
        self.goto(a);
        self.emit("+");
        self.goto_end_of_vars();
        self.emit(">>");
        self.emit("[>>]<");
        self.emit("]");
        self.emit("<#[-]");
        self.emit("<<[<<]");
        self.goto(a);
        proof {
                        reveal(pop_text);
assert(self.code@ =~= old(self).code@ + pop_text(
                old(self).ptr as int,
                old(self).spec_vars().len() as int,
                a as int,
            ));
        }
    }
}

impl Codegen {
    /// Print a literal message, one byte at a time, from the `t0`
    /// cell: each character is reached by adding or subtracting its
    /// distance from the previous one.
    #[verifier::rlimit(100)]
    fn print_msg(&mut self, msg: &str)
        requires
            old(self).wf(),
        ensures
            final(self).wf(),
            final(self).ptr == -1,
            final(self).code@ == old(self).code@ + print_msg_text(old(self).ptr as int, msg@),
            final(self).block_stack == old(self).block_stack,
            final(self).same_config(old(self)),
            net_move(final(self).code@) == net_move(old(self).code@) + final(self).ptr - old(self).ptr,
    {
        proof {
            lit_io();
        }
        self.zero(-1);
        let ghost base = self.code@;
        let ghost emitted: Seq<char> = Seq::empty();
        let n = msg.unicode_len();
        let mut last: i64 = 0;
        let mut i: usize = 0;
        proof {
            assert(base + emitted =~= base);
            assert(msg@.skip(0) =~= msg@);
        }
        while i < n
            invariant
                i <= n,
                n == msg@.len(),
                self.wf(),
                self.ptr == -1,
                0 <= last <= u32::MAX,
                self.block_stack == old(self).block_stack,
                self.same_config(old(self)),
                base == old(self).code@ + zero_text(old(self).ptr as int, -1),
                self.code@ == base + emitted,
                msg_chars_text(unescape(msg@), 0) == emitted + msg_chars_text(
                    unescape(msg@.skip(i as int)),
                    last as int,
                ),
                net_move(self.code@) == net_move(old(self).code@) + self.ptr - old(self).ptr,
            decreases n - i,
        {
            proof {
                lit_io();
                lit_plus_minus();
            }
            let c = msg.get_char(i);
            let mut cv: char = c;
            let mut step: usize = 1;
            if c == '\\' && i + 1 < n {
                let c2 = msg.get_char(i + 1);
                if c2 == 'n' {
                    cv = '\n';
                    step = 2;
                } else if c2 == 't' {
                    cv = '\t';
                    step = 2;
                } else if c2 == 'r' {
                    cv = '\r';
                    step = 2;
                }
            }
            proof {
                assert(unescape(msg@.skip(i as int)) == seq![cv] + unescape(
                    msg@.skip(i + step),
                )) by {
                    reveal_with_fuel(unescape, 2);
                    assert(msg@.skip(i as int)[0] == msg@[i as int]);
                    if step == 2 {
                        assert(msg@.skip(i as int)[1] == msg@[i + 1]);
                        assert(msg@.skip(i as int).skip(2) =~= msg@.skip(i + 2));
                    } else {
                        if msg@.skip(i as int).len() >= 2 {
                            assert(msg@.skip(i as int)[1] == msg@[i + 1]);
                        }
                        assert(msg@.skip(i as int).skip(1) =~= msg@.skip(i + 1));
                    }
                }
            }
            let ci: i64 = (cv as u32) as i64;
            let d: i64 = ci - last;
            let ghost delta_text: Seq<char>;
            if d > 0 {
                let d8: u8 = (d % 256) as u8;
                self.inc_by(-1, d8);
                proof {
                    reveal(inc_by_text);
                    delta_text = inc_by_text(-1, -1, d8 as nat);
                    assert(delta_text =~= char_repeat('+', ((ci - last) % 256) as nat));
                }
            } else {
                let d8: u8 = ((-d) % 256) as u8;
                self.dec_by(-1, d8);
                proof {
                    reveal(dec_by_text);
                    delta_text = dec_by_text(-1, -1, d8 as nat);
                    assert(delta_text =~= char_repeat('-', ((-(ci - last)) % 256) as nat));
                }
            }
            self.emit(".");
            proof {
                let rest = unescape(msg@.skip(i as int));
                assert(rest[0] == cv);
                assert(rest.drop_first() =~= unescape(msg@.skip(i + step)));
                assert(msg_chars_text(rest, last as int) == delta_text + seq!['.']
                    + msg_chars_text(unescape(msg@.skip(i + step)), ci as int)) by {
                    reveal_with_fuel(msg_chars_text, 2);
                }
                let prev_emitted = emitted;
                let tail = msg_chars_text(unescape(msg@.skip(i + step)), ci as int);
                emitted = emitted + delta_text + seq!['.'];
                assert(self.code@ =~= base + emitted);
                assert(prev_emitted + (delta_text + seq!['.'] + tail) =~= emitted + tail);
            }
            last = ci;
            i = i + step;
        }
        proof {
            assert(msg@.skip(n as int) =~= Seq::<char>::empty());
            assert(msg_chars_text(unescape(msg@), 0) =~= emitted);
        }
        self.zero(-1);
        proof {
                        reveal(print_msg_text);
assert(self.code@ =~= old(self).code@ + print_msg_text(old(self).ptr as int, msg@));
        }
    }

    /// Emit the `match` preamble: the scrutinee copied into `t1`, the
    /// `t0` flag primed with 1.
    #[verifier::rlimit(100)]
    fn match_preamble(&mut self, v: i32)
        requires
            old(self).wf(),
            cell_in_range(v as int, old(self).spec_vars().len() as int),
        ensures
            final(self).wf(),
            final(self).ptr == -2,
            final(self).code@ == old(self).code@ + match_pre_text(old(self).ptr as int, v as int),
            final(self).block_stack == old(self).block_stack,
            final(self).same_config(old(self)),
            net_move(final(self).code@) == net_move(old(self).code@) + final(self).ptr - old(self).ptr,
    {
        proof {
            lit_clear();
            lit_plus_minus();
            lit_brackets();
        }
        self.zero(-2);
        self.goto(v);
        self.emit("[-");
        self.goto(-1);
        self.emit("+");
        self.goto(-2);
        self.emit("+");
        self.goto(v);
        self.emit("]");
        self.goto(-1);
        self.emit("[-");
        self.goto(v);
        self.emit("+");
        self.goto(-1);
        self.emit("]");
        self.goto(-2);
        self.goto(-1);
        self.emit("[-]");
        self.emit("+");
        self.goto(-2);
        proof {
                        reveal(match_pre_text);
assert(self.code@ =~= old(self).code@ + match_pre_text(
                old(self).ptr as int,
                v as int,
            ));
        }
    }

    /// Emit the decrement chain that tries each `match` key in turn.
    #[verifier::rlimit(100)]
    fn match_keys_emit(&mut self, keys: &Vec<u8>)
        requires
            old(self).wf(),
            old(self).ptr == -2,
            good_match_keys(keys@),
        ensures
            final(self).wf(),
            final(self).ptr == -2,
            final(self).code@ == old(self).code@ + match_keys_text(keys@, 0),
            final(self).block_stack == old(self).block_stack,
            final(self).same_config(old(self)),
            net_move(final(self).code@) == net_move(old(self).code@),
    {
        let kn = keys.len();
        let mut prev: u8 = 0;
        let mut i: usize = 0;
        let ghost kemitted: Seq<char> = Seq::empty();
        proof {
            assert(self.code@ =~= old(self).code@ + kemitted);
            assert(keys@.skip(0) =~= keys@);
        }
        while i < kn
            invariant
                i <= kn,
                kn == keys@.len(),
                self.wf(),
                self.ptr == -2,
                good_match_keys(keys@),
                prev as int == if i == 0 {
                    0int
                } else {
                    keys@[i - 1] as int
                },
                self.block_stack == old(self).block_stack,
                self.same_config(old(self)),
                self.code@ == old(self).code@ + kemitted,
                match_keys_text(keys@, 0) == kemitted + match_keys_text(
                    keys@.skip(i as int),
                    prev as int,
                ),
                net_move(self.code@) == net_move(old(self).code@),
            decreases kn - i,
        {
            proof {
                lit_plus_minus();
                lit_brackets();
                if i > 0 {
                    assert(keys@[i as int - 1] < keys@[i as int]);
                }
            }
            let k = keys[i];
            let delta = k - prev;
            self.emit_repeat("-", Ghost('-'), delta as usize);
            self.emit("[");
            proof {
                let tail = match_keys_text(keys@.skip(i + 1), keys@[i as int] as int);
                assert(match_keys_text(keys@.skip(i as int), prev as int) == char_repeat(
                    '-',
                    (keys@[i as int] - prev as int) as nat,
                ) + seq!['['] + tail) by {
                    reveal_with_fuel(match_keys_text, 2);
                    assert(keys@.skip(i as int)[0] == keys@[i as int]);
                    assert(keys@.skip(i as int).drop_first() =~= keys@.skip(i + 1));
                }
                let prev_emitted = kemitted;
                kemitted = kemitted + char_repeat('-', delta as nat) + seq!['['];
                assert(self.code@ =~= old(self).code@ + kemitted);
                assert(prev_emitted + (char_repeat('-', (keys@[i as int] - prev as int) as nat)
                    + seq!['['] + tail) =~= kemitted + tail);
            }
            prev = k;
            i = i + 1;
        }
        proof {
            assert(keys@.skip(kn as int) =~= Seq::<u8>::empty());
            assert(match_keys_text(keys@, 0) =~= kemitted);
        }
    }

    /// Open a `match` block: copy the variable into the `t1` scratch,
    /// prime the `t0` flag, and emit the decrement chain that tries
    /// each key in ascending order. The bodies that follow come in
    /// reverse numeric order, the default body first.
    #[verifier::rlimit(100)]
    fn match_open(&mut self, v: i32, keys: &Vec<u8>) -> (r: Result<(), CodegenError>)
        requires
            old(self).wf(),
            cell_in_range(v as int, old(self).spec_vars().len() as int),
        ensures
            final(self).wf(),
            final(self).same_config(old(self)),
            !good_match_keys(keys@) ==> r is Err && *final(self) == *old(self) && r->Err_0
                == CodegenError::InvariantViolation(InvariantViolation::BadMatchKeys),
            good_match_keys(keys@) ==> r is Ok && final(self).ptr == -1 && final(self).code@
                == old(self).code@ + match_open_text(old(self).ptr as int, v as int, keys@)
                && final(self).block_stack@ == old(self).block_stack@.push(
                BlockFrame::Matching { total: keys.len(), done: 0 },
            ) && net_move(final(self).code@) == net_move(old(self).code@) + final(self).ptr - old(self).ptr,
    {
        proof {
            lit_clear();
            lit_plus_minus();
            lit_brackets();
        }
        // Validate the keys before emitting anything.
        let kn = keys.len();
        if kn == 0 {
            return Err(CodegenError::InvariantViolation(InvariantViolation::BadMatchKeys));
        }
        let mut ki: usize = 1;
        while ki < kn
            invariant
                1 <= ki <= kn,
                kn == keys@.len(),
                *self == *old(self),
                self.wf(),
                forall|t: int| 0 < t < ki ==> keys@[t - 1] < #[trigger] keys@[t],
            decreases kn - ki,
        {
            if keys[ki - 1] >= keys[ki] {
                return Err(CodegenError::InvariantViolation(InvariantViolation::BadMatchKeys));
            }
            ki = ki + 1;
        }
        self.match_preamble(v);
        self.match_keys_emit(keys);
        let ghost keys_done = self.code@;
        // Fall into the default body with the flag cleared.
        self.emit("[-]");
        self.goto(-1);
        self.emit("-");
        self.block_stack.push(
            BlockFrame::Matching { total: kn, done: 0 },
        );
        proof {
            assert(self.code@ == keys_done + seq!['[', '-', ']'] + move_text(-2, -1)
                + seq!['-']);
            assert(keys_done == old(self).code@ + match_pre_text(old(self).ptr as int, v as int)
                + match_keys_text(keys@, 0));
            lemma_shift_assoc5(
                old(self).code@,
                match_pre_text(old(self).ptr as int, v as int),
                match_keys_text(keys@, 0),
                seq!['[', '-', ']'],
                move_text(-2, -1),
                seq!['-'],
            );
                        reveal(match_open_text);
assert(self.code@ == old(self).code@ + match_open_text(
                old(self).ptr as int,
                v as int,
                keys@,
            ));
            assert(self.block_stack@ =~= old(self).block_stack@.push(
                BlockFrame::Matching { total: kn, done: 0 },
            ));
        }
        Ok(())
    }

    /// Move to the next `match` body: close the previous one and open
    /// the flag-guarded body of the next key down.
    fn case_marker(&mut self) -> (r: Result<(), CodegenError>)
        requires
            old(self).wf(),
        ensures
            final(self).wf(),
            final(self).same_config(old(self)),
            ({
                let st = old(self).block_stack@;
                if st.len() > 0 && (st.last() matches BlockFrame::Matching { total, done }
                    && done < total) {
                    let total = st.last()->Matching_total;
                    let done = st.last()->Matching_done;
                    r is Ok && final(self).ptr == -1 && final(self).code@ == old(self).code@
                        + case_text(old(self).ptr as int, done == 0) && final(self).block_stack@
                        == st.update(st.len() - 1, BlockFrame::Matching { total, done: (done + 1) as usize })
                        && net_move(final(self).code@) == net_move(old(self).code@) + final(self).ptr - old(self).ptr
                } else {
                    r is Err && *final(self) == *old(self) && r->Err_0
                        == CodegenError::InvariantViolation(InvariantViolation::MisplacedCase)
                }
            }),
    {
        proof {
            lit_clear();
            lit_plus_minus();
            lit_brackets();
        }
        let (total, done) = match self.block_stack.last() {
            Some(BlockFrame::Matching { total, done }) => (*total, *done),
            _ => {
                return Err(CodegenError::InvariantViolation(InvariantViolation::MisplacedCase));
            }
        };
        if done >= total {
            return Err(CodegenError::InvariantViolation(InvariantViolation::MisplacedCase));
        }
        if done > 0 {
            self.emit("]");
        }
        self.goto(-2);
        self.emit("]");
        self.goto(-1);
        self.emit("[-");
        let _ = self.block_stack.pop();
        self.block_stack.push(BlockFrame::Matching { total, done: done + 1 });
        proof {
                        reveal(case_text);
assert(self.code@ =~= old(self).code@ + case_text(old(self).ptr as int, done == 0));
            assert(self.block_stack@ =~= old(self).block_stack@.update(
                old(self).block_stack@.len() - 1,
                BlockFrame::Matching { total, done: (done + 1) as usize },
            ));
        }
        Ok(())
    }
}

/// Contents of the stack-walk literals.
proof fn lit_walk()
    ensures
        ">>"@ == seq!['>', '>'],
        "<<"@ == seq!['<', '<'],
        "[>>]"@ == seq!['[', '>', '>', ']'],
        "[<<]"@ == seq!['[', '<', '<', ']'],
        ">+<"@ == seq!['>', '+', '<'],
        "[>>]<"@ == seq!['[', '>', '>', ']', '<'],
        "<#[-]"@ == seq!['<', '#', '[', '-', ']'],
        "<<[<<]"@ == seq!['<', '<', '[', '<', '<', ']'],
        net_move(">>"@) == 2,
        net_move("<<"@) == -2,
        net_move("[>>]"@) == 2,
        net_move("[<<]"@) == -2,
        net_move(">+<"@) == 0,
        net_move("[>>]<"@) == 1,
        net_move("<#[-]"@) == -1,
        net_move("<<[<<]"@) == -4,
{
    reveal_strlit(">>");
    reveal_strlit("<<");
    reveal_strlit("[>>]");
    reveal_strlit("[<<]");
    reveal_strlit(">+<");
    reveal_strlit("[>>]<");
    reveal_strlit("<#[-]");
    reveal_strlit("<<[<<]");
    assert(">>"@ =~= seq!['>', '>']);
    assert("<<"@ =~= seq!['<', '<']);
    assert("[>>]"@ =~= seq!['[', '>', '>', ']']);
    assert("[<<]"@ =~= seq!['[', '<', '<', ']']);
    assert(">+<"@ =~= seq!['>', '+', '<']);
    assert("[>>]<"@ =~= seq!['[', '>', '>', ']', '<']);
    assert("<#[-]"@ =~= seq!['<', '#', '[', '-', ']']);
    assert("<<[<<]"@ =~= seq!['<', '<', '[', '<', '<', ']']);
    assert(net_move(">>"@) == 2) by {
        reveal_with_fuel(net_move, 4);
        assert(seq!['>', '>'].drop_last() =~= seq!['>']);
        assert(seq!['>'].drop_last() =~= Seq::<char>::empty());
        assert(net_move(">>"@) == net_move(seq!['>', '>']));
    }
    assert(net_move("<<"@) == -2) by {
        reveal_with_fuel(net_move, 4);
        assert(seq!['<', '<'].drop_last() =~= seq!['<']);
        assert(seq!['<'].drop_last() =~= Seq::<char>::empty());
    }
    assert(net_move("[>>]"@) == 2) by {
        reveal_with_fuel(net_move, 6);
        assert(seq!['[', '>', '>', ']'].drop_last() =~= seq!['[', '>', '>']);
        assert(seq!['[', '>', '>'].drop_last() =~= seq!['[', '>']);
        assert(seq!['[', '>'].drop_last() =~= seq!['[']);
        assert(seq!['['].drop_last() =~= Seq::<char>::empty());
    }
    assert(net_move("[<<]"@) == -2) by {
        reveal_with_fuel(net_move, 6);
        assert(seq!['[', '<', '<', ']'].drop_last() =~= seq!['[', '<', '<']);
        assert(seq!['[', '<', '<'].drop_last() =~= seq!['[', '<']);
        assert(seq!['[', '<'].drop_last() =~= seq!['[']);
        assert(seq!['['].drop_last() =~= Seq::<char>::empty());
    }
    assert(net_move(">+<"@) == 0) by {
        reveal_with_fuel(net_move, 5);
        assert(seq!['>', '+', '<'].drop_last() =~= seq!['>', '+']);
        assert(seq!['>', '+'].drop_last() =~= seq!['>']);
        assert(seq!['>'].drop_last() =~= Seq::<char>::empty());
    }
    assert(net_move("[>>]<"@) == 1) by {
        reveal_with_fuel(net_move, 7);
        assert(seq!['[', '>', '>', ']', '<'].drop_last() =~= seq!['[', '>', '>', ']']);
        assert(seq!['[', '>', '>', ']'].drop_last() =~= seq!['[', '>', '>']);
        assert(seq!['[', '>', '>'].drop_last() =~= seq!['[', '>']);
        assert(seq!['[', '>'].drop_last() =~= seq!['[']);
        assert(seq!['['].drop_last() =~= Seq::<char>::empty());
    }
    assert(net_move("<#[-]"@) == -1) by {
        reveal_with_fuel(net_move, 7);
        assert(seq!['<', '#', '[', '-', ']'].drop_last() =~= seq!['<', '#', '[', '-']);
        assert(seq!['<', '#', '[', '-'].drop_last() =~= seq!['<', '#', '[']);
        assert(seq!['<', '#', '['].drop_last() =~= seq!['<', '#']);
        assert(seq!['<', '#'].drop_last() =~= seq!['<']);
        assert(seq!['<'].drop_last() =~= Seq::<char>::empty());
    }
    assert(net_move("<<[<<]"@) == -4) by {
        reveal_with_fuel(net_move, 8);
        assert(seq!['<', '<', '[', '<', '<', ']'].drop_last() =~= seq!['<', '<', '[', '<', '<']);
        assert(seq!['<', '<', '[', '<', '<'].drop_last() =~= seq!['<', '<', '[', '<']);
        assert(seq!['<', '<', '[', '<'].drop_last() =~= seq!['<', '<', '[']);
        assert(seq!['<', '<', '['].drop_last() =~= seq!['<', '<']);
        assert(seq!['<', '<'].drop_last() =~= seq!['<']);
        assert(seq!['<'].drop_last() =~= Seq::<char>::empty());
    }
}

impl Codegen {
    /// A fresh generator for an instruction list.
    pub fn new(instructions: Vec<Instruction>) -> (r: Self)
        ensures
            r.spec_instructions() == instructions@,
            r.wf(),
            !r.spec_test_mode(),
    {
        let r = Codegen {
            code: String::new(),
            ptr: 0,
            instructions,
            parsed: InstructionsAnalysis::default(),
            block_stack: Vec::new(),
            test_mode: false,
        };
        r
    }

    /// As `new`, but every instruction is followed by the `#` debug
    /// sentinel, on which the interpreter checks that all temp cells
    /// are zero.
    pub fn new_test(instructions: Vec<Instruction>) -> (r: Self)
        ensures
            r.spec_instructions() == instructions@,
            r.wf(),
            r.spec_test_mode(),
    {
        let r = Codegen {
            code: String::new(),
            ptr: 0,
            instructions,
            parsed: InstructionsAnalysis::default(),
            block_stack: Vec::new(),
            test_mode: true,
        };
        r
    }

    /// The cell of a registered variable: its first-appearance index.
    fn resolve(&self, name: &String) -> (i: i32)
        requires
            self.wf(),
            self.spec_vars().contains(name@),
        ensures
            0 <= i < self.spec_vars().len(),
            self.spec_vars()[i as int] == name@,
            i as int == first_index_of(self.spec_vars(), name@),
    {
        match self.parsed.index_of(name) {
            Some(i) => i as i32,
            None => unreached(),
        }
    }

    /// Lower one instruction: resolve its operands, check the
    /// structural acceptance rules, emit exactly the fragment that
    /// `emit_step` gives, and append the separator. On an error
    /// nothing is emitted.
    #[verifier::rlimit(100)]
    fn instruction(&mut self, instr: &Instruction) -> (r: Result<(), CodegenError>)
        requires
            old(self).wf(),
            forall|j: int| 0 <= j < operands(*instr).len() ==> old(self).spec_vars().contains(
                (#[trigger] operands(*instr)[j]).0,
            ),
        ensures
            final(self).wf(),
            final(self).same_config(old(self)),
            match emit_step(
                old(self).spec_vars(),
                old(self).ptr as int,
                old(self).block_stack@,
                *instr,
            ) {
                Some(o) => r is Ok && final(self).code@ == old(self).code@ + o.text + sep_text(
                    old(self).spec_test_mode(),
                ) && final(self).ptr as int == o.ptr && final(self).block_stack@ == o.stack,
                None => r is Err && *final(self) == *old(self),
            },
            r is Err ==> r->Err_0 is InvariantViolation,
            r is Ok && !(*instr is Pop) && !(*instr is Raw) ==> net_move(final(self).code@)
                == net_move(old(self).code@) + final(self).ptr - old(self).ptr,
    {
        let ghost pre_stack = old(self).block_stack@;
        match instr {
            Instruction::Copy { a, b } => {
                proof {
                    assert(operands(*instr)[0].0 == a@);
                    assert(operands(*instr)[1].0 == b@);
                }
                if a.eq(b) {
                    return Err(
                        CodegenError::InvariantViolation(InvariantViolation::OperandsMustDiffer),
                    );
                }
                let ra = self.resolve(a);
                let rb = self.resolve(b);
                self.copy(ra, rb);
            }
            Instruction::Assign(a, k) => {
                proof {
                    assert(operands(*instr)[0].0 == a@);
                }
                let ra = self.resolve(a);
                self.set(ra, *k);
            }
            Instruction::Inc(a) => {
                proof {
                    assert(operands(*instr)[0].0 == a@);
                }
                let ra = self.resolve(a);
                self.inc_by(ra, 1);
            }
            Instruction::Dec(a) => {
                proof {
                    assert(operands(*instr)[0].0 == a@);
                }
                let ra = self.resolve(a);
                self.dec_by(ra, 1);
            }
            Instruction::IncBy(a, k) => {
                proof {
                    assert(operands(*instr)[0].0 == a@);
                }
                let ra = self.resolve(a);
                self.inc_by(ra, *k);
            }
            Instruction::DecBy(a, k) => {
                proof {
                    assert(operands(*instr)[0].0 == a@);
                }
                let ra = self.resolve(a);
                self.dec_by(ra, *k);
            }
            Instruction::Read(a) => {
                proof {
                    assert(operands(*instr)[0].0 == a@);
                }
                let ra = self.resolve(a);
                self.read(ra);
            }
            Instruction::Print(a) => {
                proof {
                    assert(operands(*instr)[0].0 == a@);
                }
                let ra = self.resolve(a);
                self.print(ra);
            }
            Instruction::PrintMsg(m) => {
                self.print_msg(m.as_str());
            }
            Instruction::PrintC(a) => {
                proof {
                    assert(operands(*instr)[0].0 == a@);
                }
                let ra = self.resolve(a);
                self.printc(ra);
            }
            Instruction::Add { a, b } => {
                proof {
                    assert(operands(*instr)[0].0 == a@);
                    assert(operands(*instr)[1].0 == b@);
                }
                if a.eq(b) {
                    return Err(
                        CodegenError::InvariantViolation(InvariantViolation::OperandsMustDiffer),
                    );
                }
                let ra = self.resolve(a);
                let rb = self.resolve(b);
                self.add(ra, rb);
            }
            Instruction::Sub { a, b } => {
                proof {
                    assert(operands(*instr)[0].0 == a@);
                    assert(operands(*instr)[1].0 == b@);
                }
                if a.eq(b) {
                    return Err(
                        CodegenError::InvariantViolation(InvariantViolation::OperandsMustDiffer),
                    );
                }
                let ra = self.resolve(a);
                let rb = self.resolve(b);
                self.sub(ra, rb);
            }
            Instruction::Mul { a, b } => {
                proof {
                    assert(operands(*instr)[0].0 == a@);
                    assert(operands(*instr)[1].0 == b@);
                }
                let ra = self.resolve(a);
                let rb = self.resolve(b);
                self.mul(ra, rb);
            }
            Instruction::Div { a, b, quotient, remainder } => {
                proof {
                    assert(operands(*instr)[0].0 == a@);
                    assert(operands(*instr)[1].0 == b@);
                    assert(operands(*instr)[2].0 == remainder@);
                    assert(operands(*instr)[3].0 == quotient@);
                }
                if a.eq(b) {
                    return Err(
                        CodegenError::InvariantViolation(InvariantViolation::OperandsMustDiffer),
                    );
                }
                let ra = self.resolve(a);
                let rb = self.resolve(b);
                let rr = self.resolve(remainder);
                let rq = self.resolve(quotient);
                self.div(ra, rb, rr, rq);
            }
            Instruction::IfEqual { a, b } => {
                proof {
                    assert(operands(*instr)[0].0 == a@);
                    assert(operands(*instr)[1].0 == b@);
                }
                if a.eq(b) {
                    return Err(
                        CodegenError::InvariantViolation(InvariantViolation::OperandsMustDiffer),
                    );
                }
                let ra = self.resolve(a);
                let rb = self.resolve(b);
                self.if_equal(ra, rb);
            }
            Instruction::IfEqualConst { a, b } => {
                proof {
                    assert(operands(*instr)[0].0 == a@);
                }
                let ra = self.resolve(a);
                self.if_equal_const(ra, *b);
            }
            Instruction::IfNotEqualConst { a, b } => {
                proof {
                    assert(operands(*instr)[0].0 == a@);
                }
                let ra = self.resolve(a);
                self.if_not_equal_const(ra, *b);
            }
            Instruction::IfNotEqual { a, b } => {
                proof {
                    assert(operands(*instr)[0].0 == a@);
                    assert(operands(*instr)[1].0 == b@);
                }
                if a.eq(b) {
                    return Err(
                        CodegenError::InvariantViolation(InvariantViolation::OperandsMustDiffer),
                    );
                }
                let ra = self.resolve(a);
                let rb = self.resolve(b);
                self.if_not_equal(ra, rb);
            }
            Instruction::UntilEqual { a, b } => {
                proof {
                    assert(operands(*instr)[0].0 == a@);
                    assert(operands(*instr)[1].0 == b@);
                }
                if a.eq(b) {
                    return Err(
                        CodegenError::InvariantViolation(InvariantViolation::OperandsMustDiffer),
                    );
                }
                let ra = self.resolve(a);
                let rb = self.resolve(b);
                self.until_equal(ra, rb);
            }
            Instruction::WhileNotZero(a) => {
                proof {
                    assert(operands(*instr)[0].0 == a@);
                }
                let ra = self.resolve(a);
                self.while_not_zero(ra);
            }
            Instruction::End => {
                let r = self.end();
                if let Err(e) = r {
                    return Err(e);
                }
            }
            Instruction::Compare { a, b, res } => {
                proof {
                    assert(operands(*instr)[0].0 == a@);
                    assert(operands(*instr)[1].0 == b@);
                    assert(operands(*instr)[2].0 == res@);
                }
                if a.eq(b) {
                    return Err(
                        CodegenError::InvariantViolation(InvariantViolation::OperandsMustDiffer),
                    );
                }
                let ra = self.resolve(a);
                let rb = self.resolve(b);
                let rres = self.resolve(res);
                self.compare(ra, rb, rres);
            }
            Instruction::Push(a) => {
                proof {
                    assert(operands(*instr)[0].0 == a@);
                }
                let ra = self.resolve(a);
                self.stack_push(ra);
            }
            Instruction::Pop(a) => {
                proof {
                    assert(operands(*instr)[0].0 == a@);
                }
                let ra = self.resolve(a);
                self.stack_pop(ra);
            }
            Instruction::Match(a, keys) => {
                proof {
                    assert(operands(*instr)[0].0 == a@);
                }
                let ra = self.resolve(a);
                let r = self.match_open(ra, keys);
                if let Err(e) = r {
                    return Err(e);
                }
            }
            Instruction::Case() => {
                let r = self.case_marker();
                if let Err(e) = r {
                    return Err(e);
                }
            }
            Instruction::Raw(raw) => {
                self.emit(raw.as_str());
            }
        }
        if self.test_mode {
            proof {
                lit_hash();
            }
            self.emit("#");
        }
        proof {
            match emit_step(
                old(self).spec_vars(),
                old(self).ptr as int,
                pre_stack,
                *instr,
            ) {
                Some(o) => {
                    if old(self).spec_test_mode() {
                        lit_hash();
                        lemma_chunk_assoc(old(self).code@, o.text, seq!['#']);
                        assert(self.code@ == old(self).code@ + o.text + sep_text(true));
                    } else {
                        lemma_chunk_empty(old(self).code@ + o.text);
                        assert(self.code@ == old(self).code@ + o.text + sep_text(false));
                    }
                }
                None => {}
            }
        }
        Ok(())
    }
}

impl Codegen {
    /// Analyse the instruction list and lower it to brainfuck text.
    /// Succeeds exactly when the analyzer accepts the list, its
    /// variables fit on the tape beside the temp pool, and every
    /// lowering step succeeds — and then the returned text is exactly
    /// the concatenation, in order, of each instruction's `emit_step`
    /// fragment followed by the separator. The errors say which
    /// condition failed.
    pub fn codegen(self) -> (r: Result<String, CodegenError>)
        ensures
            r is Ok <==> cg_accepts(
                self.spec_instructions(),
                sep_text(self.spec_test_mode()),
            ),
            r is Ok ==> r->Ok_0@ == emit_all(
                build_vars_spec(self.spec_instructions())->Ok_0,
                0,
                seq![],
                self.spec_instructions(),
                sep_text(self.spec_test_mode()),
            )->Some_0.text,
            !balanced(self.spec_instructions()) ==> r == Err::<String, _>(
                CodegenError::Analysis(AnalysisError::UnevenAmountOfBlocks),
            ),
            balanced(self.spec_instructions()) && build_vars_spec(self.spec_instructions())
                is Err ==> r is Err && (r->Err_0 matches CodegenError::Analysis(e)
                && crate::analysis::err_view(e) == build_vars_spec(
                self.spec_instructions(),
            )->Err_0),
            balanced(self.spec_instructions()) && build_vars_spec(self.spec_instructions()) is Ok
                && build_vars_spec(self.spec_instructions())->Ok_0.len() > TAPE_SIZE - TEMP_CELLS
                ==> r == Err::<String, _>(
                CodegenError::InvariantViolation(InvariantViolation::TooManyVariables),
            ),
            balanced(self.spec_instructions()) && build_vars_spec(self.spec_instructions()) is Ok
                && build_vars_spec(self.spec_instructions())->Ok_0.len() <= TAPE_SIZE - TEMP_CELLS
                && emit_all(
                build_vars_spec(self.spec_instructions())->Ok_0,
                0,
                seq![],
                self.spec_instructions(),
                sep_text(self.spec_test_mode()),
            ) is None ==> r is Err && r->Err_0 is InvariantViolation,
    {
        let mut this = self;
        let ghost orig = this.instructions@;
        let ghost sep = sep_text(this.test_mode);
        this.code = String::new();
        this.ptr = 0;
        this.block_stack = Vec::new();
        let parsed = match InstructionsAnalysis::new(&this.instructions) {
            Ok(p) => p,
            Err(e) => {
                return Err(CodegenError::Analysis(e));
            }
        };
        if parsed.variable_count() > TAPE_SIZE - TEMP_CELLS {
            return Err(CodegenError::InvariantViolation(InvariantViolation::TooManyVariables));
        }
        this.parsed = parsed;
        proof {
            lemma_build_vars_complete(orig);
        }
        let ghost gvars = this.parsed.vars();
        let mut insts: Vec<Instruction> = Vec::new();
        core::mem::swap(&mut insts, &mut this.instructions);
        let n = insts.len();
        let mut idx: usize = 0;
        proof {
            assert(orig.skip(0) =~= orig);
            match emit_all(gvars, 0, seq![], orig, sep) {
                Some(whole) => {
                    assert(this.code@ + whole.text =~= whole.text);
                }
                None => {}
            }
            assert(this.block_stack@ =~= Seq::<BlockFrame>::empty());
        }
        while idx < n
            invariant
                idx <= n,
                n == insts@.len(),
                insts@ == orig,
                orig == self.spec_instructions(),
                sep == sep_text(self.spec_test_mode()),
                this.spec_test_mode() == self.spec_test_mode(),
                balanced(orig),
                this.wf(),
                build_vars_spec(orig) is Ok,
                build_vars_spec(orig)->Ok_0.len() <= TAPE_SIZE - TEMP_CELLS,
                this.spec_vars() == build_vars_spec(orig)->Ok_0,
                gvars == this.spec_vars(),
                forall|i: int, j: int|
                    0 <= i < orig.len() && 0 <= j < operands(orig[i]).len()
                        ==> this.spec_vars().contains((#[trigger] operands(orig[i])[j]).0),
                match emit_all(gvars, this.ptr as int, this.block_stack@, orig.skip(idx as int), sep) {
                    Some(rest) => emit_all(gvars, 0, seq![], orig, sep) matches Some(whole)
                        && whole.text == this.code@ + rest.text && whole.ptr == rest.ptr
                        && whole.stack == rest.stack,
                    None => emit_all(gvars, 0, seq![], orig, sep) is None,
                },
            decreases n - idx,
        {
            let ghost pre_code = this.code@;
            let ghost pre_ptr = this.ptr as int;
            let ghost pre_stack = this.block_stack@;
            proof {
                assert(operands(orig[idx as int]) == operands(insts@[idx as int]));
                assert(orig.skip(idx as int)[0] == orig[idx as int]);
                assert(orig.skip(idx as int).drop_first() =~= orig.skip(idx + 1));
            }
            let r = this.instruction(&insts[idx]);
            match r {
                Err(e) => {
                    proof {
                        assert(emit_all(gvars, pre_ptr, pre_stack, orig.skip(idx as int), sep)
                            is None);
                    }
                    return Err(e);
                }
                Ok(()) => {}
            }
            proof {
                let o = emit_step(gvars, pre_ptr, pre_stack, orig[idx as int])->Some_0;
                match emit_all(gvars, this.ptr as int, this.block_stack@, orig.skip(idx + 1), sep) {
                    Some(rest) => {
                        assert(emit_all(gvars, pre_ptr, pre_stack, orig.skip(idx as int), sep)
                            matches Some(ro) && ro.text == o.text + sep + rest.text && ro.ptr
                            == rest.ptr && ro.stack == rest.stack);
                        assert(pre_code + (o.text + sep + rest.text) =~= (pre_code + o.text
                            + sep) + rest.text);
                    }
                    None => {
                        assert(emit_all(gvars, pre_ptr, pre_stack, orig.skip(idx as int), sep)
                            is None);
                    }
                }
            }
            idx = idx + 1;
        }
        proof {
            assert(orig.skip(n as int) =~= Seq::<Instruction>::empty());
            match emit_all(gvars, 0, seq![], orig, sep) {
                Some(whole) => {
                    assert(this.code@ + Seq::<char>::empty() =~= this.code@);
                }
                None => {}
            }
        }
        Ok(this.code)
    }
}

/// Concatenation shifted across a leading piece: the bracketing of a/// Concatenation shifted across a leading piece: the bracketing of a
/// five-part tail does not matter.
proof fn lemma_shift_assoc5(
    x: Seq<char>,
    a: Seq<char>,
    b: Seq<char>,
    c: Seq<char>,
    d: Seq<char>,
    e: Seq<char>,
)
    ensures
        x + a + b + c + d + e == x + (a + b + c + d + e),
{
    assert(x + a + b + c + d + e =~= x + (a + b + c + d + e));
}

/// Contents of the sentinel literal.
proof fn lit_hash()
    ensures
        "#"@ == seq!['#'],
        net_move("#"@) == 0,
{
    reveal_strlit("#");
    reveal_with_fuel(net_move, 3);
    assert("#"@ =~= seq!['#']);
    assert(seq!['#'].drop_last() =~= Seq::<char>::empty());
}

/// Contents of the `[-]` literal.
proof fn lit_clear()
    ensures
        "[-]"@ == seq!['[', '-', ']'],
        "[-"@ == seq!['[', '-'],
        net_move("[-]"@) == 0,
        net_move("[-"@) == 0,
{
    reveal_strlit("[-]");
    reveal_strlit("[-");
    reveal_with_fuel(net_move, 5);
    assert("[-]"@ =~= seq!['[', '-', ']']);
    assert("[-"@ =~= seq!['[', '-']);
    assert(seq!['[', '-', ']'].drop_last() =~= seq!['[', '-']);
    assert(seq!['[', '-'].drop_last() =~= seq!['[']);
    assert(seq!['['].drop_last() =~= Seq::<char>::empty());
}

/// Contents of the `+` and `-` literals.
proof fn lit_plus_minus()
    ensures
        "+"@ == seq!['+'],
        "-"@ == seq!['-'],
        net_move("+"@) == 0,
        net_move("-"@) == 0,
{
    reveal_strlit("+");
    reveal_strlit("-");
    reveal_with_fuel(net_move, 3);
    assert("+"@ =~= seq!['+']);
    assert("-"@ =~= seq!['-']);
    assert(seq!['+'].drop_last() =~= Seq::<char>::empty());
    assert(seq!['-'].drop_last() =~= Seq::<char>::empty());
}

/// Contents of the bracket literals.
proof fn lit_brackets()
    ensures
        "["@ == seq!['['],
        "]"@ == seq![']'],
        net_move("["@) == 0,
        net_move("]"@) == 0,
{
    reveal_strlit("[");
    reveal_strlit("]");
    reveal_with_fuel(net_move, 3);
    assert("["@ =~= seq!['[']);
    assert("]"@ =~= seq![']']);
    assert(seq!['['].drop_last() =~= Seq::<char>::empty());
    assert(seq![']'].drop_last() =~= Seq::<char>::empty());
}

/// Contents of the I/O literals.
proof fn lit_io()
    ensures
        ","@ == seq![','],
        "."@ == seq!['.'],
        net_move(","@) == 0,
        net_move("."@) == 0,
{
    reveal_strlit(",");
    reveal_strlit(".");
    reveal_with_fuel(net_move, 3);
    assert(","@ =~= seq![',']);
    assert("."@ =~= seq!['.']);
    assert(seq![','].drop_last() =~= Seq::<char>::empty());
    assert(seq!['.'].drop_last() =~= Seq::<char>::empty());
}

/// Contents of the one-character move literals.
proof fn lit_arrows()
    ensures
        "<"@ == seq!['<'],
        ">"@ == seq!['>'],
{
    reveal_strlit("<");
    reveal_strlit(">");
    assert("<"@ =~= seq!['<']);
    assert(">"@ =~= seq!['>']);
}

} // verus!
