//! Compiler correctness: the code the parser emits, run by the machine,
//! computes the parsed expression's value.
//!
//! The machine asks the host to combine values (see `VM::step`), so what
//! "the value" means depends on the host's arithmetic. Everything here is
//! therefore stated over an arbitrary oracle standing for that arithmetic:
//! for every oracle, a successful compile yields a chunk whose run under
//! the oracle reports exactly the expression's evaluation under the same
//! oracle, with standard precedence and left-associativity.

use vstd::prelude::*;

use crate::chunk::{
    lemma_le_round_trip, spec_le_word, LineNum, OpCode, SpecChunk, Value, OPERAND_WIDTH,
};
use crate::compiler::{
    lemma_advance_inv, lemma_binary_inv, lemma_consume_inv, lemma_finish_inv,
    lemma_grouping_inv, lemma_infix_inv, lemma_number_inv, lemma_pp_inv, lemma_unary_inv,
    sp_advance, sp_binary, sp_finish, sp_grouping, sp_infix, sp_inv, sp_number,
    sp_parse_precedence, sp_push_const, sp_push_opcode, sp_remaining, sp_unary,
    spec_binary_opcode, spec_compile, spec_infix_prec, SpecParser, PREC_TERM, PREC_UNARY,
};
use crate::token::TokenKind;
use crate::vm::{spec_binary_op, spec_negate, spec_step, BinaryOp, SpecVM, StepEvent};

verus! {

/// An arithmetic oracle: what the host answers when asked to combine two
/// values with a binary operator.
pub type Oracle = spec_fn(BinaryOp, Value, Value) -> Value;

/// Run the straight-line code from `ip` up to exactly `target`, combining
/// values through the oracle: the stack on arrival, or nothing if the region
/// cannot be run cleanly.
pub open spec fn spec_run_to(
    ch: SpecChunk,
    ip: int,
    target: int,
    stack: Seq<Value>,
    oracle: Oracle,
) -> Option<Seq<Value>>
    decreases target - ip,
{
    if ip == target {
        Some(stack)
    } else if !(0 <= ip < target && target <= ch.code.len()) {
        None
    } else {
        match OpCode::spec_from_byte(ch.code[ip]) {
            None => None,
            Some(op) => match op {
                OpCode::LoadConstant => {
                    if ip + 1 + OPERAND_WIDTH <= target {
                        let idx = spec_le_word(
                            ch.code[ip + 1],
                            ch.code[ip + 2],
                            ch.code[ip + 3],
                            ch.code[ip + 4],
                        ) as int;
                        if idx < ch.constants.len() {
                            spec_run_to(
                                ch,
                                ip + 1 + OPERAND_WIDTH,
                                target,
                                stack.push(ch.constants[idx]),
                                oracle,
                            )
                        } else {
                            None
                        }
                    } else {
                        None
                    }
                },
                OpCode::Negate => {
                    if stack.len() == 0 {
                        None
                    } else {
                        spec_run_to(
                            ch,
                            ip + 1,
                            target,
                            stack.drop_last().push(spec_negate(stack.last())),
                            oracle,
                        )
                    }
                },
                OpCode::Return => None,
                _ => {
                    if stack.len() < 2 {
                        None
                    } else {
                        spec_run_to(
                            ch,
                            ip + 1,
                            target,
                            stack.take(stack.len() - 2).push(
                                oracle(
                                    spec_binary_op(op)->Some_0,
                                    stack[stack.len() - 2],
                                    stack.last(),
                                ),
                            ),
                            oracle,
                        )
                    }
                },
            },
        }
    }
}

/// Drive the machine as a host does: step, answer each arithmetic request
/// through the oracle, and stop at the first return or error. The reported
/// value on a clean return, nothing on an error.
pub open spec fn spec_drive(vm: SpecVM, oracle: Oracle) -> Option<Option<Value>>
    decreases vm.chunk.code.len() - vm.ip,
{
    let (e, vm1) = spec_step(vm);
    match e {
        Err(_) => None,
        Ok(ev) => match ev {
            StepEvent::Returned { value } => Some(value),
            StepEvent::Ran => {
                if vm.ip < vm1.ip <= vm1.chunk.code.len() && vm1.chunk == vm.chunk {
                    spec_drive(vm1, oracle)
                } else {
                    None
                }
            },
            StepEvent::Arith { op, left, right } => {
                if vm.ip < vm1.ip <= vm1.chunk.code.len() && vm1.chunk == vm.chunk {
                    spec_drive(
                        SpecVM { stack: vm1.stack.push(oracle(op, left, right)), ..vm1 },
                        oracle,
                    )
                } else {
                    None
                }
            },
        },
    }
}

/// One chunk extends another: everything the first holds, the second holds
/// unchanged, possibly followed by more.
pub open spec fn chunk_extends(ch2: SpecChunk, ch1: SpecChunk) -> bool {
    &&& ch1.code.is_prefix_of(ch2.code)
    &&& ch1.constants.is_prefix_of(ch2.constants)
}

/// A clean run of a region is unaffected by code and constants appended
/// after it.
proof fn lemma_run_frame(
    ch1: SpecChunk,
    ch2: SpecChunk,
    ip: int,
    target: int,
    stack: Seq<Value>,
    oracle: Oracle,
)
    requires
        chunk_extends(ch2, ch1),
        target <= ch1.code.len(),
        spec_run_to(ch1, ip, target, stack, oracle) is Some,
    ensures
        spec_run_to(ch2, ip, target, stack, oracle) == spec_run_to(ch1, ip, target, stack, oracle),
    decreases target - ip,
{
    if ip == target {
    } else {
        assert(ch2.code[ip] == ch1.code[ip]);
        match OpCode::spec_from_byte(ch1.code[ip]) {
            None => {},
            Some(op) => match op {
                OpCode::LoadConstant => {
                    assert(ch2.code[ip + 1] == ch1.code[ip + 1]);
                    assert(ch2.code[ip + 2] == ch1.code[ip + 2]);
                    assert(ch2.code[ip + 3] == ch1.code[ip + 3]);
                    assert(ch2.code[ip + 4] == ch1.code[ip + 4]);
                    let idx = spec_le_word(
                        ch1.code[ip + 1],
                        ch1.code[ip + 2],
                        ch1.code[ip + 3],
                        ch1.code[ip + 4],
                    ) as int;
                    assert(ch2.constants[idx] == ch1.constants[idx]);
                    lemma_run_frame(
                        ch1,
                        ch2,
                        ip + 1 + OPERAND_WIDTH,
                        target,
                        stack.push(ch1.constants[idx]),
                        oracle,
                    );
                },
                OpCode::Negate => {
                    lemma_run_frame(
                        ch1,
                        ch2,
                        ip + 1,
                        target,
                        stack.drop_last().push(spec_negate(stack.last())),
                        oracle,
                    );
                },
                OpCode::Return => {},
                _ => {
                    lemma_run_frame(
                        ch1,
                        ch2,
                        ip + 1,
                        target,
                        stack.take(stack.len() - 2).push(
                            oracle(
                                spec_binary_op(op)->Some_0,
                                stack[stack.len() - 2],
                                stack.last(),
                            ),
                        ),
                        oracle,
                    );
                },
            },
        }
    }
}

/// Running a region splits at any point the run passes through.
proof fn lemma_run_compose(
    ch: SpecChunk,
    ip: int,
    mid: int,
    target: int,
    stack: Seq<Value>,
    oracle: Oracle,
)
    requires
        ip <= mid <= target,
        spec_run_to(ch, ip, mid, stack, oracle) is Some,
    ensures
        spec_run_to(ch, ip, target, stack, oracle) == spec_run_to(
            ch,
            mid,
            target,
            spec_run_to(ch, ip, mid, stack, oracle)->Some_0,
            oracle,
        ),
    decreases mid - ip,
{
    if ip == mid {
    } else {
        match OpCode::spec_from_byte(ch.code[ip]) {
            None => {},
            Some(op) => match op {
                OpCode::LoadConstant => {
                    let idx = spec_le_word(
                        ch.code[ip + 1],
                        ch.code[ip + 2],
                        ch.code[ip + 3],
                        ch.code[ip + 4],
                    ) as int;
                    lemma_run_compose(
                        ch,
                        ip + 1 + OPERAND_WIDTH,
                        mid,
                        target,
                        stack.push(ch.constants[idx]),
                        oracle,
                    );
                },
                OpCode::Negate => {
                    lemma_run_compose(
                        ch,
                        ip + 1,
                        mid,
                        target,
                        stack.drop_last().push(spec_negate(stack.last())),
                        oracle,
                    );
                },
                OpCode::Return => {},
                _ => {
                    lemma_run_compose(
                        ch,
                        ip + 1,
                        mid,
                        target,
                        stack.take(stack.len() - 2).push(
                            oracle(
                                spec_binary_op(op)->Some_0,
                                stack[stack.len() - 2],
                                stack.last(),
                            ),
                        ),
                        oracle,
                    );
                },
            },
        }
    }
}

/// A clean run of a region carries the drive up to the region's end: what
/// the machine does afterwards is what it does from there with the stack
/// the region computed.
proof fn lemma_drive_run(
    ch: SpecChunk,
    ip: int,
    target: int,
    stack: Seq<Value>,
    oracle: Oracle,
)
    requires
        spec_run_to(ch, ip, target, stack, oracle) is Some,
    ensures
        spec_drive(SpecVM { chunk: ch, ip, stack }, oracle) == spec_drive(
            SpecVM {
                chunk: ch,
                ip: target,
                stack: spec_run_to(ch, ip, target, stack, oracle)->Some_0,
            },
            oracle,
        ),
    decreases target - ip,
{
    if ip == target {
    } else {
        let vm = SpecVM { chunk: ch, ip, stack };
        let (e, vm1) = spec_step(vm);
        match OpCode::spec_from_byte(ch.code[ip]) {
            None => {},
            Some(op) => match op {
                OpCode::LoadConstant => {
                    let idx = spec_le_word(
                        ch.code[ip + 1],
                        ch.code[ip + 2],
                        ch.code[ip + 3],
                        ch.code[ip + 4],
                    ) as int;
                    lemma_drive_run(
                        ch,
                        ip + 1 + OPERAND_WIDTH,
                        target,
                        stack.push(ch.constants[idx]),
                        oracle,
                    );
                },
                OpCode::Negate => {
                    lemma_drive_run(
                        ch,
                        ip + 1,
                        target,
                        stack.drop_last().push(spec_negate(stack.last())),
                        oracle,
                    );
                },
                OpCode::Return => {},
                _ => {
                    lemma_drive_run(
                        ch,
                        ip + 1,
                        target,
                        stack.take(stack.len() - 2).push(
                            oracle(
                                spec_binary_op(op)->Some_0,
                                stack[stack.len() - 2],
                                stack.last(),
                            ),
                        ),
                        oracle,
                    );
                },
            },
        }
    }
}

/// The value a number literal resolves to through the caller's table at
/// the parser's current count; the emitting branch's value.
pub open spec fn sp_number_value(p: SpecParser, nums: Seq<Option<Value>>) -> Value {
    if 0 <= p.next_number < nums.len() && nums[p.next_number] is Some {
        nums[p.next_number]->Some_0
    } else {
        0
    }
}

/// The value of the expression `sp_parse_precedence` parses, under an
/// oracle: the prefix construct's value folded through the infix
/// operators. Mirrors the parse exactly, so it is meaningful wherever the
/// parse records no diagnostic.
pub open spec fn sp_eval_pp(
    p: SpecParser,
    ch: SpecChunk,
    nums: Seq<Option<Value>>,
    min_prec: u8,
    oracle: Oracle,
) -> Value
    decreases sp_remaining(p), 3int,
{
    let p1 = sp_advance(p);
    match p1.previous {
        None => 0,
        Some(t) => {
            if t.kind is Number || t.kind is LParen || t.kind is Minus {
                let v = if t.kind is Number {
                    sp_number_value(p1, nums)
                } else if 0 <= sp_remaining(p1) < sp_remaining(p) {
                    if t.kind is LParen {
                        sp_eval_grouping(p1, ch, nums, oracle)
                    } else {
                        sp_eval_unary(p1, ch, nums, oracle)
                    }
                } else {
                    0
                };
                let (p2, ch2) = if t.kind is Number {
                    sp_number(p1, ch, nums)
                } else if 0 <= sp_remaining(p1) < sp_remaining(p) {
                    if t.kind is LParen {
                        sp_grouping(p1, ch, nums)
                    } else {
                        sp_unary(p1, ch, nums)
                    }
                } else {
                    (p1, ch)
                };
                if 0 <= sp_remaining(p2) < sp_remaining(p) {
                    sp_eval_infix(p2, ch2, nums, min_prec, v, oracle)
                } else {
                    v
                }
            } else {
                0
            }
        },
    }
}

/// The value of a parenthesised group: its inner expression's value.
pub open spec fn sp_eval_grouping(
    p: SpecParser,
    ch: SpecChunk,
    nums: Seq<Option<Value>>,
    oracle: Oracle,
) -> Value
    decreases sp_remaining(p), 4int,
{
    sp_eval_pp(p, ch, nums, PREC_TERM, oracle)
}

/// The value of a unary minus: its operand's value with the sign bit
/// flipped.
pub open spec fn sp_eval_unary(
    p: SpecParser,
    ch: SpecChunk,
    nums: Seq<Option<Value>>,
    oracle: Oracle,
) -> Value
    decreases sp_remaining(p), 4int,
{
    spec_negate(sp_eval_pp(p, ch, nums, PREC_UNARY, oracle))
}

/// Fold the value so far through the infix operators whose precedence
/// reaches `min_prec`: left-associative, each right operand one level up.
pub open spec fn sp_eval_infix(
    p: SpecParser,
    ch: SpecChunk,
    nums: Seq<Option<Value>>,
    min_prec: u8,
    acc: Value,
    oracle: Oracle,
) -> Value
    decreases sp_remaining(p), 2int,
{
    if p.current matches Some(t) && spec_infix_prec(t.kind) >= min_prec {
        let kind = p.current->Some_0.kind;
        let pa = sp_advance(p);
        let rhs = if 0 <= sp_remaining(pa) < sp_remaining(p) {
            sp_eval_pp(pa, ch, nums, (spec_infix_prec(kind) + 1) as u8, oracle)
        } else {
            0
        };
        let (p1, ch1) = if 0 <= sp_remaining(pa) < sp_remaining(p) {
            sp_binary(pa, ch, nums)
        } else {
            (pa, ch)
        };
        let acc1 = oracle(
            spec_binary_op(spec_binary_opcode(kind))->Some_0,
            acc,
            rhs,
        );
        if 0 <= sp_remaining(p1) < sp_remaining(p) {
            sp_eval_infix(p1, ch1, nums, min_prec, acc1, oracle)
        } else {
            acc1
        }
    } else {
        acc
    }
}


/// A code region computes one value: everything the chunk held before is
/// untouched, and running the appended region from any stack pushes exactly
/// `v`.
pub open spec fn region_computes(
    ch_in: SpecChunk,
    ch_out: SpecChunk,
    v: Value,
    oracle: Oracle,
) -> bool {
    &&& chunk_extends(ch_out, ch_in)
    &&& forall|stack: Seq<Value>|
        #[trigger] spec_run_to(
            ch_out,
            ch_in.code.len() as int,
            ch_out.code.len() as int,
            stack,
            oracle,
        ) == Some(stack.push(v))
}

proof fn lemma_seq_prefix_refl<A>(a: Seq<A>)
    ensures
        a.is_prefix_of(a),
{
    assert(a =~= a.subrange(0, a.len() as int));
}

proof fn lemma_seq_push_prefix<A>(a: Seq<A>, x: A)
    ensures
        a.is_prefix_of(a.push(x)),
{
    assert(a =~= a.push(x).subrange(0, a.len() as int));
}

proof fn lemma_seq_concat_prefix<A>(a: Seq<A>, b: Seq<A>)
    ensures
        a.is_prefix_of(a + b),
{
    assert(a =~= (a + b).subrange(0, a.len() as int));
}

proof fn lemma_seq_prefix_trans<A>(a: Seq<A>, b: Seq<A>, c: Seq<A>)
    requires
        a.is_prefix_of(b),
        b.is_prefix_of(c),
    ensures
        a.is_prefix_of(c),
{
    assert(a =~= c.subrange(0, a.len() as int));
}

/// The region a constant load emits pushes exactly the loaded value.
proof fn lemma_region_load(
    ch: SpecChunk,
    v: Value,
    text: Seq<char>,
    line: LineNum,
    oracle: Oracle,
)
    requires
        ch.constants.len() < u32::MAX,
    ensures
        region_computes(ch, sp_push_const(ch, v, text, line), v, oracle),
{
    let ch2 = sp_push_const(ch, v, text, line);
    let n = ch.constants.len() as int;
    let start = ch.code.len() as int;
    let w = ch.constants.len() as u32;
    assert(ch2.code.len() == start + 5);
    assert(ch2.code[start] == 0u8);
    assert(ch2.code[start + 1] == (w & 0xff) as u8);
    assert(ch2.code[start + 2] == ((w >> 8) & 0xff) as u8);
    assert(ch2.code[start + 3] == ((w >> 16) & 0xff) as u8);
    assert(ch2.code[start + 4] == ((w >> 24) & 0xff) as u8);
    lemma_le_round_trip(w);
    assert(spec_le_word(
        ch2.code[start + 1],
        ch2.code[start + 2],
        ch2.code[start + 3],
        ch2.code[start + 4],
    ) as int == n);
    assert(ch2.constants[n] == v);
    lemma_seq_concat_prefix(
        ch.code.push(OpCode::LoadConstant.spec_byte()),
        crate::chunk::spec_le_bytes(w),
    );
    lemma_seq_push_prefix(ch.code, OpCode::LoadConstant.spec_byte());
    lemma_seq_prefix_trans(ch.code, ch.code.push(OpCode::LoadConstant.spec_byte()), ch2.code);
    lemma_seq_push_prefix(ch.constants, v);
    assert forall|stack: Seq<Value>|
        #[trigger] spec_run_to(ch2, start, start + 5, stack, oracle) == Some(
            stack.push(v),
        ) by {
        assert(spec_run_to(ch2, start, start + 5, stack, oracle) == spec_run_to(
            ch2,
            start + 5,
            start + 5,
            stack.push(v),
            oracle,
        ));
    }
}

/// The parsed right operand and operator instruction: from any stack with
/// the left value on top, running the region replaces it by the oracle's
/// answer for `left operator right`.
proof fn lemma_correct_binary(
    p: SpecParser,
    ch: SpecChunk,
    nums: Seq<Option<Value>>,
    oracle: Oracle,
)
    requires
        sp_inv(p),
        p.previous is Some,
        !sp_binary(p, ch, nums).0.erred,
    ensures
        ({
            let t = p.previous->Some_0;
            let (p1, ch1) = sp_binary(p, ch, nums);
            let rhs = sp_eval_pp(p, ch, nums, (spec_infix_prec(t.kind) + 1) as u8, oracle);
            let bop = spec_binary_op(spec_binary_opcode(t.kind))->Some_0;
            &&& chunk_extends(ch1, ch)
            &&& forall|stack: Seq<Value>, acc: Value|
                #[trigger] spec_run_to(
                    ch1,
                    ch.code.len() as int,
                    ch1.code.len() as int,
                    stack.push(acc),
                    oracle,
                ) == Some(stack.push(oracle(bop, acc, rhs)))
        }),
    decreases sp_remaining(p), 4int,
{
    let t = p.previous->Some_0;
    let prec1 = (spec_infix_prec(t.kind) + 1) as u8;
    let opcode = spec_binary_opcode(t.kind);
    let bop = spec_binary_op(opcode)->Some_0;
    let rhs = sp_eval_pp(p, ch, nums, prec1, oracle);
    lemma_pp_inv(p, ch, nums, prec1);
    lemma_correct_pp(p, ch, nums, prec1, oracle);
    let (p1, ch_r) = sp_parse_precedence(p, ch, nums, prec1);
    let ch1 = sp_push_opcode(ch_r, opcode, t.line);
    let start = ch.code.len() as int;
    let mid = ch_r.code.len() as int;
    let end = ch1.code.len() as int;
    assert(end == mid + 1);
    assert(ch1.code[mid] == opcode.spec_byte());
    lemma_seq_push_prefix(ch_r.code, opcode.spec_byte());
    lemma_seq_prefix_refl(ch_r.constants);
    lemma_seq_prefix_trans(ch.code, ch_r.code, ch1.code);
    assert forall|stack: Seq<Value>, acc: Value|
        #[trigger] spec_run_to(ch1, start, end, stack.push(acc), oracle) == Some(
            stack.push(oracle(bop, acc, rhs)),
        ) by {
        let s1 = stack.push(acc);
        assert(spec_run_to(ch_r, start, mid, s1, oracle) == Some(s1.push(rhs)));
        lemma_run_frame(ch_r, ch1, start, mid, s1, oracle);
        lemma_run_compose(ch1, start, mid, end, s1, oracle);
        let s2 = s1.push(rhs);
        assert(s2.len() >= 2);
        assert(s2.take(s2.len() - 2) =~= stack);
        assert(s2[s2.len() - 2] == acc);
        assert(s2.last() == rhs);
        assert(OpCode::spec_from_byte(ch1.code[mid]) == Some(opcode));
        assert(spec_run_to(ch1, mid, end, s2, oracle) == spec_run_to(
            ch1,
            end,
            end,
            s2.take(s2.len() - 2).push(oracle(bop, acc, rhs)),
            oracle,
        ));
        assert(s2.take(s2.len() - 2).push(oracle(bop, acc, rhs)) == stack.push(
            oracle(bop, acc, rhs),
        ));
    }
}

/// The parsed operand and negate instruction: the region pushes the
/// operand's value with its sign bit flipped.
proof fn lemma_correct_unary(
    p: SpecParser,
    ch: SpecChunk,
    nums: Seq<Option<Value>>,
    oracle: Oracle,
)
    requires
        sp_inv(p),
        p.previous is Some,
        !sp_unary(p, ch, nums).0.erred,
    ensures
        region_computes(ch, sp_unary(p, ch, nums).1, sp_eval_unary(p, ch, nums, oracle), oracle),
    decreases sp_remaining(p), 4int,
{
    let line = p.previous->Some_0.line;
    lemma_pp_inv(p, ch, nums, PREC_UNARY);
    lemma_correct_pp(p, ch, nums, PREC_UNARY, oracle);
    let v = sp_eval_pp(p, ch, nums, PREC_UNARY, oracle);
    let (p1, ch_r) = sp_parse_precedence(p, ch, nums, PREC_UNARY);
    let ch1 = sp_push_opcode(ch_r, OpCode::Negate, line);
    let start = ch.code.len() as int;
    let mid = ch_r.code.len() as int;
    let end = ch1.code.len() as int;
    assert(ch1.code[mid] == OpCode::Negate.spec_byte());
    lemma_seq_push_prefix(ch_r.code, OpCode::Negate.spec_byte());
    lemma_seq_prefix_refl(ch_r.constants);
    lemma_seq_prefix_trans(ch.code, ch_r.code, ch1.code);
    assert forall|stack: Seq<Value>|
        #[trigger] spec_run_to(ch1, start, end, stack, oracle) == Some(
            stack.push(sp_eval_unary(p, ch, nums, oracle)),
        ) by {
        assert(spec_run_to(ch_r, start, mid, stack, oracle) == Some(stack.push(v)));
        lemma_run_frame(ch_r, ch1, start, mid, stack, oracle);
        lemma_run_compose(ch1, start, mid, end, stack, oracle);
        let s1 = stack.push(v);
        assert(s1.drop_last() =~= stack);
        assert(s1.last() == v);
        assert(OpCode::spec_from_byte(ch1.code[mid]) == Some(OpCode::Negate));
        assert(spec_run_to(ch1, mid, end, s1, oracle) == spec_run_to(
            ch1,
            end,
            end,
            s1.drop_last().push(spec_negate(s1.last())),
            oracle,
        ));
        assert(s1.drop_last().push(spec_negate(s1.last())) == stack.push(spec_negate(v)));
    }
}

/// The parsed group: its region is its inner expression's; the closing
/// parenthesis emits nothing.
proof fn lemma_correct_grouping(
    p: SpecParser,
    ch: SpecChunk,
    nums: Seq<Option<Value>>,
    oracle: Oracle,
)
    requires
        sp_inv(p),
        !sp_grouping(p, ch, nums).0.erred,
    ensures
        region_computes(
            ch,
            sp_grouping(p, ch, nums).1,
            sp_eval_grouping(p, ch, nums, oracle),
            oracle,
        ),
    decreases sp_remaining(p), 4int,
{
    lemma_pp_inv(p, ch, nums, PREC_TERM);
    let (p1, ch_r) = sp_parse_precedence(p, ch, nums, PREC_TERM);
    lemma_consume_inv(p1, TokenKind::RParen);
    lemma_correct_pp(p, ch, nums, PREC_TERM, oracle);
}

/// The infix fold: from any stack with the value so far on top, the region
/// the operators emit replaces it by the folded value.
proof fn lemma_correct_infix(
    p: SpecParser,
    ch: SpecChunk,
    nums: Seq<Option<Value>>,
    min_prec: u8,
    acc: Value,
    oracle: Oracle,
)
    requires
        sp_inv(p),
        !sp_infix(p, ch, nums, min_prec).0.erred,
    ensures
        ({
            let (p1, ch1) = sp_infix(p, ch, nums, min_prec);
            &&& chunk_extends(ch1, ch)
            &&& forall|stack: Seq<Value>|
                #[trigger] spec_run_to(
                    ch1,
                    ch.code.len() as int,
                    ch1.code.len() as int,
                    stack.push(acc),
                    oracle,
                ) == Some(stack.push(sp_eval_infix(p, ch, nums, min_prec, acc, oracle)))
        }),
    decreases sp_remaining(p), 2int,
{
    if p.current matches Some(t) && spec_infix_prec(t.kind) >= min_prec {
        let kind = p.current->Some_0.kind;
        lemma_advance_inv(p);
        let pa = sp_advance(p);
        assert(0 <= sp_remaining(pa) < sp_remaining(p));
        lemma_binary_inv(pa, ch, nums);
        let (p1, ch1) = sp_binary(pa, ch, nums);
        assert(0 <= sp_remaining(p1) < sp_remaining(p));
        lemma_infix_inv(p1, ch1, nums, min_prec);
        assert(!sp_binary(pa, ch, nums).0.erred);
        lemma_correct_binary(pa, ch, nums, oracle);
        let rhs = sp_eval_pp(pa, ch, nums, (spec_infix_prec(kind) + 1) as u8, oracle);
        let bop = spec_binary_op(spec_binary_opcode(kind))->Some_0;
        let acc1 = oracle(bop, acc, rhs);
        lemma_correct_infix(p1, ch1, nums, min_prec, acc1, oracle);
        let (p2, ch2) = sp_infix(p1, ch1, nums, min_prec);
        lemma_seq_prefix_trans(ch.code, ch1.code, ch2.code);
        lemma_seq_prefix_trans(ch.constants, ch1.constants, ch2.constants);
        let start = ch.code.len() as int;
        let mid = ch1.code.len() as int;
        let end = ch2.code.len() as int;
        assert forall|stack: Seq<Value>|
            #[trigger] spec_run_to(ch2, start, end, stack.push(acc), oracle) == Some(
                stack.push(sp_eval_infix(p, ch, nums, min_prec, acc, oracle)),
            ) by {
            let s1 = stack.push(acc);
            assert(spec_run_to(ch1, start, mid, s1, oracle) == Some(stack.push(acc1)));
            lemma_run_frame(ch1, ch2, start, mid, s1, oracle);
            lemma_run_compose(ch2, start, mid, end, s1, oracle);
            assert(spec_run_to(ch2, mid, end, stack.push(acc1), oracle) == Some(
                stack.push(sp_eval_infix(p1, ch1, nums, min_prec, acc1, oracle)),
            ));
        }
    } else {
        lemma_seq_prefix_refl(ch.code);
        lemma_seq_prefix_refl(ch.constants);
    }
}

/// The parsed expression at `min_prec`: its region pushes its value.
proof fn lemma_correct_pp(
    p: SpecParser,
    ch: SpecChunk,
    nums: Seq<Option<Value>>,
    min_prec: u8,
    oracle: Oracle,
)
    requires
        sp_inv(p),
        !sp_parse_precedence(p, ch, nums, min_prec).0.erred,
    ensures
        region_computes(
            ch,
            sp_parse_precedence(p, ch, nums, min_prec).1,
            sp_eval_pp(p, ch, nums, min_prec, oracle),
            oracle,
        ),
    decreases sp_remaining(p), 3int,
{
    lemma_advance_inv(p);
    let p1 = sp_advance(p);
    match p1.previous {
        None => {
            assert(false);
        },
        Some(t) => {
            if t.kind is Number || t.kind is LParen || t.kind is Minus {
                assert(p.current is Some);
                assert(0 <= sp_remaining(p1) < sp_remaining(p));
                let v = sp_eval_pp(p, ch, nums, min_prec, oracle);
                if t.kind is Number {
                    lemma_number_inv(p1, ch, nums);
                    let (p2, ch2) = sp_number(p1, ch, nums);
                    assert(0 <= sp_remaining(p2) < sp_remaining(p));
                    lemma_infix_inv(p2, ch2, nums, min_prec);
                    assert(!p2.erred);
                    // An unresolved literal or a full pool would have been
                    // reported, so the load was emitted.
                    assert(0 <= p1.next_number < nums.len() && nums[p1.next_number] is Some);
                    assert(ch.constants.len() < u32::MAX);
                    let v0 = nums[p1.next_number]->Some_0;
                    assert(ch2 == sp_push_const(ch, v0, t.lexeme, t.line));
                    lemma_region_load(ch, v0, t.lexeme, t.line, oracle);
                    lemma_correct_infix(p2, ch2, nums, min_prec, v0, oracle);
                    let (p3, ch3) = sp_infix(p2, ch2, nums, min_prec);
                    lemma_seq_prefix_trans(ch.code, ch2.code, ch3.code);
                    lemma_seq_prefix_trans(ch.constants, ch2.constants, ch3.constants);
                    let start = ch.code.len() as int;
                    let mid = ch2.code.len() as int;
                    let end = ch3.code.len() as int;
                    assert forall|stack: Seq<Value>|
                        #[trigger] spec_run_to(ch3, start, end, stack, oracle) == Some(
                            stack.push(v),
                        ) by {
                        assert(spec_run_to(ch2, start, mid, stack, oracle) == Some(
                            stack.push(v0),
                        ));
                        lemma_run_frame(ch2, ch3, start, mid, stack, oracle);
                        lemma_run_compose(ch3, start, mid, end, stack, oracle);
                        assert(spec_run_to(ch3, mid, end, stack.push(v0), oracle) == Some(
                            stack.push(sp_eval_infix(p2, ch2, nums, min_prec, v0, oracle)),
                        ));
                    }
                } else {
                    let (p2, ch2) = if t.kind is LParen {
                        sp_grouping(p1, ch, nums)
                    } else {
                        sp_unary(p1, ch, nums)
                    };
                    if t.kind is LParen {
                        lemma_grouping_inv(p1, ch, nums);
                    } else {
                        lemma_unary_inv(p1, ch, nums);
                    }
                    assert(0 <= sp_remaining(p2) < sp_remaining(p));
                    lemma_infix_inv(p2, ch2, nums, min_prec);
                    assert(!p2.erred);
                    let v0 = if t.kind is LParen {
                        sp_eval_grouping(p1, ch, nums, oracle)
                    } else {
                        sp_eval_unary(p1, ch, nums, oracle)
                    };
                    if t.kind is LParen {
                        lemma_correct_grouping(p1, ch, nums, oracle);
                    } else {
                        lemma_correct_unary(p1, ch, nums, oracle);
                    }
                    lemma_correct_infix(p2, ch2, nums, min_prec, v0, oracle);
                    let (p3, ch3) = sp_infix(p2, ch2, nums, min_prec);
                    lemma_seq_prefix_trans(ch.code, ch2.code, ch3.code);
                    lemma_seq_prefix_trans(ch.constants, ch2.constants, ch3.constants);
                    let start = ch.code.len() as int;
                    let mid = ch2.code.len() as int;
                    let end = ch3.code.len() as int;
                    assert forall|stack: Seq<Value>|
                        #[trigger] spec_run_to(ch3, start, end, stack, oracle) == Some(
                            stack.push(v),
                        ) by {
                        assert(spec_run_to(ch2, start, mid, stack, oracle) == Some(
                            stack.push(v0),
                        ));
                        lemma_run_frame(ch2, ch3, start, mid, stack, oracle);
                        lemma_run_compose(ch3, start, mid, end, stack, oracle);
                        assert(spec_run_to(ch3, mid, end, stack.push(v0), oracle) == Some(
                            stack.push(sp_eval_infix(p2, ch2, nums, min_prec, v0, oracle)),
                        ));
                    }
                }
            } else {
                assert(false);
            }
        },
    }
}


/// The value the source expression evaluates to under an oracle: each
/// literal resolved through the caller's table, negation a sign-bit flip,
/// each binary operator answered by the oracle, with standard precedence
/// and left-associativity.
pub open spec fn spec_source_value(
    s: Seq<char>,
    nums: Seq<Option<Value>>,
    oracle: Oracle,
) -> Value {
    let p0 = SpecParser {
        toks: crate::scanner::spec_items(s),
        idx: 0,
        current: None,
        previous: None,
        erred: false,
        panicking: false,
        diags: Seq::<crate::compiler::SpecDiagnostic>::empty(),
        next_number: 0,
        last_line: 1,
    };
    let ch0 = SpecChunk {
        code: Seq::<u8>::empty(),
        constants: Seq::<Value>::empty(),
        constant_texts: Seq::<Seq<char>>::empty(),
        lines: Seq::<(LineNum, usize)>::empty(),
    };
    sp_eval_pp(sp_advance(p0), ch0, nums, PREC_TERM, oracle)
}

/// Law: expression evaluation. For every source text whose compile
/// succeeds, and every arithmetic oracle standing for the host's
/// floating-point operations, driving the machine over the compiled chunk
/// runs cleanly to the final return and reports exactly the source
/// expression's value under that oracle.
pub proof fn lemma_compile_correct(s: Seq<char>, nums: Seq<Option<Value>>, oracle: Oracle)
    requires
        spec_compile(s, nums) is Ok,
    ensures
        spec_drive(
            SpecVM {
                chunk: spec_compile(s, nums)->Ok_0,
                ip: 0,
                stack: Seq::<Value>::empty(),
            },
            oracle,
        ) == Some(Some(spec_source_value(s, nums, oracle))),
{
    let p0 = SpecParser {
        toks: crate::scanner::spec_items(s),
        idx: 0,
        current: None,
        previous: None,
        erred: false,
        panicking: false,
        diags: Seq::<crate::compiler::SpecDiagnostic>::empty(),
        next_number: 0,
        last_line: 1,
    };
    let ch0 = SpecChunk {
        code: Seq::<u8>::empty(),
        constants: Seq::<Value>::empty(),
        constant_texts: Seq::<Seq<char>>::empty(),
        lines: Seq::<(LineNum, usize)>::empty(),
    };
    lemma_advance_inv(p0);
    let p1 = sp_advance(p0);
    lemma_pp_inv(p1, ch0, nums, PREC_TERM);
    let (p2, ch1) = sp_parse_precedence(p1, ch0, nums, PREC_TERM);
    lemma_finish_inv(p2);
    let p3 = sp_finish(p2);
    assert(!p3.erred);
    assert(!p2.erred);
    lemma_correct_pp(p1, ch0, nums, PREC_TERM, oracle);
    let v = sp_eval_pp(p1, ch0, nums, PREC_TERM, oracle);
    let ch2 = sp_push_opcode(ch1, OpCode::Return, p3.last_line);
    assert(spec_compile(s, nums)->Ok_0 == ch2);
    let l1 = ch1.code.len() as int;
    let empty_stack = Seq::<Value>::empty();
    assert(spec_run_to(ch1, 0, l1, empty_stack, oracle) == Some(empty_stack.push(v)));
    lemma_seq_push_prefix(ch1.code, OpCode::Return.spec_byte());
    lemma_seq_prefix_refl(ch1.constants);
    lemma_run_frame(ch1, ch2, 0, l1, empty_stack, oracle);
    lemma_drive_run(ch2, 0, l1, empty_stack, oracle);
    let vm_end = SpecVM { chunk: ch2, ip: l1, stack: empty_stack.push(v) };
    assert(ch2.code[l1] == 6u8);
    assert(OpCode::spec_from_byte(ch2.code[l1]) == Some(OpCode::Return));
    assert(empty_stack.push(v).last() == v);
    assert(spec_drive(vm_end, oracle) == Some(Some(v)));
}


/// The run of values the table holds between two literal counts, in
/// order; meaningful where `table_defined` holds of the same range.
pub open spec fn table_values(nums: Seq<Option<Value>>, a: int, b: int) -> Seq<Value>
    decreases b - a,
{
    if a >= b {
        Seq::empty()
    } else {
        seq![nums[a]->Some_0] + table_values(nums, a + 1, b)
    }
}

/// Every table entry between two literal counts is present and resolved.
pub open spec fn table_defined(nums: Seq<Option<Value>>, a: int, b: int) -> bool
    decreases b - a,
{
    a >= b || (0 <= a < nums.len() && nums[a] is Some && table_defined(nums, a + 1, b))
}

proof fn lemma_table_concat(nums: Seq<Option<Value>>, a: int, b: int, c: int)
    requires
        a <= b <= c,
    ensures
        table_values(nums, a, c) == table_values(nums, a, b) + table_values(nums, b, c),
        table_defined(nums, a, b) && table_defined(nums, b, c) ==> table_defined(nums, a, c),
    decreases b - a,
{
    if a >= b {
        assert(table_values(nums, a, b) + table_values(nums, b, c) =~= table_values(nums, b, c));
    } else {
        lemma_table_concat(nums, a + 1, b, c);
        assert(seq![nums[a]->Some_0] + (table_values(nums, a + 1, b) + table_values(nums, b, c))
            =~= (seq![nums[a]->Some_0] + table_values(nums, a + 1, b)) + table_values(nums, b, c));
    }
}

/// Reading one entry of a defined table run: position `k` of the run
/// beginning at `a` is table entry `a + k`, present and resolved.
pub proof fn lemma_table_index(nums: Seq<Option<Value>>, a: int, b: int, k: int)
    requires
        a <= b,
        table_defined(nums, a, b),
        0 <= k < b - a,
    ensures
        table_values(nums, a, b).len() == b - a,
        0 <= a + k < nums.len(),
        nums[a + k] is Some,
        table_values(nums, a, b)[k] == nums[a + k]->Some_0,
    decreases b - a,
{
    lemma_table_len(nums, a, b);
    if k > 0 {
        lemma_table_index(nums, a + 1, b, k - 1);
    }
}

proof fn lemma_table_len(nums: Seq<Option<Value>>, a: int, b: int)
    requires
        a <= b,
    ensures
        table_values(nums, a, b).len() == b - a,
    decreases b - a,
{
    if a < b {
        lemma_table_len(nums, a + 1, b);
    }
}

/// How one parse step may touch the pool: it appends exactly the table's
/// run of values between the literal counts before and after, each entry
/// present and resolved.
pub open spec fn pool_step(
    p: SpecParser,
    p2: SpecParser,
    ch: SpecChunk,
    ch2: SpecChunk,
    nums: Seq<Option<Value>>,
) -> bool {
    &&& p.next_number <= p2.next_number
    &&& table_defined(nums, p.next_number, p2.next_number)
    &&& ch2.constants == ch.constants + table_values(nums, p.next_number, p2.next_number)
}

proof fn lemma_pool_trans(
    p: SpecParser,
    p1: SpecParser,
    p2: SpecParser,
    ch: SpecChunk,
    ch1: SpecChunk,
    ch2: SpecChunk,
    nums: Seq<Option<Value>>,
)
    requires
        pool_step(p, p1, ch, ch1, nums),
        pool_step(p1, p2, ch1, ch2, nums),
    ensures
        pool_step(p, p2, ch, ch2, nums),
{
    lemma_table_concat(nums, p.next_number, p1.next_number, p2.next_number);
    assert(ch.constants + table_values(nums, p.next_number, p1.next_number) + table_values(
        nums,
        p1.next_number,
        p2.next_number,
    ) =~= ch.constants + (table_values(nums, p.next_number, p1.next_number) + table_values(
        nums,
        p1.next_number,
        p2.next_number,
    )));
}

proof fn lemma_pool_refl(p: SpecParser, p2: SpecParser, ch: SpecChunk, nums: Seq<Option<Value>>)
    requires
        p2.next_number == p.next_number,
    ensures
        pool_step(p, p2, ch, ch, nums),
{
    assert(ch.constants + table_values(nums, p.next_number, p2.next_number) =~= ch.constants);
}

proof fn lemma_pool_binary(p: SpecParser, ch: SpecChunk, nums: Seq<Option<Value>>)
    requires
        sp_inv(p),
        nums.len() <= usize::MAX,
        p.previous is Some,
        !sp_binary(p, ch, nums).0.erred,
    ensures
        pool_step(p, sp_binary(p, ch, nums).0, ch, sp_binary(p, ch, nums).1, nums),
    decreases sp_remaining(p), 4int,
{
    let t = p.previous->Some_0;
    let prec1 = (spec_infix_prec(t.kind) + 1) as u8;
    lemma_pp_inv(p, ch, nums, prec1);
    lemma_pool_pp(p, ch, nums, prec1);
}

proof fn lemma_pool_unary(p: SpecParser, ch: SpecChunk, nums: Seq<Option<Value>>)
    requires
        sp_inv(p),
        nums.len() <= usize::MAX,
        p.previous is Some,
        !sp_unary(p, ch, nums).0.erred,
    ensures
        pool_step(p, sp_unary(p, ch, nums).0, ch, sp_unary(p, ch, nums).1, nums),
    decreases sp_remaining(p), 4int,
{
    lemma_pp_inv(p, ch, nums, PREC_UNARY);
    lemma_pool_pp(p, ch, nums, PREC_UNARY);
}

proof fn lemma_pool_grouping(p: SpecParser, ch: SpecChunk, nums: Seq<Option<Value>>)
    requires
        sp_inv(p),
        nums.len() <= usize::MAX,
        !sp_grouping(p, ch, nums).0.erred,
    ensures
        pool_step(p, sp_grouping(p, ch, nums).0, ch, sp_grouping(p, ch, nums).1, nums),
    decreases sp_remaining(p), 4int,
{
    lemma_pp_inv(p, ch, nums, PREC_TERM);
    let (p1, ch_r) = sp_parse_precedence(p, ch, nums, PREC_TERM);
    lemma_consume_inv(p1, TokenKind::RParen);
    lemma_pool_pp(p, ch, nums, PREC_TERM);
}

proof fn lemma_pool_infix(
    p: SpecParser,
    ch: SpecChunk,
    nums: Seq<Option<Value>>,
    min_prec: u8,
)
    requires
        sp_inv(p),
        nums.len() <= usize::MAX,
        !sp_infix(p, ch, nums, min_prec).0.erred,
    ensures
        pool_step(
            p,
            sp_infix(p, ch, nums, min_prec).0,
            ch,
            sp_infix(p, ch, nums, min_prec).1,
            nums,
        ),
    decreases sp_remaining(p), 2int,
{
    if p.current matches Some(t) && spec_infix_prec(t.kind) >= min_prec {
        lemma_advance_inv(p);
        let pa = sp_advance(p);
        assert(0 <= sp_remaining(pa) < sp_remaining(p));
        lemma_binary_inv(pa, ch, nums);
        let (p1, ch1) = sp_binary(pa, ch, nums);
        assert(0 <= sp_remaining(p1) < sp_remaining(p));
        lemma_infix_inv(p1, ch1, nums, min_prec);
        lemma_pool_binary(pa, ch, nums);
        lemma_pool_infix(p1, ch1, nums, min_prec);
        let (p2, ch2) = sp_infix(p1, ch1, nums, min_prec);
        lemma_pool_refl(p, pa, ch, nums);
        lemma_pool_trans(p, pa, p1, ch, ch, ch1, nums);
        lemma_pool_trans(p, p1, p2, ch, ch1, ch2, nums);
    } else {
        lemma_pool_refl(p, p, ch, nums);
    }
}

proof fn lemma_pool_pp(
    p: SpecParser,
    ch: SpecChunk,
    nums: Seq<Option<Value>>,
    min_prec: u8,
)
    requires
        sp_inv(p),
        nums.len() <= usize::MAX,
        !sp_parse_precedence(p, ch, nums, min_prec).0.erred,
    ensures
        pool_step(
            p,
            sp_parse_precedence(p, ch, nums, min_prec).0,
            ch,
            sp_parse_precedence(p, ch, nums, min_prec).1,
            nums,
        ),
    decreases sp_remaining(p), 3int,
{
    lemma_advance_inv(p);
    let p1 = sp_advance(p);
    match p1.previous {
        None => {
            assert(false);
        },
        Some(t) => {
            if t.kind is Number || t.kind is LParen || t.kind is Minus {
                assert(p.current is Some);
                assert(0 <= sp_remaining(p1) < sp_remaining(p));
                let (p2, ch2) = if t.kind is Number {
                    sp_number(p1, ch, nums)
                } else if t.kind is LParen {
                    sp_grouping(p1, ch, nums)
                } else {
                    sp_unary(p1, ch, nums)
                };
                if t.kind is Number {
                    lemma_number_inv(p1, ch, nums);
                } else if t.kind is LParen {
                    lemma_grouping_inv(p1, ch, nums);
                } else {
                    lemma_unary_inv(p1, ch, nums);
                }
                assert(0 <= sp_remaining(p2) < sp_remaining(p));
                lemma_infix_inv(p2, ch2, nums, min_prec);
                assert(!p2.erred);
                if t.kind is Number {
                    // The literal resolved, so its table entry was present
                    // and became the newest pool entry.
                    let k = p1.next_number;
                    assert(0 <= k < nums.len() && nums[k] is Some);
                    assert(ch.constants.len() < u32::MAX);
                    let v0 = nums[k]->Some_0;
                    assert(p2.next_number == k + 1);
                    assert(pool_step(p1, p2, ch, ch2, nums)) by {
                        assert(table_values(nums, k + 1, k + 1) =~= Seq::<Value>::empty());
                        assert(seq![v0] + Seq::<Value>::empty() =~= seq![v0]);
                        assert(table_values(nums, k, k + 1) =~= seq![v0]);
                        assert(table_defined(nums, k + 1, k + 1));
                        assert(ch2.constants =~= ch.constants + table_values(nums, k, k + 1));
                    }
                } else if t.kind is LParen {
                    lemma_pool_grouping(p1, ch, nums);
                } else {
                    lemma_pool_unary(p1, ch, nums);
                }
                lemma_pool_infix(p2, ch2, nums, min_prec);
                let (p3, ch3) = sp_infix(p2, ch2, nums, min_prec);
                lemma_pool_refl(p, p1, ch, nums);
                lemma_pool_trans(p, p1, p2, ch, ch, ch2, nums);
                lemma_pool_trans(p, p2, p3, ch, ch2, ch3, nums);
            } else {
                assert(false);
            }
        },
    }
}

/// A pool drawn from the table: the pool is exactly the table's first
/// values, every one of them present and resolved. Entry-by-entry reading
/// is given by `lemma_table_index`.
pub open spec fn pool_matches_table(constants: Seq<Value>, nums: Seq<Option<Value>>) -> bool {
    &&& constants.len() <= nums.len()
    &&& table_defined(nums, 0, constants.len() as int)
    &&& constants == table_values(nums, 0, constants.len() as int)
}

/// Law: the pool is filled from the table, left to right. A successful
/// compile's constant pool holds, in order, exactly the values the
/// caller's table supplied for the literals the parse resolved: the k-th
/// pool entry is table entry k, and every resolved entry was present.
pub proof fn lemma_pool_filled_from_table(s: Seq<char>, nums: Seq<Option<Value>>)
    requires
        nums.len() <= usize::MAX,
        spec_compile(s, nums) is Ok,
    ensures
        pool_matches_table(spec_compile(s, nums)->Ok_0.constants, nums),
{
    let p0 = SpecParser {
        toks: crate::scanner::spec_items(s),
        idx: 0,
        current: None,
        previous: None,
        erred: false,
        panicking: false,
        diags: Seq::<crate::compiler::SpecDiagnostic>::empty(),
        next_number: 0,
        last_line: 1,
    };
    let ch0 = SpecChunk {
        code: Seq::<u8>::empty(),
        constants: Seq::<Value>::empty(),
        constant_texts: Seq::<Seq<char>>::empty(),
        lines: Seq::<(LineNum, usize)>::empty(),
    };
    lemma_advance_inv(p0);
    let p1 = sp_advance(p0);
    lemma_pp_inv(p1, ch0, nums, PREC_TERM);
    let (p2, ch1) = sp_parse_precedence(p1, ch0, nums, PREC_TERM);
    lemma_finish_inv(p2);
    let p3 = sp_finish(p2);
    assert(!p3.erred);
    assert(!p2.erred);
    lemma_pool_pp(p1, ch0, nums, PREC_TERM);
    let ch2 = sp_push_opcode(ch1, OpCode::Return, p3.last_line);
    assert(spec_compile(s, nums)->Ok_0 == ch2);
    assert(ch2.constants == ch1.constants);
    assert(p1.next_number == 0);
    let n = p2.next_number;
    lemma_table_len(nums, 0, n);
    assert(ch1.constants =~= table_values(nums, 0, n));
    if n > 0 {
        lemma_table_index(nums, 0, n, n - 1);
    }
    assert(n <= nums.len());
    assert(ch2.constants.len() == n);
    assert(pool_matches_table(ch2.constants, nums));
    assert(spec_compile(s, nums)->Ok_0.constants == ch2.constants);
}

} // verus!
