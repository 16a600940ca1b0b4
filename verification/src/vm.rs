//! The virtual machine: a stack machine executing one chunk.
//!
//! The machine advances one instruction per `step` call, and every step is
//! pinned by `spec_step`. Loads, negation and return complete inside the
//! machine; a binary operator pops its two operands and hands them out as an
//! `Arith` event, and the host pushes the combined value back with
//! `push_value` before stepping on. Control never depends on the values
//! themselves, so the machine's whole behaviour - dispatch, bounds checks,
//! stack discipline and errors - is decided here.

use vstd::prelude::*;

use crate::chunk::{Chunk, LineNum, OpCode, SpecChunk, Value, OPERAND_WIDTH, spec_le_word};
use crate::compiler::CompilerError;

verus! {

/// The sign bit of a 64-bit encoded double: negation flips exactly this bit.
pub const SIGN_BIT: u64 = 0x8000_0000_0000_0000;

/// An error the machine detects during dispatch. Each is fatal to the
/// current run but never to the host: execution halts and the error is
/// returned as a value.
#[derive(Debug, Clone, Copy, PartialEq, Eq, Structural)]
pub enum RuntimeError {
    /// An operator asked for more operands than the stack holds; a
    /// compiler-produced chunk never does this.
    StackUnderflow,
    /// A load's operand indexes past the constant pool.
    BadConstantIndex,
    /// The instruction pointer ran off the stream, an operand was cut
    /// short, or a byte decoded to no instruction.
    TruncatedProgram,
}

/// Why one run of the pipeline failed: the program did not compile, or the
/// machine stopped on a runtime error.
#[derive(Debug)]
pub enum InterpretError {
    Compiler(CompilerError),
    Runtime(RuntimeError),
}

/// A binary arithmetic operator the host is asked to apply.
#[derive(Debug, Clone, Copy, PartialEq, Eq, Structural)]
pub enum BinaryOp {
    Add,
    Subtract,
    Multiply,
    Divide,
}

/// What one step did.
#[derive(Debug, Clone, Copy, PartialEq, Eq, Structural)]
pub enum StepEvent {
    /// The instruction completed inside the machine; step again.
    Ran,
    /// A binary operator popped its operands, right one last. The host
    /// applies `op` and pushes the result back before stepping again.
    Arith { op: BinaryOp, left: Value, right: Value },
    /// A return instruction halted the machine, reporting the popped top of
    /// stack, or nothing if the stack was empty.
    Returned { value: Option<Value> },
}

/// The machine's state: the chunk it executes, the instruction pointer, and
/// the operand stack.
pub struct SpecVM {
    pub chunk: SpecChunk,
    pub ip: int,
    pub stack: Seq<Value>,
}

/// The negation of an encoded double: the sign bit flipped, every other bit
/// kept, for every encoding including infinities and NaNs.
pub open spec fn spec_negate(v: Value) -> Value {
    v ^ SIGN_BIT
}

/// The operator an opcode byte stands for, if it is a binary operator.
pub open spec fn spec_binary_op(op: OpCode) -> Option<BinaryOp> {
    match op {
        OpCode::Add => Some(BinaryOp::Add),
        OpCode::Subtract => Some(BinaryOp::Subtract),
        OpCode::Multiply => Some(BinaryOp::Multiply),
        OpCode::Divide => Some(BinaryOp::Divide),
        _ => None,
    }
}

/// One dispatch step: what the step reports and the machine's state after
/// it. On an error the state is left as it was.
pub open spec fn spec_step(vm: SpecVM) -> (Result<StepEvent, RuntimeError>, SpecVM) {
    let code = vm.chunk.code;
    if !(0 <= vm.ip < code.len()) {
        (Err(RuntimeError::TruncatedProgram), vm)
    } else {
        match OpCode::spec_from_byte(code[vm.ip]) {
            None => (Err(RuntimeError::TruncatedProgram), vm),
            Some(op) => match op {
                OpCode::LoadConstant => {
                    if code.len() - vm.ip - 1 < OPERAND_WIDTH {
                        (Err(RuntimeError::TruncatedProgram), vm)
                    } else {
                        let idx = spec_le_word(
                            code[vm.ip + 1],
                            code[vm.ip + 2],
                            code[vm.ip + 3],
                            code[vm.ip + 4],
                        ) as int;
                        if idx >= vm.chunk.constants.len() {
                            (Err(RuntimeError::BadConstantIndex), vm)
                        } else {
                            (
                                Ok(StepEvent::Ran),
                                SpecVM {
                                    ip: vm.ip + 1 + OPERAND_WIDTH,
                                    stack: vm.stack.push(vm.chunk.constants[idx]),
                                    ..vm
                                },
                            )
                        }
                    }
                },
                OpCode::Negate => {
                    if vm.stack.len() == 0 {
                        (Err(RuntimeError::StackUnderflow), vm)
                    } else {
                        (
                            Ok(StepEvent::Ran),
                            SpecVM {
                                ip: vm.ip + 1,
                                stack: vm.stack.drop_last().push(spec_negate(vm.stack.last())),
                                ..vm
                            },
                        )
                    }
                },
                OpCode::Return => {
                    let value = if vm.stack.len() > 0 {
                        Some(vm.stack.last())
                    } else {
                        None
                    };
                    let stack = if vm.stack.len() > 0 {
                        vm.stack.drop_last()
                    } else {
                        vm.stack
                    };
                    (Ok(StepEvent::Returned { value }), SpecVM { ip: vm.ip + 1, stack, ..vm })
                },
                _ => {
                    // A binary operator.
                    if vm.stack.len() < 2 {
                        (Err(RuntimeError::StackUnderflow), vm)
                    } else {
                        (
                            Ok(
                                StepEvent::Arith {
                                    op: spec_binary_op(op)->Some_0,
                                    left: vm.stack[vm.stack.len() - 2],
                                    right: vm.stack.last(),
                                },
                            ),
                            SpecVM {
                                ip: vm.ip + 1,
                                stack: vm.stack.take(vm.stack.len() - 2),
                                ..vm
                            },
                        )
                    }
                },
            },
        }
    }
}

/// The machine: the chunk being executed, the instruction pointer, and the
/// operand stack, pre-reserved to a small capacity and growing freely.
pub struct VM {
    pub chunk: Chunk,
    pub ip: usize,
    pub stack: Vec<Value>,
}

impl View for VM {
    type V = SpecVM;

    open spec fn view(&self) -> SpecVM {
        SpecVM { chunk: self.chunk@, ip: self.ip as int, stack: self.stack@ }
    }
}

/// The default operand-stack reservation.
pub const STACK_RESERVE: usize = 256;

impl VM {
    /// A fresh machine holding an empty chunk.
    pub fn new() -> (r: Self)
        ensures
            r@.chunk.code == Seq::<u8>::empty(),
            r@.chunk.constants == Seq::<Value>::empty(),
            r@.chunk.constant_texts == Seq::<Seq<char>>::empty(),
            r@.chunk.lines == Seq::<(LineNum, usize)>::empty(),
            r@.ip == 0,
            r@.stack == Seq::<Value>::empty(),
    {
        Self { chunk: Chunk::new(), ip: 0, stack: Vec::with_capacity(STACK_RESERVE) }
    }

    /// Execute the instruction under the instruction pointer.
    pub fn step(&mut self) -> (r: Result<StepEvent, RuntimeError>)
        ensures
            r == spec_step(old(self)@).0,
            final(self)@ == spec_step(old(self)@).1,
    {
        if self.ip >= self.chunk.code.len() {
            return Err(RuntimeError::TruncatedProgram);
        }
        let b = self.chunk.code[self.ip];
        let op = match OpCode::from_byte(b) {
            None => {
                return Err(RuntimeError::TruncatedProgram);
            },
            Some(op) => op,
        };
        match op {
            OpCode::LoadConstant => {
                if self.chunk.code.len() - self.ip - 1 < OPERAND_WIDTH {
                    return Err(RuntimeError::TruncatedProgram);
                }
                match self.chunk.get_constant(self.ip + 1) {
                    None => Err(RuntimeError::BadConstantIndex),
                    Some((_, value)) => {
                        self.stack.push(value);
                        self.ip = self.ip + 1 + OPERAND_WIDTH;
                        Ok(StepEvent::Ran)
                    },
                }
            },
            OpCode::Negate => {
                match self.stack.pop() {
                    None => Err(RuntimeError::StackUnderflow),
                    Some(v) => {
                        self.stack.push(v ^ SIGN_BIT);
                        self.ip = self.ip + 1;
                        Ok(StepEvent::Ran)
                    },
                }
            },
            OpCode::Return => {
                let value = self.stack.pop();
                self.ip = self.ip + 1;
                Ok(StepEvent::Returned { value })
            },
            _ => {
                if self.stack.len() < 2 {
                    return Err(RuntimeError::StackUnderflow);
                }
                let right = match self.stack.pop() {
                    Some(v) => v,
                    None => {
                        return Err(RuntimeError::StackUnderflow);
                    },
                };
                let left = match self.stack.pop() {
                    Some(v) => v,
                    None => {
                        return Err(RuntimeError::StackUnderflow);
                    },
                };
                let bop = match op {
                    OpCode::Add => BinaryOp::Add,
                    OpCode::Subtract => BinaryOp::Subtract,
                    OpCode::Multiply => BinaryOp::Multiply,
                    _ => BinaryOp::Divide,
                };
                self.ip = self.ip + 1;
                proof {
                    assert(self.stack@ =~= old(self).stack@.take(old(self).stack@.len() - 2));
                }
                Ok(StepEvent::Arith { op: bop, left, right })
            },
        }
    }

    /// Push a value onto the operand stack: how the host hands back the
    /// result of an `Arith` event.
    pub fn push_value(&mut self, value: Value)
        ensures
            final(self)@.chunk == old(self)@.chunk,
            final(self)@.ip == old(self)@.ip,
            final(self)@.stack == old(self)@.stack.push(value),
    {
        self.stack.push(value);
    }
}

/// Law: a load whose operand indexes at or past the constant pool's end
/// stops the machine with `BadConstantIndex`, leaving the state untouched,
/// rather than reading out of bounds.
pub proof fn lemma_step_bad_constant_index(vm: SpecVM)
    requires
        0 <= vm.ip < vm.chunk.code.len(),
        OpCode::spec_from_byte(vm.chunk.code[vm.ip]) == Some(OpCode::LoadConstant),
        vm.chunk.code.len() - vm.ip - 1 >= OPERAND_WIDTH,
        spec_le_word(
            vm.chunk.code[vm.ip + 1],
            vm.chunk.code[vm.ip + 2],
            vm.chunk.code[vm.ip + 3],
            vm.chunk.code[vm.ip + 4],
        ) as int >= vm.chunk.constants.len(),
    ensures
        spec_step(vm).0 == Result::<StepEvent, RuntimeError>::Err(RuntimeError::BadConstantIndex),
        spec_step(vm).1 == vm,
{
}

/// Law: a binary operator with fewer than two values on the stack, or a
/// negation with none, stops the machine with `StackUnderflow`, leaving the
/// state untouched, rather than panicking the host.
pub proof fn lemma_step_stack_underflow(vm: SpecVM)
    requires
        0 <= vm.ip < vm.chunk.code.len(),
        ({
            let op = OpCode::spec_from_byte(vm.chunk.code[vm.ip]);
            ||| (op matches Some(o) && spec_binary_op(o) is Some && vm.stack.len() < 2)
            ||| (op == Some(OpCode::Negate) && vm.stack.len() == 0)
        }),
    ensures
        spec_step(vm).0 == Result::<StepEvent, RuntimeError>::Err(RuntimeError::StackUnderflow),
        spec_step(vm).1 == vm,
{
}

/// Law: a source that scans to exactly one number literal, whose value the
/// caller's table resolves to `v`, compiles without diagnostics, and the
/// machine runs the chunk to completion in two steps, reporting exactly
/// `v`: the load pushes `v` and the return pops and reports it.
pub proof fn lemma_literal_round_trip(s: Seq<char>, t: crate::token::SpecToken, v: Value)
    requires
        crate::scanner::spec_items(s) == seq![
            Result::<crate::token::SpecToken, crate::scanner::SpecScanError>::Ok(t),
        ],
        t.kind is Number,
    ensures
        ({
            let r = crate::compiler::spec_compile(s, seq![Some(v)]);
            &&& r is Ok
            &&& ({
                let vm0 = SpecVM { chunk: r->Ok_0, ip: 0, stack: Seq::<Value>::empty() };
                let (e1, vm1) = spec_step(vm0);
                let (e2, _vm2) = spec_step(vm1);
                &&& e1 == Result::<StepEvent, RuntimeError>::Ok(StepEvent::Ran)
                &&& e2 == Result::<StepEvent, RuntimeError>::Ok(
                    StepEvent::Returned { value: Some(v) },
                )
            })
        }),
{
    reveal_with_fuel(crate::compiler::sp_advance_loop, 3);
    reveal_with_fuel(crate::chunk::spec_push_lines, 7);
    let r = crate::compiler::spec_compile(s, seq![Some(v)]);
    assert(r is Ok);
    let ch = r->Ok_0;
    assert(ch.code =~= seq![0u8, 0u8, 0u8, 0u8, 0u8, 6u8]) by {
        assert(0u32 & 0xff == 0 && (0u32 >> 8) & 0xff == 0 && (0u32 >> 16) & 0xff == 0 && (0u32
            >> 24) & 0xff == 0) by (bit_vector);
    }
    assert(ch.constants =~= seq![v]);
    let vm0 = SpecVM { chunk: ch, ip: 0, stack: Seq::<Value>::empty() };
    let (e1, vm1) = spec_step(vm0);
    assert((0u8 as u32) | ((0u8 as u32) << 8) | ((0u8 as u32) << 16) | ((0u8 as u32) << 24)
        == 0u32) by (bit_vector);
    assert(e1 == Result::<StepEvent, RuntimeError>::Ok(StepEvent::Ran));
    assert(vm1.stack =~= seq![v]);
    assert(OpCode::spec_from_byte(ch.code[5]) == Some(OpCode::Return));
}

/// Law: a source that scans to `literal operator literal`, for any of the
/// four binary operators, compiles without diagnostics, and the machine's
/// run asks the host for exactly one operation - the operator applied to
/// the left value `a` and the right value `b`, in that order - and then
/// reports exactly the value the host handed back, whatever it is.
pub proof fn lemma_binary_round_trip(
    s: Seq<char>,
    t1: crate::token::SpecToken,
    op: crate::token::SpecToken,
    t2: crate::token::SpecToken,
    a: Value,
    b: Value,
)
    requires
        crate::scanner::spec_items(s) == seq![
            Result::<crate::token::SpecToken, crate::scanner::SpecScanError>::Ok(t1),
            Result::<crate::token::SpecToken, crate::scanner::SpecScanError>::Ok(op),
            Result::<crate::token::SpecToken, crate::scanner::SpecScanError>::Ok(t2),
        ],
        t1.kind is Number,
        t2.kind is Number,
        crate::compiler::spec_infix_prec(op.kind) >= crate::compiler::PREC_TERM,
    ensures
        ({
            let r = crate::compiler::spec_compile(s, seq![Some(a), Some(b)]);
            &&& r is Ok
            &&& ({
                let vm0 = SpecVM { chunk: r->Ok_0, ip: 0, stack: Seq::<Value>::empty() };
                let (e1, vm1) = spec_step(vm0);
                let (e2, vm2) = spec_step(vm1);
                let (e3, vm3) = spec_step(vm2);
                &&& e1 == Result::<StepEvent, RuntimeError>::Ok(StepEvent::Ran)
                &&& e2 == Result::<StepEvent, RuntimeError>::Ok(StepEvent::Ran)
                &&& e3 == Result::<StepEvent, RuntimeError>::Ok(
                    StepEvent::Arith {
                        op: spec_binary_op(
                            crate::compiler::spec_binary_opcode(op.kind),
                        )->Some_0,
                        left: a,
                        right: b,
                    },
                )
                &&& forall|x: Value|
                    #[trigger] spec_step(SpecVM { stack: vm3.stack.push(x), ..vm3 }).0
                        == Result::<StepEvent, RuntimeError>::Ok(
                        StepEvent::Returned { value: Some(x) },
                    )
            })
        }),
{
    reveal_with_fuel(crate::compiler::sp_advance_loop, 4);
    reveal_with_fuel(crate::chunk::spec_push_lines, 7);
    assert(0u32 & 0xff == 0 && (0u32 >> 8) & 0xff == 0 && (0u32 >> 16) & 0xff == 0 && (0u32 >> 24)
        & 0xff == 0) by (bit_vector);
    assert(1u32 & 0xff == 1 && (1u32 >> 8) & 0xff == 0 && (1u32 >> 16) & 0xff == 0 && (1u32 >> 24)
        & 0xff == 0) by (bit_vector);
    assert((0u8 as u32) | ((0u8 as u32) << 8) | ((0u8 as u32) << 16) | ((0u8 as u32) << 24)
        == 0u32) by (bit_vector);
    assert((1u8 as u32) | ((0u8 as u32) << 8) | ((0u8 as u32) << 16) | ((0u8 as u32) << 24)
        == 1u32) by (bit_vector);
    let toks = crate::scanner::spec_items(s);
    let nums = seq![Some(a), Some(b)];
    let p0 = crate::compiler::SpecParser {
        toks,
        idx: 0,
        current: None,
        previous: None,
        erred: false,
        panicking: false,
        diags: Seq::<crate::compiler::SpecDiagnostic>::empty(),
        next_number: 0,
        last_line: 1,
    };
    let ch0 = SpecChunk {
        code: Seq::<u8>::empty(),
        constants: Seq::<Value>::empty(),
        constant_texts: Seq::<Seq<char>>::empty(),
        lines: Seq::<(LineNum, usize)>::empty(),
    };
    // Prime the lookahead with the first token.
    let q0 = crate::compiler::SpecParser { previous: None, current: None, ..p0 };
    let p1 = crate::compiler::SpecParser { current: Some(t1), idx: 1, last_line: t1.line, ..q0 };
    assert(toks[0] == Result::<crate::token::SpecToken, crate::scanner::SpecScanError>::Ok(t1));
    assert(crate::compiler::sp_advance(p0) == p1);
    // The first literal: consumed, then emitted as a load of `a`.
    let q1 = crate::compiler::SpecParser { previous: Some(t1), current: None, ..p1 };
    let p2 = crate::compiler::SpecParser { current: Some(op), idx: 2, last_line: op.line, ..q1 };
    assert(toks[1] == Result::<crate::token::SpecToken, crate::scanner::SpecScanError>::Ok(op));
    assert(crate::compiler::sp_advance(p1) == p2);
    let ch1 = crate::compiler::sp_push_const(ch0, a, t1.lexeme, t1.line);
    let p3 = crate::compiler::SpecParser { next_number: 1, ..p2 };
    assert(crate::compiler::sp_number(p2, ch0, nums) == (p3, ch1));
    assert(crate::compiler::sp_remaining(p1) == 3 && crate::compiler::sp_remaining(p2) == 2
        && crate::compiler::sp_remaining(p3) == 2);
    assert(crate::compiler::sp_parse_precedence(p1, ch0, nums, crate::compiler::PREC_TERM)
        == crate::compiler::sp_infix(p3, ch1, nums, crate::compiler::PREC_TERM));
    // The operator: consumed, then its right operand, then its instruction.
    let q3 = crate::compiler::SpecParser { previous: Some(op), current: None, ..p3 };
    let pa = crate::compiler::SpecParser { current: Some(t2), idx: 3, last_line: t2.line, ..q3 };
    assert(toks[2] == Result::<crate::token::SpecToken, crate::scanner::SpecScanError>::Ok(t2));
    assert(crate::compiler::sp_advance(p3) == pa);
    assert(crate::compiler::sp_remaining(pa) == 1);
    // The second literal: consumed at the end of input, emitted as a load
    // of `b`.
    let pb = crate::compiler::SpecParser { previous: Some(t2), current: None, ..pa };
    assert(crate::compiler::sp_advance(pa) == pb);
    let ch2 = crate::compiler::sp_push_const(ch1, b, t2.lexeme, t2.line);
    let p4 = crate::compiler::SpecParser { next_number: 2, ..pb };
    assert(crate::compiler::sp_number(pb, ch1, nums) == (p4, ch2));
    assert(crate::compiler::sp_remaining(pb) == 0 && crate::compiler::sp_remaining(p4) == 0);
    let prec1 = (crate::compiler::spec_infix_prec(op.kind) + 1) as u8;
    assert(crate::compiler::sp_infix(p4, ch2, nums, prec1) == (p4, ch2));
    assert(crate::compiler::sp_parse_precedence(pa, ch1, nums, prec1) == (p4, ch2));
    let ch3 = crate::compiler::sp_push_opcode(
        ch2,
        crate::compiler::spec_binary_opcode(op.kind),
        op.line,
    );
    assert(crate::compiler::sp_binary(pa, ch1, nums) == (p4, ch3));
    assert(crate::compiler::sp_infix(p4, ch3, nums, crate::compiler::PREC_TERM) == (p4, ch3));
    assert(crate::compiler::sp_infix(p3, ch1, nums, crate::compiler::PREC_TERM) == (p4, ch3));
    // Nothing is left over, and no diagnostic was ever recorded.
    assert(crate::compiler::sp_finish(p4) == p4);
    let ch4 = crate::compiler::sp_push_opcode(ch3, OpCode::Return, p4.last_line);
    let r = crate::compiler::spec_compile(s, nums);
    assert(r == Result::<SpecChunk, Seq<crate::compiler::SpecDiagnostic>>::Ok(ch4));
    let ch = r->Ok_0;
    let opb = crate::compiler::spec_binary_opcode(op.kind).spec_byte();
    assert(ch.code =~= seq![0u8, 0u8, 0u8, 0u8, 0u8, 0u8, 1u8, 0u8, 0u8, 0u8, opb, 6u8]);
    assert(ch.constants =~= seq![a, b]);
    // The machine's run: two loads, the one arithmetic request, and the
    // return of whatever the host pushed back.
    let vm0 = SpecVM { chunk: ch, ip: 0, stack: Seq::<Value>::empty() };
    let (e1, vm1) = spec_step(vm0);
    assert(e1 == Result::<StepEvent, RuntimeError>::Ok(StepEvent::Ran));
    assert(vm1.stack =~= seq![a]);
    let (e2, vm2) = spec_step(vm1);
    assert(e2 == Result::<StepEvent, RuntimeError>::Ok(StepEvent::Ran));
    assert(vm2.stack =~= seq![a, b]);
    let (e3, vm3) = spec_step(vm2);
    assert(vm2.stack[0] == a && vm2.stack.last() == b);
    assert(spec_binary_op(crate::compiler::spec_binary_opcode(op.kind)) is Some);
    assert(vm3.stack =~= Seq::<Value>::empty());
    assert forall|x: Value|
        #[trigger] spec_step(SpecVM { stack: vm3.stack.push(x), ..vm3 }).0 == Result::<
            StepEvent,
            RuntimeError,
        >::Ok(StepEvent::Returned { value: Some(x) }) by {
        let vm4 = SpecVM { stack: vm3.stack.push(x), ..vm3 };
        assert(vm4.chunk.code[11] == 6u8);
        assert(vm4.stack.last() == x);
    }
}


/// Law: a source that scans to a unary minus before one number literal,
/// whose value the table resolves to `v`, compiles without diagnostics, and
/// the machine runs the chunk to completion reporting exactly the negation
/// of `v` - its encoding with the sign bit flipped - with no help from the
/// host.
pub proof fn lemma_negation_round_trip(
    s: Seq<char>,
    m: crate::token::SpecToken,
    t: crate::token::SpecToken,
    v: Value,
)
    requires
        crate::scanner::spec_items(s) == seq![
            Result::<crate::token::SpecToken, crate::scanner::SpecScanError>::Ok(m),
            Result::<crate::token::SpecToken, crate::scanner::SpecScanError>::Ok(t),
        ],
        m.kind is Minus,
        t.kind is Number,
    ensures
        ({
            let r = crate::compiler::spec_compile(s, seq![Some(v)]);
            &&& r is Ok
            &&& ({
                let vm0 = SpecVM { chunk: r->Ok_0, ip: 0, stack: Seq::<Value>::empty() };
                let (e1, vm1) = spec_step(vm0);
                let (e2, vm2) = spec_step(vm1);
                let (e3, _vm3) = spec_step(vm2);
                &&& e1 == Result::<StepEvent, RuntimeError>::Ok(StepEvent::Ran)
                &&& e2 == Result::<StepEvent, RuntimeError>::Ok(StepEvent::Ran)
                &&& e3 == Result::<StepEvent, RuntimeError>::Ok(
                    StepEvent::Returned { value: Some(spec_negate(v)) },
                )
            })
        }),
{
    reveal_with_fuel(crate::compiler::sp_advance_loop, 4);
    reveal_with_fuel(crate::chunk::spec_push_lines, 7);
    assert(0u32 & 0xff == 0 && (0u32 >> 8) & 0xff == 0 && (0u32 >> 16) & 0xff == 0 && (0u32 >> 24)
        & 0xff == 0) by (bit_vector);
    assert((0u8 as u32) | ((0u8 as u32) << 8) | ((0u8 as u32) << 16) | ((0u8 as u32) << 24)
        == 0u32) by (bit_vector);
    let toks = crate::scanner::spec_items(s);
    let nums = seq![Some(v)];
    let p0 = crate::compiler::SpecParser {
        toks,
        idx: 0,
        current: None,
        previous: None,
        erred: false,
        panicking: false,
        diags: Seq::<crate::compiler::SpecDiagnostic>::empty(),
        next_number: 0,
        last_line: 1,
    };
    let ch0 = SpecChunk {
        code: Seq::<u8>::empty(),
        constants: Seq::<Value>::empty(),
        constant_texts: Seq::<Seq<char>>::empty(),
        lines: Seq::<(LineNum, usize)>::empty(),
    };
    // Prime the lookahead with the minus.
    let q0 = crate::compiler::SpecParser { previous: None, current: None, ..p0 };
    let p1 = crate::compiler::SpecParser { current: Some(m), idx: 1, last_line: m.line, ..q0 };
    assert(toks[0] == Result::<crate::token::SpecToken, crate::scanner::SpecScanError>::Ok(m));
    assert(crate::compiler::sp_advance(p0) == p1);
    // Consume the minus; the literal becomes the lookahead.
    let q1 = crate::compiler::SpecParser { previous: Some(m), current: None, ..p1 };
    let p2 = crate::compiler::SpecParser { current: Some(t), idx: 2, last_line: t.line, ..q1 };
    assert(toks[1] == Result::<crate::token::SpecToken, crate::scanner::SpecScanError>::Ok(t));
    assert(crate::compiler::sp_advance(p1) == p2);
    assert(crate::compiler::sp_remaining(p1) == 2 && crate::compiler::sp_remaining(p2) == 1);
    // The operand: the literal is consumed at the end of input and emitted.
    let pb = crate::compiler::SpecParser { previous: Some(t), current: None, ..p2 };
    assert(crate::compiler::sp_advance(p2) == pb);
    let ch1 = crate::compiler::sp_push_const(ch0, v, t.lexeme, t.line);
    let p3 = crate::compiler::SpecParser { next_number: 1, ..pb };
    assert(crate::compiler::sp_number(pb, ch0, nums) == (p3, ch1));
    assert(crate::compiler::sp_remaining(pb) == 0 && crate::compiler::sp_remaining(p3) == 0);
    assert(crate::compiler::sp_infix(p3, ch1, nums, crate::compiler::PREC_UNARY) == (p3, ch1));
    assert(crate::compiler::sp_parse_precedence(p2, ch0, nums, crate::compiler::PREC_UNARY) == (
        p3,
        ch1,
    ));
    let ch2 = crate::compiler::sp_push_opcode(ch1, OpCode::Negate, m.line);
    assert(crate::compiler::sp_unary(p2, ch0, nums) == (p3, ch2));
    assert(crate::compiler::sp_infix(p3, ch2, nums, crate::compiler::PREC_TERM) == (p3, ch2));
    assert(crate::compiler::sp_parse_precedence(p1, ch0, nums, crate::compiler::PREC_TERM) == (
        p3,
        ch2,
    ));
    assert(crate::compiler::sp_finish(p3) == p3);
    let ch3 = crate::compiler::sp_push_opcode(ch2, OpCode::Return, p3.last_line);
    let r = crate::compiler::spec_compile(s, nums);
    assert(r == Result::<SpecChunk, Seq<crate::compiler::SpecDiagnostic>>::Ok(ch3));
    let ch = r->Ok_0;
    assert(ch.code =~= seq![0u8, 0u8, 0u8, 0u8, 0u8, 5u8, 6u8]);
    assert(ch.constants =~= seq![v]);
    // The machine's run: the load, the sign-bit flip, the report.
    let vm0 = SpecVM { chunk: ch, ip: 0, stack: Seq::<Value>::empty() };
    let (e1, vm1) = spec_step(vm0);
    assert(e1 == Result::<StepEvent, RuntimeError>::Ok(StepEvent::Ran));
    assert(vm1.stack =~= seq![v]);
    let (e2, vm2) = spec_step(vm1);
    assert(e2 == Result::<StepEvent, RuntimeError>::Ok(StepEvent::Ran));
    assert(vm2.stack =~= seq![spec_negate(v)]);
    let (e3, _vm3) = spec_step(vm2);
    assert(e3 == Result::<StepEvent, RuntimeError>::Ok(
        StepEvent::Returned { value: Some(spec_negate(v)) },
    ));
}

} // verus!
