//! The disassembler: renders a chunk's instructions as text, one line per
//! instruction, for diagnostics only - execution never depends on it.
//!
//! Each line reads `<index> <line> <mnemonic>[ <detail>]`: the zero-padded
//! byte index of the instruction, the source line right-aligned to four
//! places, the instruction's name, and for a load the pool index and the
//! numeral the constant was written as.

use vstd::prelude::*;
use vstd::string::StringExecFns;
use vstd::string::StrSliceExecFns;

use crate::chunk::{
    sp_empty_chunk, spec_get_constant, spec_get_line, spec_push_lines, Chunk, LineNum, OpCode,
    SpecChunk, Value, OPERAND_WIDTH,
};
use crate::compiler::{sp_push_const, sp_push_opcode};

verus! {

/// The decimal digit character for one digit value; values past a single
/// digit all render as `9` but never arise.
pub open spec fn sp_digit(d: int) -> char {
    if d == 0 {
        '0'
    } else if d == 1 {
        '1'
    } else if d == 2 {
        '2'
    } else if d == 3 {
        '3'
    } else if d == 4 {
        '4'
    } else if d == 5 {
        '5'
    } else if d == 6 {
        '6'
    } else if d == 7 {
        '7'
    } else if d == 8 {
        '8'
    } else {
        '9'
    }
}

/// The decimal numeral of a non-negative number, most significant digit
/// first.
pub open spec fn sp_dec(n: int) -> Seq<char>
    decreases n,
{
    if n < 10 {
        seq![sp_digit(n)]
    } else {
        sp_dec(n / 10).push(sp_digit(n % 10))
    }
}

/// The decimal numeral zero-padded on the left to four places.
pub open spec fn sp_dec4z(n: int) -> Seq<char> {
    if n < 10 {
        "000"@ + sp_dec(n)
    } else if n < 100 {
        "00"@ + sp_dec(n)
    } else if n < 1000 {
        "0"@ + sp_dec(n)
    } else {
        sp_dec(n)
    }
}

/// The decimal numeral space-padded on the left to four places.
pub open spec fn sp_dec4s(n: int) -> Seq<char> {
    if n < 10 {
        "   "@ + sp_dec(n)
    } else if n < 100 {
        "  "@ + sp_dec(n)
    } else if n < 1000 {
        " "@ + sp_dec(n)
    } else {
        sp_dec(n)
    }
}

/// The character a single decimal digit renders as.
fn digit_str(d: u64) -> (r: &'static str)
    requires
        d < 10,
    ensures
        r@ == seq![sp_digit(d as int)],
{
    if d == 0 {
        proof {
            reveal_strlit("0");
        }
        "0"
    } else if d == 1 {
        proof {
            reveal_strlit("1");
        }
        "1"
    } else if d == 2 {
        proof {
            reveal_strlit("2");
        }
        "2"
    } else if d == 3 {
        proof {
            reveal_strlit("3");
        }
        "3"
    } else if d == 4 {
        proof {
            reveal_strlit("4");
        }
        "4"
    } else if d == 5 {
        proof {
            reveal_strlit("5");
        }
        "5"
    } else if d == 6 {
        proof {
            reveal_strlit("6");
        }
        "6"
    } else if d == 7 {
        proof {
            reveal_strlit("7");
        }
        "7"
    } else if d == 8 {
        proof {
            reveal_strlit("8");
        }
        "8"
    } else {
        proof {
            reveal_strlit("9");
        }
        "9"
    }
}

/// Render a number as its decimal numeral.
pub fn dec_u64(n: u64) -> (r: String)
    ensures
        r@ == sp_dec(n as int),
    decreases n,
{
    if n < 10 {
        digit_str(n).to_owned()
    } else {
        let mut s = dec_u64(n / 10);
        s.append(digit_str(n % 10));
        proof {
            assert(s@ =~= sp_dec(n as int));
        }
        s
    }
}

/// Render a number zero-padded to four places.
fn dec4z(n: u64) -> (r: String)
    ensures
        r@ == sp_dec4z(n as int),
{
    let digits = dec_u64(n);
    let mut s: String;
    if n < 10 {
        s = "000".to_owned();
    } else if n < 100 {
        s = "00".to_owned();
    } else if n < 1000 {
        s = "0".to_owned();
    } else {
        s = "".to_owned();
    }
    s.append(digits.as_str());
    proof {
        reveal_strlit("");
        if n >= 1000 {
            assert(s@ =~= sp_dec(n as int));
        }
    }
    s
}

/// Render a number space-padded to four places.
fn dec4s(n: u64) -> (r: String)
    ensures
        r@ == sp_dec4s(n as int),
{
    let digits = dec_u64(n);
    let mut s: String;
    if n < 10 {
        s = "   ".to_owned();
    } else if n < 100 {
        s = "  ".to_owned();
    } else if n < 1000 {
        s = " ".to_owned();
    } else {
        s = "".to_owned();
    }
    s.append(digits.as_str());
    proof {
        reveal_strlit("");
        if n >= 1000 {
            assert(s@ =~= sp_dec(n as int));
        }
    }
    s
}

/// The mnemonic an instruction renders as, with its trailing line feed.
pub open spec fn sp_mnemonic(op: OpCode) -> Seq<char> {
    match op {
        OpCode::LoadConstant => "LoadConstant "@,
        OpCode::Add => "Add\n"@,
        OpCode::Subtract => "Subtract\n"@,
        OpCode::Multiply => "Multiply\n"@,
        OpCode::Divide => "Divide\n"@,
        OpCode::Negate => "Negate\n"@,
        OpCode::Return => "Return\n"@,
    }
}

/// The text one instruction renders as: its byte index, its source line,
/// its mnemonic, and for a load the pool index and the constant's numeral;
/// nothing when no instruction can be read at `i`.
pub open spec fn sp_disasm(ch: SpecChunk, i: int) -> Option<Seq<char>> {
    match spec_get_line(ch.lines, i) {
        None => None,
        Some(line) => {
            if !(0 <= i < ch.code.len()) {
                None
            } else {
                match OpCode::spec_from_byte(ch.code[i]) {
                    None => None,
                    Some(op) => {
                        let head = sp_dec4z(i) + " "@ + sp_dec4s(line as int) + " "@;
                        if op is LoadConstant {
                            match spec_get_constant(ch, i + 1) {
                                None => None,
                                Some((idx, _v)) => {
                                    if idx < ch.constant_texts.len() {
                                        Some(
                                            head + sp_mnemonic(op) + sp_dec(idx as int) + ": "@
                                                + ch.constant_texts[idx as int] + "\n"@,
                                        )
                                    } else {
                                        None
                                    }
                                },
                            }
                        } else {
                            Some(head + sp_mnemonic(op))
                        }
                    },
                }
            }
        },
    }
}

/// The text the instructions render as, one line each, from byte index `i`
/// on, stopping where no instruction can be read.
pub open spec fn sp_dump_from(ch: SpecChunk, i: int) -> Seq<char>
    decreases ch.code.len() - i,
{
    if !(0 <= i < ch.code.len()) {
        Seq::empty()
    } else {
        match sp_disasm(ch, i) {
            None => Seq::empty(),
            Some(text) => {
                let sz = OpCode::spec_from_byte(ch.code[i])->Some_0.spec_size();
                if i + sz <= ch.code.len() {
                    text + sp_dump_from(ch, i + sz)
                } else {
                    text
                }
            },
        }
    }
}

/// The text a whole chunk renders as.
pub open spec fn sp_dump(ch: SpecChunk) -> Seq<char> {
    sp_dump_from(ch, 0)
}

impl Chunk {
    /// Render the instruction whose first byte stands at `i`, or nothing
    /// when no instruction can be read there.
    pub fn disassemble_instruction(&self, i: usize) -> (r: Option<String>)
        ensures
            match r {
                None => sp_disasm(self@, i as int) is None,
                Some(s) => sp_disasm(self@, i as int) == Some(s@),
            },
    {
        let line = match self.get_line(i) {
            None => {
                return None;
            },
            Some(l) => l,
        };
        if i >= self.code.len() {
            return None;
        }
        let op = match OpCode::from_byte(self.code[i]) {
            None => {
                return None;
            },
            Some(op) => op,
        };
        let mut out = dec4z(i as u64);
        out.append(" ");
        out.append(dec4s(line as u64).as_str());
        out.append(" ");
        match op {
            OpCode::LoadConstant => {
                let (idx, _v) = match self.get_constant(i + 1) {
                    None => {
                        return None;
                    },
                    Some(p) => p,
                };
                if idx >= self.constant_texts.len() {
                    return None;
                }
                out.append("LoadConstant ");
                out.append(dec_u64(idx as u64).as_str());
                out.append(": ");
                out.append(self.constant_texts[idx].as_str());
                out.append("\n");
            },
            OpCode::Add => {
                out.append("Add\n");
            },
            OpCode::Subtract => {
                out.append("Subtract\n");
            },
            OpCode::Multiply => {
                out.append("Multiply\n");
            },
            OpCode::Divide => {
                out.append("Divide\n");
            },
            OpCode::Negate => {
                out.append("Negate\n");
            },
            OpCode::Return => {
                out.append("Return\n");
            },
        }
        Some(out)
    }

    /// Render the whole chunk, one line per instruction, stopping where no
    /// instruction can be read.
    #[verifier::loop_isolation(false)]
    pub fn disassemble(&self) -> (r: String)
        ensures
            r@ == sp_dump(self@),
    {
        let mut out = "".to_owned();
        let mut i: usize = 0;
        proof {
            reveal_strlit("");
            assert(out@ + sp_dump_from(self@, 0) =~= sp_dump_from(self@, 0));
        }
        loop
            invariant
                0 <= i,
                out@ + sp_dump_from(self@, i as int) == sp_dump(self@),
            decreases self@.code.len() - i,
        {
            if i >= self.code.len() {
                proof {
                    assert(out@ + Seq::<char>::empty() =~= out@);
                }
                break ;
            }
            let text = match self.disassemble_instruction(i) {
                None => {
                    proof {
                        assert(out@ + Seq::<char>::empty() =~= out@);
                    }
                    break ;
                },
                Some(t) => t,
            };
            let op = match OpCode::from_byte(self.code[i]) {
                None => {
                    proof {
                        assert(out@ + Seq::<char>::empty() =~= out@);
                    }
                    break ;
                },
                Some(op) => op,
            };
            let sz: usize = match op {
                OpCode::LoadConstant => 1 + OPERAND_WIDTH,
                _ => 1,
            };
            let ghost prev = out@;
            out.append(text.as_str());
            if sz > self.code.len() - i {
                proof {
                    assert(out@ =~= prev + text@);
                }
                break ;
            }
            proof {
                assert(out@ =~= prev + text@);
                assert(prev + text@ + sp_dump_from(self@, i + sz) =~= prev + (text@
                    + sp_dump_from(self@, i + sz)));
            }
            i = i + sz;
        }
        out
    }
}

/// Law: a chunk built from one constant load followed by a return
/// disassembles to exactly the two instructions' lines - the load at byte 0
/// showing pool position 0 and the constant's numeral text exactly as
/// stored, and the return at byte 5 - and its dump is exactly those two
/// lines.
pub proof fn lemma_dump_single_constant(v: Value, text: Seq<char>, l1: LineNum, l2: LineNum)
    ensures
        ({
            let ch = sp_push_opcode(sp_push_const(sp_empty_chunk(), v, text, l1), OpCode::Return, l2);
            &&& sp_disasm(ch, 0) == Some(
                sp_dec4z(0) + " "@ + sp_dec4s(l1 as int) + " "@ + "LoadConstant "@ + sp_dec(0)
                    + ": "@ + text + "
"@,
            )
            &&& sp_disasm(ch, 5) == Some(sp_dec4z(5) + " "@ + sp_dec4s(l2 as int) + " "@ + "Return
"@)
            &&& sp_dump(ch) == sp_disasm(ch, 0)->Some_0 + sp_disasm(ch, 5)->Some_0
        }),
{
    let ch = sp_push_opcode(sp_push_const(sp_empty_chunk(), v, text, l1), OpCode::Return, l2);
    reveal_with_fuel(spec_push_lines, 7);
    reveal_with_fuel(spec_get_line, 4);
    assert(0u32 & 0xff == 0 && (0u32 >> 8) & 0xff == 0 && (0u32 >> 16) & 0xff == 0 && (0u32 >> 24)
        & 0xff == 0) by (bit_vector);
    assert(ch.code =~= seq![0u8, 0u8, 0u8, 0u8, 0u8, 6u8]);
    assert(ch.constants =~= seq![v]);
    assert(ch.constant_texts =~= seq![text]);
    let runs5 = spec_push_lines(Seq::<(LineNum, usize)>::empty(), l1, 5);
    assert(runs5 =~= seq![(l1, 5usize)]);
    if l2 == l1 {
        assert(ch.lines =~= seq![(l1, 6usize)]);
        assert(spec_get_line(ch.lines, 0) == Some(l1));
        assert(spec_get_line(ch.lines, 5) == Some(l2));
    } else {
        assert(ch.lines =~= seq![(l1, 5usize), (l2, 1usize)]);
        assert(spec_get_line(ch.lines, 0) == Some(l1));
        assert(spec_get_line(ch.lines, 5) == Some(l2));
    }
    assert((0u8 as u32) | ((0u8 as u32) << 8) | ((0u8 as u32) << 16) | ((0u8 as u32) << 24)
        == 0u32) by (bit_vector);
    assert(crate::chunk::spec_le_word(0u8, 0u8, 0u8, 0u8) == 0u32);
    assert(spec_get_constant(ch, 1) == Some((0usize, v)));
    assert(OpCode::spec_from_byte(ch.code[0]) == Some(OpCode::LoadConstant));
    assert(OpCode::spec_from_byte(ch.code[5]) == Some(OpCode::Return));
    let t0 = sp_disasm(ch, 0)->Some_0;
    let t5 = sp_disasm(ch, 5)->Some_0;
    assert(sp_dump_from(ch, 6) =~= Seq::<char>::empty());
    assert(sp_dump_from(ch, 5) == t5 + sp_dump_from(ch, 6));
    assert(t5 + Seq::<char>::empty() =~= t5);
    assert(sp_dump(ch) == t0 + t5) by {
        assert(sp_dump_from(ch, 0) == t0 + sp_dump_from(ch, 5));
        assert(t0 + (t5 + Seq::<char>::empty()) =~= t0 + t5);
    }
}

} // verus!
