//! The chunk: a compiled program. A dense instruction stream, a constant
//! pool, and a run-length-encoded line-number table with one entry per
//! instruction byte.

use vstd::prelude::*;

verus! {

/// A runtime value: the 64-bit encoding of an IEEE-754 double-precision
/// number. The library carries values opaquely; the host encodes literals
/// and combines values arithmetically.
pub type Value = u64;

/// The source line a token, instruction or error belongs to.
pub type LineNum = u32;

/// An instruction tag. `LoadConstant` is followed in the stream by a
/// four-byte little-endian operand indexing the constant pool; the rest
/// stand alone.
#[derive(Debug, Clone, Copy, PartialEq, Eq, Structural)]
pub enum OpCode {
    LoadConstant,
    Add,
    Subtract,
    Multiply,
    Divide,
    Negate,
    Return,
}

/// The number of operand bytes following a `LoadConstant` tag.
pub const OPERAND_WIDTH: usize = 4;

impl OpCode {
    /// The byte this tag is encoded as.
    pub open spec fn spec_byte(self) -> u8 {
        match self {
            OpCode::LoadConstant => 0,
            OpCode::Add => 1,
            OpCode::Subtract => 2,
            OpCode::Multiply => 3,
            OpCode::Divide => 4,
            OpCode::Negate => 5,
            OpCode::Return => 6,
        }
    }

    /// Encode this tag as one byte.
    pub fn as_byte(self) -> (r: u8)
        ensures
            r == self.spec_byte(),
    {
        match self {
            OpCode::LoadConstant => 0,
            OpCode::Add => 1,
            OpCode::Subtract => 2,
            OpCode::Multiply => 3,
            OpCode::Divide => 4,
            OpCode::Negate => 5,
            OpCode::Return => 6,
        }
    }

    /// The tag a byte decodes to, if any.
    pub open spec fn spec_from_byte(b: u8) -> Option<OpCode> {
        if b == 0 {
            Some(OpCode::LoadConstant)
        } else if b == 1 {
            Some(OpCode::Add)
        } else if b == 2 {
            Some(OpCode::Subtract)
        } else if b == 3 {
            Some(OpCode::Multiply)
        } else if b == 4 {
            Some(OpCode::Divide)
        } else if b == 5 {
            Some(OpCode::Negate)
        } else if b == 6 {
            Some(OpCode::Return)
        } else {
            None
        }
    }

    /// Decode one byte back into a tag; a byte that encodes no tag is
    /// refused.
    pub fn from_byte(b: u8) -> (r: Option<OpCode>)
        ensures
            r == Self::spec_from_byte(b),
    {
        if b == 0 {
            Some(OpCode::LoadConstant)
        } else if b == 1 {
            Some(OpCode::Add)
        } else if b == 2 {
            Some(OpCode::Subtract)
        } else if b == 3 {
            Some(OpCode::Multiply)
        } else if b == 4 {
            Some(OpCode::Divide)
        } else if b == 5 {
            Some(OpCode::Negate)
        } else if b == 6 {
            Some(OpCode::Return)
        } else {
            None
        }
    }

    /// How many bytes an instruction with this tag occupies.
    pub open spec fn spec_size(self) -> int {
        if self is LoadConstant {
            1 + OPERAND_WIDTH
        } else {
            1
        }
    }
}

/// The little-endian bytes of a 32-bit operand.
pub open spec fn spec_le_bytes(x: u32) -> Seq<u8> {
    seq![
        (x & 0xff) as u8,
        ((x >> 8) & 0xff) as u8,
        ((x >> 16) & 0xff) as u8,
        ((x >> 24) & 0xff) as u8,
    ]
}

/// The 32-bit operand four little-endian bytes decode to.
pub open spec fn spec_le_word(b0: u8, b1: u8, b2: u8, b3: u8) -> u32 {
    (b0 as u32) | ((b1 as u32) << 8) | ((b2 as u32) << 16) | ((b3 as u32) << 24)
}

/// Decoding the little-endian bytes of an operand gives the operand back.
pub proof fn lemma_le_round_trip(x: u32)
    ensures
        spec_le_word(
            (x & 0xff) as u8,
            ((x >> 8) & 0xff) as u8,
            ((x >> 16) & 0xff) as u8,
            ((x >> 24) & 0xff) as u8,
        ) == x,
{
    assert((((x & 0xff) as u8) as u32) | ((((x >> 8) & 0xff) as u8) as u32) << 8 | ((((x >> 16)
        & 0xff) as u8) as u32) << 16 | ((((x >> 24) & 0xff) as u8) as u32) << 24 == x)
        by (bit_vector);
}

/// The mathematical image of a chunk.
pub struct SpecChunk {
    pub code: Seq<u8>,
    pub constants: Seq<Value>,
    pub constant_texts: Seq<Seq<char>>,
    pub lines: Seq<(LineNum, usize)>,
}

/// A chunk with nothing in it.
pub open spec fn sp_empty_chunk() -> SpecChunk {
    SpecChunk {
        code: Seq::<u8>::empty(),
        constants: Seq::<Value>::empty(),
        constant_texts: Seq::<Seq<char>>::empty(),
        lines: Seq::<(LineNum, usize)>::empty(),
    }
}

/// The number of line entries a run-length table expands to: one per
/// instruction byte pushed so far.
pub open spec fn spec_line_total(lines: Seq<(LineNum, usize)>) -> int
    decreases lines.len(),
{
    if lines.len() == 0 {
        0
    } else {
        lines[0].1 + spec_line_total(lines.drop_first())
    }
}

/// The line recorded for instruction byte `i`, found by walking the runs;
/// `None` past the table's end.
pub open spec fn spec_get_line(lines: Seq<(LineNum, usize)>, i: int) -> Option<LineNum>
    decreases lines.len(),
{
    if lines.len() == 0 || i < 0 {
        None
    } else if i < lines[0].1 {
        Some(lines[0].0)
    } else {
        spec_get_line(lines.drop_first(), i - lines[0].1)
    }
}

/// A compact run-length table: no empty runs, and no two neighbouring runs
/// with the same line (they would have been merged).
pub open spec fn spec_lines_compact(lines: Seq<(LineNum, usize)>) -> bool {
    &&& forall|k: int| 0 <= k < lines.len() ==> (#[trigger] lines[k]).1 > 0
    &&& forall|k: int| 0 <= k < lines.len() - 1 ==> (#[trigger] lines[k]).0 != lines[k + 1].0
}

/// The observable effect of recording `k` more entries of `line`: the table
/// grows by `k`, earlier entries keep their lines, and the new entries all
/// read `line`.
pub open spec fn spec_lines_extended(
    o: Seq<(LineNum, usize)>,
    n: Seq<(LineNum, usize)>,
    line: LineNum,
    k: int,
) -> bool {
    &&& spec_line_total(n) == spec_line_total(o) + k
    &&& forall|j: int| 0 <= j < spec_line_total(o) ==> spec_get_line(n, j) == spec_get_line(o, j)
    &&& forall|j: int|
        spec_line_total(o) <= j < spec_line_total(o) + k ==> spec_get_line(n, j) == Some(line)
}

/// Every run-length table expands to a non-negative number of entries.
pub proof fn lemma_line_total_nonneg(lines: Seq<(LineNum, usize)>)
    ensures
        spec_line_total(lines) >= 0,
    decreases lines.len(),
{
    if lines.len() > 0 {
        lemma_line_total_nonneg(lines.drop_first());
    }
}

proof fn lemma_line_total_push(l: Seq<(LineNum, usize)>, r: (LineNum, usize))
    ensures
        spec_line_total(l.push(r)) == spec_line_total(l) + r.1,
    decreases l.len(),
{
    reveal_with_fuel(spec_line_total, 3);
    if l.len() == 0 {
        assert(l.push(r)[0] == r);
        assert(l.push(r).drop_first() =~= Seq::<(LineNum, usize)>::empty());
    } else {
        assert(l.push(r)[0] == l[0]);
        assert(l.push(r).drop_first() =~= l.drop_first().push(r));
        lemma_line_total_push(l.drop_first(), r);
    }
}

proof fn lemma_get_line_push(l: Seq<(LineNum, usize)>, r: (LineNum, usize))
    ensures
        forall|j: int|
            0 <= j < spec_line_total(l) ==> #[trigger] spec_get_line(l.push(r), j)
                == spec_get_line(l, j),
        forall|j: int|
            spec_line_total(l) <= j < spec_line_total(l) + r.1 ==> #[trigger] spec_get_line(
                l.push(r),
                j,
            ) == Some(r.0),
        forall|j: int|
            j >= spec_line_total(l) + r.1 ==> #[trigger] spec_get_line(l.push(r), j) is None,
    decreases l.len(),
{
    reveal_with_fuel(spec_line_total, 3);
    reveal_with_fuel(spec_get_line, 3);
    lemma_line_total_nonneg(l);
    if l.len() == 0 {
        assert(l.push(r)[0] == r);
        assert(l.push(r).drop_first() =~= Seq::<(LineNum, usize)>::empty());
        assert forall|j: int| j >= spec_line_total(l) + r.1 implies #[trigger] spec_get_line(
            l.push(r),
            j,
        ) is None by {
            assert(spec_get_line(Seq::<(LineNum, usize)>::empty(), j - r.1) is None);
        }
    } else {
        assert(l.push(r)[0] == l[0]);
        assert(l.push(r).drop_first() =~= l.drop_first().push(r));
        lemma_get_line_push(l.drop_first(), r);
        lemma_line_total_push(l.drop_first(), r);
        lemma_line_total_nonneg(l.drop_first());
        let head = l[0].1 as int;
        assert forall|j: int| 0 <= j < spec_line_total(l) implies #[trigger] spec_get_line(
            l.push(r),
            j,
        ) == spec_get_line(l, j) by {
            if j >= head {
                assert(spec_get_line(l.drop_first().push(r), j - head) == spec_get_line(
                    l.drop_first(),
                    j - head,
                ));
            }
        }
        assert forall|j: int|
            spec_line_total(l) <= j < spec_line_total(l) + r.1 implies #[trigger] spec_get_line(
            l.push(r),
            j,
        ) == Some(r.0) by {
            assert(spec_get_line(l.drop_first().push(r), j - head) == Some(r.0));
        }
        assert forall|j: int| j >= spec_line_total(l) + r.1 implies #[trigger] spec_get_line(
            l.push(r),
            j,
        ) is None by {
            assert(spec_get_line(l.drop_first().push(r), j - head) is None);
        }
    }
}

/// Asking for the line of a position at or past the table's end gives
/// nothing.
pub proof fn lemma_get_line_past_end(lines: Seq<(LineNum, usize)>, j: int)
    requires
        j >= spec_line_total(lines),
    ensures
        spec_get_line(lines, j) is None,
    decreases lines.len(),
{
    lemma_line_total_nonneg(lines);
    if lines.len() > 0 {
        lemma_line_total_nonneg(lines.drop_first());
        if j >= 0 && j >= lines[0].1 {
            lemma_get_line_past_end(lines.drop_first(), j - lines[0].1);
        }
    }
}

proof fn lemma_last_count_le_total(lines: Seq<(LineNum, usize)>)
    requires
        lines.len() > 0,
    ensures
        lines.last().1 <= spec_line_total(lines),
    decreases lines.len(),
{
    if lines.len() == 1 {
        lemma_line_total_nonneg(lines.drop_first());
    } else {
        lemma_last_count_le_total(lines.drop_first());
    }
}

/// Recording entries twice in a row extends the table by their sum.
pub proof fn lemma_lines_extended_trans(
    a: Seq<(LineNum, usize)>,
    b: Seq<(LineNum, usize)>,
    c: Seq<(LineNum, usize)>,
    line: LineNum,
    k1: int,
    k2: int,
)
    requires
        k1 >= 0,
        k2 >= 0,
        spec_lines_extended(a, b, line, k1),
        spec_lines_extended(b, c, line, k2),
    ensures
        spec_lines_extended(a, c, line, k1 + k2),
{
    lemma_line_total_nonneg(a);
    assert forall|j: int| 0 <= j < spec_line_total(a) implies spec_get_line(c, j)
        == spec_get_line(a, j) by {
        assert(spec_get_line(b, j) == spec_get_line(a, j));
    }
    assert forall|j: int|
        spec_line_total(a) <= j < spec_line_total(a) + (k1 + k2) implies spec_get_line(c, j)
        == Some(line) by {
        if j < spec_line_total(a) + k1 {
            assert(spec_get_line(b, j) == Some(line));
        }
    }
}

/// The exact run-length table after recording one more entry of `line`:
/// merged into the last run when the line repeats and the run has room,
/// otherwise a fresh run.
pub open spec fn spec_push_line_table(
    l: Seq<(LineNum, usize)>,
    line: LineNum,
) -> Seq<(LineNum, usize)> {
    if l.len() > 0 && l.last().0 == line && l.last().1 < usize::MAX {
        l.drop_last().push((line, (l.last().1 + 1) as usize))
    } else {
        l.push((line, 1usize))
    }
}

/// The exact run-length table after recording `k` more entries of `line`.
pub open spec fn spec_push_lines(l: Seq<(LineNum, usize)>, line: LineNum, k: nat) -> Seq<
    (LineNum, usize),
>
    decreases k,
{
    if k == 0 {
        l
    } else {
        spec_push_lines(spec_push_line_table(l, line), line, (k - 1) as nat)
    }
}

/// A compiled program: the instruction stream, the constant pool with the
/// numeral text each value was written as, and the line table. Built once by
/// the compiler, then owned by whoever executes or inspects it.
#[derive(Debug)]
pub struct Chunk {
    pub code: Vec<u8>,
    pub constants: Vec<Value>,
    pub constant_texts: Vec<String>,
    pub lines: Vec<(LineNum, usize)>,
}

impl View for Chunk {
    type V = SpecChunk;

    open spec fn view(&self) -> SpecChunk {
        SpecChunk {
            code: self.code@,
            constants: self.constants@,
            constant_texts: self.constant_texts.deep_view(),
            lines: self.lines@,
        }
    }
}

impl Chunk {
    /// An empty chunk.
    pub fn new() -> (r: Self)
        ensures
            r@.code == Seq::<u8>::empty(),
            r@.constants == Seq::<Value>::empty(),
            r@.constant_texts == Seq::<Seq<char>>::empty(),
            r@.lines == Seq::<(LineNum, usize)>::empty(),
    {
        let r = Self { code: Vec::new(), constants: Vec::new(), constant_texts: Vec::new(), lines: Vec::new() };
        proof {
            assert(r.constant_texts.deep_view() =~= Seq::<Seq<char>>::empty());
        }
        r
    }

    /// Record one more line entry, merging into the last run when the line
    /// repeats.
    pub fn push_line(&mut self, line: LineNum)
        ensures
            final(self)@.code == old(self)@.code,
            final(self)@.constants == old(self)@.constants,
            final(self)@.constant_texts == old(self)@.constant_texts,
            final(self)@.lines == spec_push_line_table(old(self)@.lines, line),
            spec_lines_extended(old(self)@.lines, final(self)@.lines, line, 1),
            spec_lines_compact(old(self)@.lines) && spec_line_total(old(self)@.lines)
                < usize::MAX ==> spec_lines_compact(final(self)@.lines),
    {
        let ghost l0 = self.lines@;
        let n = self.lines.len();
        if n > 0 {
            let (last_line, last_count) = self.lines[n - 1];
            if last_line == line && last_count < usize::MAX {
                let popped = self.lines.pop();
                self.lines.push((line, last_count + 1));
                proof {
                    let front = l0.drop_last();
                    assert(l0 =~= front.push((last_line, last_count)));
                    assert(self.lines@ =~= front.push((line, (last_count + 1) as usize)));
                    lemma_line_total_push(front, (last_line, last_count));
                    lemma_line_total_push(front, (line, (last_count + 1) as usize));
                    lemma_get_line_push(front, (last_line, last_count));
                    lemma_get_line_push(front, (line, (last_count + 1) as usize));
                    lemma_line_total_nonneg(front);
                    if spec_lines_compact(l0) && spec_line_total(l0) < usize::MAX {
                        assert forall|k: int|
                            0 <= k < self.lines@.len() implies (#[trigger] self.lines@[k]).1
                            > 0 by {
                            assert(l0[k].1 > 0);
                        }
                        assert forall|k: int|
                            0 <= k < self.lines@.len() - 1 implies (#[trigger] self.lines@[k]).0
                            != self.lines@[k + 1].0 by {
                            assert(l0[k].0 == self.lines@[k].0);
                            assert(l0[k + 1].0 == self.lines@[k + 1].0);
                        }
                    }
                }
                return ;
            }
        }
        self.lines.push((line, 1));
        proof {
            assert(self.lines@ =~= l0.push((line, 1usize)));
            lemma_line_total_push(l0, (line, 1usize));
            lemma_get_line_push(l0, (line, 1usize));
            lemma_line_total_nonneg(l0);
            if spec_lines_compact(l0) && spec_line_total(l0) < usize::MAX {
                if l0.len() > 0 {
                    lemma_last_count_le_total(l0);
                }
                assert forall|k: int|
                    0 <= k < self.lines@.len() implies (#[trigger] self.lines@[k]).1 > 0 by {
                    if k < l0.len() {
                        assert(l0[k].1 > 0);
                    }
                }
            }
        }
    }

    /// Append one stand-alone instruction, recording its line.
    pub fn push_opcode(&mut self, opcode: OpCode, line: LineNum)
        ensures
            final(self)@.code == old(self)@.code.push(opcode.spec_byte()),
            final(self)@.constants == old(self)@.constants,
            final(self)@.constant_texts == old(self)@.constant_texts,
            final(self)@.lines == spec_push_line_table(old(self)@.lines, line),
            spec_lines_extended(old(self)@.lines, final(self)@.lines, line, 1),
            spec_lines_compact(old(self)@.lines) && spec_line_total(old(self)@.lines)
                < usize::MAX ==> spec_lines_compact(final(self)@.lines),
    {
        let b = opcode.as_byte();
        self.code.push(b);
        self.push_line(line);
    }

    /// Append a value to the constant pool together with its numeral text,
    /// returning its position. The pool is append-only.
    pub fn push_constant(&mut self, value: Value, text: String) -> (r: usize)
        ensures
            final(self)@.code == old(self)@.code,
            final(self)@.constants == old(self)@.constants.push(value),
            final(self)@.constant_texts == old(self)@.constant_texts.push(text@),
            final(self)@.lines == old(self)@.lines,
            r == old(self)@.constants.len(),
    {
        self.constants.push(value);
        self.constant_texts.push(text);
        proof {
            assert(self.constant_texts.deep_view() =~= old(
                self,
            ).constant_texts.deep_view().push(text@));
        }
        self.constants.len() - 1
    }

    /// Append a `LoadConstant` of `value`: the value joins the pool, the tag
    /// and its four operand bytes join the stream, and each of the five
    /// bytes records `line`.
    pub fn push_const_opcode(&mut self, value: Value, text: String, line: LineNum)
        requires
            old(self)@.constants.len() < u32::MAX,
        ensures
            final(self)@.code == old(self)@.code.push(OpCode::LoadConstant.spec_byte())
                + spec_le_bytes(old(self)@.constants.len() as u32),
            final(self)@.constants == old(self)@.constants.push(value),
            final(self)@.constant_texts == old(self)@.constant_texts.push(text@),
            final(self)@.lines == spec_push_lines(old(self)@.lines, line, 5),
            spec_lines_extended(old(self)@.lines, final(self)@.lines, line, 5),
            spec_lines_compact(old(self)@.lines) && spec_line_total(old(self)@.lines) + 5
                <= usize::MAX ==> spec_lines_compact(final(self)@.lines),
    {
        let ghost lines0 = self.lines@;
        let i = self.push_constant(value, text);
        self.push_opcode(OpCode::LoadConstant, line);
        let ghost lines1 = self.lines@;
        let w = i as u32;
        self.code.push((w & 0xff) as u8);
        self.push_line(line);
        let ghost lines2 = self.lines@;
        self.code.push(((w >> 8) & 0xff) as u8);
        self.push_line(line);
        let ghost lines3 = self.lines@;
        self.code.push(((w >> 16) & 0xff) as u8);
        self.push_line(line);
        let ghost lines4 = self.lines@;
        self.code.push(((w >> 24) & 0xff) as u8);
        self.push_line(line);
        proof {
            reveal_with_fuel(spec_push_lines, 6);
            assert(self.code@ =~= old(self).code@.push(OpCode::LoadConstant.spec_byte())
                + spec_le_bytes(old(self)@.constants.len() as u32));
            lemma_lines_extended_trans(lines0, lines1, lines2, line, 1, 1);
            lemma_lines_extended_trans(lines0, lines2, lines3, line, 2, 1);
            lemma_lines_extended_trans(lines0, lines3, lines4, line, 3, 1);
            lemma_lines_extended_trans(lines0, lines4, self.lines@, line, 4, 1);
        }
    }

    /// Decode the operand whose first byte stands at `lower` and fetch the
    /// constant it indexes, giving the pool position and the value; nothing
    /// when the operand is cut short or the index is out of the pool.
    #[verifier::loop_isolation(false)]
    pub fn get_constant(&self, lower: usize) -> (r: Option<(usize, Value)>)
        ensures
            r == spec_get_constant(self@, lower as int),
    {
        if self.code.len() < OPERAND_WIDTH || lower > self.code.len() - OPERAND_WIDTH {
            return None;
        }
        let b0 = self.code[lower];
        let b1 = self.code[lower + 1];
        let b2 = self.code[lower + 2];
        let b3 = self.code[lower + 3];
        let idx32: u32 = (b0 as u32) | ((b1 as u32) << 8) | ((b2 as u32) << 16) | ((b3
            as u32) << 24);
        let idx = idx32 as usize;
        if idx < self.constants.len() {
            Some((idx, self.constants[idx]))
        } else {
            None
        }
    }

    /// The source line of the instruction byte at `i`, walking the
    /// run-length table; nothing past the table's end.
    #[verifier::loop_isolation(false)]
    pub fn get_line(&self, i: usize) -> (r: Option<LineNum>)
        ensures
            r == spec_get_line(self@.lines, i as int),
    {
        let n = self.lines.len();
        let mut k: usize = 0;
        let mut rem: usize = i;
        proof {
            assert(self@.lines.subrange(0, n as int) =~= self@.lines);
        }
        while k < n
            invariant
                k <= n,
                spec_get_line(self@.lines, i as int) == spec_get_line(
                    self@.lines.subrange(k as int, n as int),
                    rem as int,
                ),
            decreases n - k,
        {
            let (ln, cnt) = self.lines[k];
            proof {
                assert(self@.lines.subrange(k as int, n as int)[0] == self@.lines[k as int]);
            }
            if rem < cnt {
                return Some(ln);
            }
            proof {
                assert(self@.lines.subrange(k as int, n as int).drop_first() =~= self@.lines.subrange(
                    k as int + 1,
                    n as int,
                ));
            }
            rem = rem - cnt;
            k = k + 1;
        }
        proof {
            assert(self@.lines.subrange(n as int, n as int) =~= Seq::<(LineNum, usize)>::empty());
        }
        None
    }
}

/// What `get_constant` finds at `lower`: the decoded pool index and the
/// value there, when both are in range.
pub open spec fn spec_get_constant(ch: SpecChunk, lower: int) -> Option<(usize, Value)> {
    if lower < 0 || lower + OPERAND_WIDTH > ch.code.len() {
        None
    } else {
        let idx = spec_le_word(
            ch.code[lower],
            ch.code[lower + 1],
            ch.code[lower + 2],
            ch.code[lower + 3],
        ) as usize;
        if idx < ch.constants.len() {
            Some((idx, ch.constants[idx as int]))
        } else {
            None
        }
    }
}

} // verus!
