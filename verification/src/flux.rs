//! FLUX instructions, their binary encoding, and their validation.
//!
//! Operands are binary64 numbers. The encoding is that of the FLUX instruction
//! set, and programs are validated by its own validator, which reads the encoding.

use crate::binary64;
use crate::binary64::Real;
use crate::text;
use flux_isa::bytecode;
use vstd::prelude::*;

verus! {

/// Every operation of the FLUX virtual machine.
#[derive(Debug, Clone, Copy, PartialEq, Eq, Hash)]
pub enum Opcode {
    // ARITHMETIC
    Add,
    Sub,
    Mul,
    Div,
    Mod,
    // CONSTRAINT
    Assert,
    Check,
    Validate,
    Reject,
    // FLOW
    Jump,
    Branch,
    Call,
    Return,
    Halt,
    // MEMORY
    Load,
    Store,
    Push,
    Pop,
    Swap,
    // CONVERT
    Snap,
    Quantize,
    Cast,
    Promote,
    // LOGIC
    And,
    Or,
    Not,
    Xor,
    // COMPARE
    Eq,
    Neq,
    Lt,
    Gt,
    Lte,
    Gte,
    // INT8 SATURATION
    SatAdd,
    SatSub,
    Clip,
    Mad,
    Popcnt,
    Ctz,
    Pabs,
    Pmin,
    // SPECIAL
    Nop,
    Debug,
    Trace,
    Dump,
}

impl Opcode {
    /// The byte that stands for the operation.
    pub open spec fn byte(self) -> u8 {
        match self {
            Opcode::Add => 0x01,
            Opcode::Sub => 0x02,
            Opcode::Mul => 0x03,
            Opcode::Div => 0x04,
            Opcode::Mod => 0x05,
            Opcode::Assert => 0x10,
            Opcode::Check => 0x11,
            Opcode::Validate => 0x12,
            Opcode::Reject => 0x13,
            Opcode::Jump => 0x20,
            Opcode::Branch => 0x21,
            Opcode::Call => 0x22,
            Opcode::Return => 0x23,
            Opcode::Halt => 0x24,
            Opcode::Load => 0x30,
            Opcode::Store => 0x31,
            Opcode::Push => 0x32,
            Opcode::Pop => 0x33,
            Opcode::Swap => 0x34,
            Opcode::Snap => 0x40,
            Opcode::Quantize => 0x41,
            Opcode::Cast => 0x42,
            Opcode::Promote => 0x43,
            Opcode::And => 0x50,
            Opcode::Or => 0x51,
            Opcode::Not => 0x52,
            Opcode::Xor => 0x53,
            Opcode::Eq => 0x60,
            Opcode::Neq => 0x61,
            Opcode::Lt => 0x62,
            Opcode::Gt => 0x63,
            Opcode::Lte => 0x64,
            Opcode::Gte => 0x65,
            Opcode::SatAdd => 0x28,
            Opcode::SatSub => 0x29,
            Opcode::Clip => 0x2a,
            Opcode::Mad => 0x2b,
            Opcode::Popcnt => 0x2c,
            Opcode::Ctz => 0x2d,
            Opcode::Pabs => 0x2e,
            Opcode::Pmin => 0x2f,
            Opcode::Nop => 0x70,
            Opcode::Debug => 0x71,
            Opcode::Trace => 0x72,
            Opcode::Dump => 0x73,
        }
    }

    /// The byte that stands for the operation.
    pub fn code(self) -> (code: u8)
        ensures
            code == self.byte(),
    {
        match self {
            Opcode::Add => 0x01,
            Opcode::Sub => 0x02,
            Opcode::Mul => 0x03,
            Opcode::Div => 0x04,
            Opcode::Mod => 0x05,
            Opcode::Assert => 0x10,
            Opcode::Check => 0x11,
            Opcode::Validate => 0x12,
            Opcode::Reject => 0x13,
            Opcode::Jump => 0x20,
            Opcode::Branch => 0x21,
            Opcode::Call => 0x22,
            Opcode::Return => 0x23,
            Opcode::Halt => 0x24,
            Opcode::Load => 0x30,
            Opcode::Store => 0x31,
            Opcode::Push => 0x32,
            Opcode::Pop => 0x33,
            Opcode::Swap => 0x34,
            Opcode::Snap => 0x40,
            Opcode::Quantize => 0x41,
            Opcode::Cast => 0x42,
            Opcode::Promote => 0x43,
            Opcode::And => 0x50,
            Opcode::Or => 0x51,
            Opcode::Not => 0x52,
            Opcode::Xor => 0x53,
            Opcode::Eq => 0x60,
            Opcode::Neq => 0x61,
            Opcode::Lt => 0x62,
            Opcode::Gt => 0x63,
            Opcode::Lte => 0x64,
            Opcode::Gte => 0x65,
            Opcode::SatAdd => 0x28,
            Opcode::SatSub => 0x29,
            Opcode::Clip => 0x2a,
            Opcode::Mad => 0x2b,
            Opcode::Popcnt => 0x2c,
            Opcode::Ctz => 0x2d,
            Opcode::Pabs => 0x2e,
            Opcode::Pmin => 0x2f,
            Opcode::Nop => 0x70,
            Opcode::Debug => 0x71,
            Opcode::Trace => 0x72,
            Opcode::Dump => 0x73,
        }
    }
}

/// Additional metadata attached to an instruction for debugging and labelling.
#[derive(Debug, Clone, PartialEq)]
pub struct Metadata {
    /// An optional human-readable label (e.g., a branch target).
    pub label: Option<String>,
    /// An optional source location string (e.g., "file.flux:42:5").
    pub source_location: Option<String>,
}

/// A single FLUX instruction.
#[derive(Debug, Clone, PartialEq)]
pub struct Instruction {
    /// The operation to perform.
    pub opcode: Opcode,
    /// Immediate operands.
    pub operands: Vec<Real>,
    /// Metadata for debugging and flow-control resolution.
    pub metadata: Metadata,
}

/// A collection of FLUX instructions representing a complete program or module.
#[derive(Debug, Clone, PartialEq)]
pub struct Bytecode {
    /// The instruction sequence.
    pub instructions: Vec<Instruction>,
}

/// An instruction with its texts as character sequences.
#[verifier::ext_equal]
pub struct InstructionView {
    pub opcode: Opcode,
    pub operands: Seq<Real>,
    pub label: Option<Seq<char>>,
    pub source_location: Option<Seq<char>>,
}

/// A text that may be missing, as characters.
pub open spec fn text_view(s: Option<String>) -> Option<Seq<char>> {
    match s {
        Some(s) => Some(s@),
        None => None,
    }
}

impl View for Instruction {
    type V = InstructionView;

    open spec fn view(&self) -> InstructionView {
        InstructionView {
            opcode: self.opcode,
            operands: self.operands@,
            label: text_view(self.metadata.label),
            source_location: text_view(self.metadata.source_location),
        }
    }
}

impl View for Bytecode {
    type V = Seq<InstructionView>;

    open spec fn view(&self) -> Seq<InstructionView> {
        self.instructions@.map_values(|i: Instruction| i@)
    }
}

/// An instruction without a label and a location.
pub open spec fn bare(opcode: Opcode, operands: Seq<Real>) -> InstructionView {
    InstructionView { opcode, operands, label: None, source_location: None }
}

impl Instruction {
    /// Create a new instruction with operands.
    pub fn with_operands(opcode: Opcode, operands: Vec<Real>) -> (inst: Self)
        ensures
            inst@ == bare(opcode, operands@),
    {
        Instruction {
            opcode,
            operands,
            metadata: Metadata { label: None, source_location: None },
        }
    }

    /// Create a new instruction with the given opcode.
    pub fn new(opcode: Opcode) -> (inst: Self)
        ensures
            inst@ == bare(opcode, Seq::empty()),
    {
        Self::with_operands(opcode, Vec::new())
    }

    /// Create a new instruction with operands and metadata.
    pub fn with_metadata(
        opcode: Opcode,
        operands: Vec<Real>,
        metadata: Metadata,
    ) -> (inst: Self)
        ensures
            inst@ == (InstructionView {
                opcode,
                operands: operands@,
                label: text_view(metadata.label),
                source_location: text_view(metadata.source_location),
            }),
    {
        Instruction { opcode, operands, metadata }
    }
}

// ---------------------------------------------------------------------------
// Encoding
// ---------------------------------------------------------------------------

/// An instruction as the machine sees it: the operation's byte and the bit
/// patterns of the operands.
pub type Word = (u8, Seq<u64>);

/// The instruction without its metadata.
pub open spec fn word(inst: InstructionView) -> Word {
    (inst.opcode.byte(), inst.operands.map_values(|r: Real| r.0))
}

/// The instructions without their metadata.
pub open spec fn words(code: Seq<InstructionView>) -> Seq<Word> {
    code.map_values(|inst: InstructionView| word(inst))
}

/// Operands, each in eight bytes, the lowest first.
pub open spec fn operand_bytes(operands: Seq<u64>) -> Seq<u8>
    decreases operands.len(),
{
    if operands.len() == 0 {
        Seq::empty()
    } else {
        operand_bytes(operands.drop_last()) + vstd::bytes::spec_u64_to_le_bytes(operands.last())
    }
}

/// An instruction in bytes: the operation, the number of operands, two bytes
/// that are zero, and the operands.
pub open spec fn word_bytes(w: Word) -> Seq<u8> {
    seq![w.0, w.1.len() as u8, 0u8, 0u8] + operand_bytes(w.1)
}

/// A program in bytes: its instructions one after the other.
pub open spec fn encoding(p: Seq<Word>) -> Seq<u8>
    decreases p.len(),
{
    if p.len() == 0 {
        Seq::empty()
    } else {
        encoding(p.drop_last()) + word_bytes(p.last())
    }
}

/// Every instruction has at most 255 operands, so that their number fits in a
/// byte.
pub open spec fn encodable(p: Seq<Word>) -> bool {
    forall|i: int| 0 <= i < p.len() ==> (#[trigger] p[i]).1.len() <= 255
}

/// The byte stands for an operation.
pub open spec fn is_opcode(byte: u8) -> bool {
    exists|op: Opcode| #[trigger] op.byte() == byte
}

impl Bytecode {
    /// Create an empty bytecode object.
    pub fn new() -> (bytecode: Self)
        ensures
            bytecode@ == Seq::<InstructionView>::empty(),
    {
        let bytecode = Bytecode { instructions: Vec::new() };
        assert(bytecode@ =~= Seq::<InstructionView>::empty());
        bytecode
    }

    /// Append an instruction.
    pub fn push(&mut self, instruction: Instruction)
        ensures
            final(self)@ == old(self)@.push(instruction@),
    {
        self.instructions.push(instruction);
        assert(self@ =~= old(self)@.push(instruction@));
    }

    /// Encode the full instruction sequence into a compact binary representation.
    ///
    /// Binary layout per instruction:
    /// ```text
    /// +--------+--------+--------+--------+
    /// | opcode |  argc  | flags  | reserved|
    /// +--------+--------+--------+--------+
    /// |          operand[0] (8 bytes)       |
    /// +-------------------------------------+
    /// |          operand[1] (8 bytes)       |
    /// +-------------------------------------+
    /// ```
    pub fn encode(&self) -> (bytes: Vec<u8>)
        requires
            encodable(words(self@)),
        ensures
            bytes@ == encoding(words(self@)),
    {
        let ghost p = words(self@);
        let mut bytes: Vec<u8> = Vec::new();
        let count: usize = self.instructions.len();
        let mut i: usize = 0;
        assert(p.take(0) =~= Seq::empty());
        while i < count
            invariant
                i <= count == self.instructions@.len(),
                p == words(self@),
                encodable(p),
                bytes@ == encoding(p.take(i as int)),
            decreases count - i,
        {
            let inst = &self.instructions[i];
            let ghost w = p[i as int];
            assert(w == word(inst@));
            let argc: usize = inst.operands.len();
            assert(w.1.len() == argc);
            let ghost before = bytes@;
            bytes.push(inst.opcode.code());
            bytes.push(argc as u8);
            bytes.push(0);  // flags (reserved)
            bytes.push(0);  // reserved
            let ghost header = seq![w.0, argc as u8, 0u8, 0u8];
            let mut j: usize = 0;
            assert(w.1.take(0) =~= Seq::empty());
            assert(bytes@ =~= before + (header + operand_bytes(w.1.take(0))));
            while j < argc
                invariant
                    j <= argc == inst.operands@.len(),
                    w.1 == inst.operands@.map_values(|r: Real| r.0),
                    bytes@ == before + (header + operand_bytes(w.1.take(j as int))),
                decreases argc - j,
            {
                let mut tail: Vec<u8> = vstd::bytes::u64_to_le_bytes(inst.operands[j].0);
                let ghost added = tail@;
                bytes.append(&mut tail);
                proof {
                    let longer = w.1.take(j + 1);
                    assert(longer.drop_last() =~= w.1.take(j as int));
                    assert(longer.last() == inst.operands@[j as int].0);
                    assert(before + (header + operand_bytes(w.1.take(j as int))) + added =~= before
                        + (header + (operand_bytes(w.1.take(j as int)) + added)));
                }
                j += 1;
            }
            proof {
                assert(w.1.take(argc as int) =~= w.1);
                let longer = p.take(i + 1);
                assert(longer.drop_last() =~= p.take(i as int));
                assert(longer.last() == w);
            }
            i += 1;
        }
        assert(p.take(count as int) =~= p);
        bytes
    }
}

// ---------------------------------------------------------------------------
// Validation
// ---------------------------------------------------------------------------

/// A program of the FLUX instruction set's own crate.
#[verifier::external_type_specification]
#[verifier::external_body]
pub struct ExIsaBytecode(bytecode::FluxBytecode);

/// The instructions of an `flux_isa::bytecode::FluxBytecode`, each with the bit
/// patterns of its operands.
pub uninterp spec fn isa_program(program: bytecode::FluxBytecode) -> Seq<(u8, Seq<u64>)>;

/// `FluxBytecode::decode` reads back a program from its encoding. Of bytes that
/// encode no program nothing is stated.
#[verifier::external_body]
fn isa_decode(bytes: &[u8]) -> (program: Option<bytecode::FluxBytecode>)
    ensures
        forall|p: Seq<Word>|
            #![trigger encoding(p)]
            encodable(p) && opcodes_known(p) && bytes@ == encoding(p) ==> program is Some
                && isa_program(program->0) == p,
{
    bytecode::FluxBytecode::decode(bytes).ok()
}

/// Every instruction is one of the machine's.
pub open spec fn opcodes_known(p: Seq<Word>) -> bool {
    forall|i: int| 0 <= i < p.len() ==> is_opcode((#[trigger] p[i]).0)
}

/// `FluxBytecode::validate` accepts a program exactly where there is nothing to
/// complain of. The text of its error names the first complaint.
#[verifier::external_body]
fn isa_validate(program: &bytecode::FluxBytecode) -> (checked: core::result::Result<(), String>)
    ensures
        checked is Ok <==> complaint(isa_program(*program)) is None,
        checked matches Err(message) ==> message@ == "validation error: "@ + complaint(
            isa_program(*program),
        )->0,
{
    program.validate().map_err(|e| e.to_string())
}

/// What is wrong with a program, if anything: it is empty, it can run off its
/// end, an instruction leads nowhere, or the stack runs short when the
/// instructions are gone through in order.
pub open spec fn complaint(p: Seq<Word>) -> Option<Seq<char>> {
    if p.len() == 0 {
        Some("bytecode contains no instructions"@)
    } else if !ends_run(p.last().0) {
        Some("program must end with Halt or Return"@)
    } else if first_bad_jump(p, 0) is Some {
        first_bad_jump(p, 0)
    } else if lowest(p, p.len()) < 0 {
        Some(
            "stack underflow detected (minimum stack depth: "@ + text::signed_decimal(
                lowest(p, p.len()),
            ) + ")"@,
        )
    } else {
        None
    }
}

/// The operation ends a run of the program or of a subroutine.
pub open spec fn ends_run(byte: u8) -> bool {
    byte == Opcode::Halt.byte() || byte == Opcode::Return.byte()
}

/// The name of an operation that takes a jump target.
pub open spec fn jump_name(byte: u8) -> Option<Seq<char>> {
    if byte == Opcode::Jump.byte() {
        Some("Jump"@)
    } else if byte == Opcode::Branch.byte() {
        Some("Branch"@)
    } else if byte == Opcode::Call.byte() {
        Some("Call"@)
    } else {
        None
    }
}

/// What is wrong with the jump at `i`, if there is one and anything is.
pub open spec fn bad_jump(p: Seq<Word>, i: int) -> Option<Seq<char>> {
    match jump_name(p[i].0) {
        Some(name) => {
            let here = "instruction "@ + text::decimal(i as nat) + " ("@ + name + ")"@;
            if p[i].1.len() == 0 {
                Some(here + " missing jump target operand"@)
            } else {
                let target = binary64::real_to_index(Real(p[i].1[0]));
                if target >= p.len() {
                    Some(here + " jumps to invalid target "@ + text::decimal(target))
                } else {
                    None
                }
            }
        },
        None => None,
    }
}

/// What is wrong with the first bad jump from `from` on, if there is one.
pub open spec fn first_bad_jump(p: Seq<Word>, from: int) -> Option<Seq<char>>
    decreases p.len() - from,
{
    if from < 0 || from >= p.len() {
        None
    } else {
        match bad_jump(p, from) {
            Some(complaint) => Some(complaint),
            None => first_bad_jump(p, from + 1),
        }
    }
}

/// The number of values that an operation takes from the stack.
pub open spec fn stack_inputs(byte: u8) -> int {
    if 0x01 <= byte <= 0x05 || byte == 0x50 || byte == 0x51 || byte == 0x53 || 0x60 <= byte <= 0x65
        || byte == 0x34 || byte == 0x28 || byte == 0x29 || byte == 0x2f {
        2
    } else if byte == 0x52 || byte == 0x33 || 0x10 <= byte <= 0x12 || 0x2c <= byte <= 0x2e {
        1
    } else if byte == 0x2a || byte == 0x2b {
        3
    } else {
        0
    }
}

/// The number of values that an operation puts on the stack.
pub open spec fn stack_outputs(byte: u8) -> int {
    if 0x01 <= byte <= 0x05 || 0x50 <= byte <= 0x53 || 0x60 <= byte <= 0x65 || byte == 0x32
        || 0x40 <= byte <= 0x43 || 0x28 <= byte <= 0x2f {
        1
    } else if byte == 0x34 {
        2
    } else {
        0
    }
}

/// The depth of the stack after the first `n` instructions, gone through in order.
pub open spec fn depth(p: Seq<Word>, n: nat) -> int
    decreases n,
{
    if n == 0 {
        0
    } else {
        depth(p, (n - 1) as nat) - stack_inputs(p[n - 1].0) + stack_outputs(p[n - 1].0)
    }
}

/// The lowest depth of the stack over the first `n` instructions, at most zero.
pub open spec fn lowest(p: Seq<Word>, n: nat) -> int
    decreases n,
{
    if n == 0 {
        0
    } else {
        let before = lowest(p, (n - 1) as nat);
        let here = depth(p, (n - 1) as nat) - stack_inputs(p[n - 1].0);
        if here < before {
            here
        } else {
            before
        }
    }
}

impl Bytecode {
    /// Validate the instruction sequence for basic correctness.
    ///
    /// Checks performed:
    /// - Every jump target operand points to a valid instruction index.
    /// - The program does not fall off the end (last instruction should be Halt or Return).
    /// - Stack effect is non-negative for the whole program (basic static check).
    pub fn validate(&self) -> (checked: core::result::Result<(), String>)
        requires
            encodable(words(self@)),
        ensures
            checked is Ok <==> complaint(words(self@)) is None,
            checked matches Err(message) ==> message@ == "validation error: "@ + complaint(
                words(self@),
            )->0,
    {
        let bytes = self.encode();
        assert(opcodes_known(words(self@))) by {
            assert forall|i: int| 0 <= i < words(self@).len() implies is_opcode(
                (#[trigger] words(self@)[i]).0,
            ) by {
                assert(self@[i].opcode.byte() == words(self@)[i].0);
            }
        }
        match isa_decode(bytes.as_slice()) {
            Some(program) => isa_validate(&program),
            None => vstd::pervasive::unreached(),
        }
    }
}

// ---------------------------------------------------------------------------
// Laws
// ---------------------------------------------------------------------------

/// Operands take eight bytes each and can be told from their bytes.
proof fn lemma_operand_bytes(a: Seq<u64>, b: Seq<u64>)
    ensures
        operand_bytes(a).len() == 8 * a.len(),
        a.len() == b.len() && operand_bytes(a) == operand_bytes(b) ==> a == b,
    decreases a.len(),
{
    vstd::bytes::lemma_auto_spec_u64_to_from_le_bytes();
    if a.len() > 0 {
        lemma_operand_bytes(a.drop_last(), a.drop_last());
        if a.len() == b.len() && operand_bytes(a) == operand_bytes(b) {
            lemma_operand_bytes(a.drop_last(), b.drop_last());
            lemma_operand_bytes(b.drop_last(), b.drop_last());
            let n = 8 * (a.len() - 1);
            let (x, y) = (
                vstd::bytes::spec_u64_to_le_bytes(a.last()),
                vstd::bytes::spec_u64_to_le_bytes(b.last()),
            );
            assert(operand_bytes(a).take(n) =~= operand_bytes(a.drop_last()));
            assert(operand_bytes(b).take(n) =~= operand_bytes(b.drop_last()));
            assert(operand_bytes(a).skip(n) =~= x);
            assert(operand_bytes(b).skip(n) =~= y);
            assert(a =~= a.drop_last().push(a.last()));
            assert(b =~= b.drop_last().push(b.last()));
        }
    } else {
        assert(a =~= Seq::empty());
        if b.len() == 0 {
            assert(b =~= Seq::empty());
        }
    }
}

/// The encoding begins with the first instruction.
proof fn lemma_encoding_front(p: Seq<Word>)
    requires
        p.len() > 0,
    ensures
        encoding(p) == word_bytes(p[0]) + encoding(p.skip(1)),
    decreases p.len(),
{
    if p.len() == 1 {
        assert(p.drop_last() =~= Seq::empty());
        assert(p.skip(1) =~= Seq::empty());
        assert(encoding(p) =~= word_bytes(p[0]) + encoding(p.skip(1)));
    } else {
        lemma_encoding_front(p.drop_last());
        assert(p.drop_last().skip(1) =~= p.skip(1).drop_last());
        assert(encoding(p) =~= word_bytes(p[0]) + encoding(p.skip(1)));
    }
}

/// The encoding is unambiguous: programs with the same bytes are the same.
pub proof fn law_encoding_is_unambiguous(p: Seq<Word>, q: Seq<Word>)
    requires
        encodable(p),
        encodable(q),
        encoding(p) == encoding(q),
    ensures
        p == q,
    decreases p.len(),
{
    if p.len() == 0 {
        if q.len() > 0 {
            lemma_encoding_front(q);
            assert(encoding(q).len() > 0);
        }
        assert(p =~= q);
    } else {
        lemma_encoding_front(p);
        if q.len() == 0 {
            assert(encoding(p).len() > 0);
        } else {
            lemma_encoding_front(q);
            let (bytes, v, w) = (encoding(p), p[0], q[0]);
            assert(bytes[0] == v.0 && bytes[1] == v.1.len() as u8);
            assert(bytes[0] == w.0 && bytes[1] == w.1.len() as u8);
            lemma_operand_bytes(v.1, w.1);
            lemma_operand_bytes(w.1, v.1);
            let n = 4 + 8 * v.1.len();
            assert(bytes.take(n as int) =~= word_bytes(v));
            assert(bytes.take(n as int) =~= word_bytes(w));
            assert(word_bytes(v).skip(4) =~= operand_bytes(v.1));
            assert(word_bytes(w).skip(4) =~= operand_bytes(w.1));
            assert(bytes.skip(n as int) =~= encoding(p.skip(1)));
            assert(bytes.skip(n as int) =~= encoding(q.skip(1)));
            law_encoding_is_unambiguous(p.skip(1), q.skip(1));
            assert(p =~= seq![p[0]] + p.skip(1));
            assert(q =~= seq![q[0]] + q.skip(1));
        }
    }
}

/// The bytes of the operations are those of the instruction set.
pub proof fn law_bytes_of_operations()
    ensures
        Opcode::Add.byte() == 0x01,
        Opcode::Sub.byte() == 0x02,
        Opcode::Mul.byte() == 0x03,
        Opcode::Div.byte() == 0x04,
        Opcode::Mod.byte() == 0x05,
        Opcode::Assert.byte() == 0x10,
        Opcode::Check.byte() == 0x11,
        Opcode::Validate.byte() == 0x12,
        Opcode::Reject.byte() == 0x13,
        Opcode::Jump.byte() == 0x20,
        Opcode::Branch.byte() == 0x21,
        Opcode::Call.byte() == 0x22,
        Opcode::Return.byte() == 0x23,
        Opcode::Halt.byte() == 0x24,
        Opcode::Load.byte() == 0x30,
        Opcode::Store.byte() == 0x31,
        Opcode::Push.byte() == 0x32,
        Opcode::Pop.byte() == 0x33,
        Opcode::Swap.byte() == 0x34,
        Opcode::Snap.byte() == 0x40,
        Opcode::Quantize.byte() == 0x41,
        Opcode::Cast.byte() == 0x42,
        Opcode::Promote.byte() == 0x43,
        Opcode::And.byte() == 0x50,
        Opcode::Or.byte() == 0x51,
        Opcode::Not.byte() == 0x52,
        Opcode::Xor.byte() == 0x53,
        Opcode::Eq.byte() == 0x60,
        Opcode::Neq.byte() == 0x61,
        Opcode::Lt.byte() == 0x62,
        Opcode::Gt.byte() == 0x63,
        Opcode::Lte.byte() == 0x64,
        Opcode::Gte.byte() == 0x65,
        Opcode::SatAdd.byte() == 0x28,
        Opcode::SatSub.byte() == 0x29,
        Opcode::Clip.byte() == 0x2a,
        Opcode::Mad.byte() == 0x2b,
        Opcode::Popcnt.byte() == 0x2c,
        Opcode::Ctz.byte() == 0x2d,
        Opcode::Pabs.byte() == 0x2e,
        Opcode::Pmin.byte() == 0x2f,
        Opcode::Nop.byte() == 0x70,
        Opcode::Debug.byte() == 0x71,
        Opcode::Trace.byte() == 0x72,
        Opcode::Dump.byte() == 0x73,
{
}

/// Operations are told apart by their bytes.
pub proof fn law_bytes_tell_operations_apart(a: Opcode, b: Opcode)
    ensures
        a.byte() == b.byte() ==> a == b,
{
}

/// To the machine an instruction is its operation and the bit patterns of its
/// operands, all of them and in order; labels and places make no difference.
pub proof fn law_what_the_machine_sees(code: Seq<InstructionView>, i: int, j: int)
    requires
        0 <= i < code.len(),
        0 <= j < code[i].operands.len(),
    ensures
        words(code).len() == code.len(),
        words(code)[i].0 == code[i].opcode.byte(),
        words(code)[i].1.len() == code[i].operands.len(),
        words(code)[i].1[j] == code[i].operands[j].0,
{
}

/// An instruction takes four bytes and eight for each operand: its operation, the
/// number of its operands, two bytes that are zero, and the operands in order, each
/// with its lowest byte first.
pub proof fn law_layout_of_an_instruction(w: Word, j: int)
    requires
        w.1.len() <= 255,
        0 <= j < w.1.len(),
    ensures
        word_bytes(w).len() == 4 + 8 * w.1.len(),
        word_bytes(w)[0] == w.0,
        word_bytes(w)[1] as int == w.1.len(),
        word_bytes(w)[2] == 0,
        word_bytes(w)[3] == 0,
        word_bytes(w).subrange(4 + 8 * j, 12 + 8 * j) == vstd::bytes::spec_u64_to_le_bytes(
            w.1[j],
        ),
{
    lemma_operand_bytes(w.1, w.1);
    lemma_operand_in_place(w.1, j);
    assert(word_bytes(w).subrange(4 + 8 * j, 12 + 8 * j) =~= operand_bytes(w.1).subrange(
        8 * j,
        8 * j + 8,
    ));
}

/// The bytes of an operand are where its number says.
proof fn lemma_operand_in_place(operands: Seq<u64>, j: int)
    requires
        0 <= j < operands.len(),
    ensures
        operand_bytes(operands).len() == 8 * operands.len(),
        operand_bytes(operands).subrange(8 * j, 8 * j + 8) == vstd::bytes::spec_u64_to_le_bytes(
            operands[j],
        ),
    decreases operands.len(),
{
    vstd::bytes::lemma_auto_spec_u64_to_from_le_bytes();
    lemma_operand_bytes(operands, operands);
    let front = operands.drop_last();
    lemma_operand_bytes(front, front);
    if j < front.len() {
        lemma_operand_in_place(front, j);
        assert(operand_bytes(operands).subrange(8 * j, 8 * j + 8) =~= operand_bytes(
            front,
        ).subrange(8 * j, 8 * j + 8));
        assert(front[j] == operands[j]);
    } else {
        assert(operand_bytes(operands).subrange(8 * j, 8 * j + 8)
            =~= vstd::bytes::spec_u64_to_le_bytes(operands[j]));
    }
}

/// A program is encoded instruction by instruction, the first one first, with
/// nothing before, between or after them.
pub proof fn law_instructions_are_encoded_in_order(p: Seq<Word>, q: Seq<Word>, w: Word)
    ensures
        encoding(Seq::empty()) == Seq::<u8>::empty(),
        encoding(seq![w]) == word_bytes(w),
        encoding(p + q) == encoding(p) + encoding(q),
    decreases q.len(),
{
    reveal_with_fuel(encoding, 2);
    assert(seq![w].drop_last() =~= Seq::empty());
    assert(encoding(seq![w]) =~= word_bytes(w));
    if q.len() == 0 {
        assert(p + q =~= p);
        assert(encoding(p) + encoding(q) =~= encoding(p));
    } else {
        law_instructions_are_encoded_in_order(p, q.drop_last(), w);
        assert((p + q).drop_last() =~= p + q.drop_last());
        assert(encoding(p + q) =~= encoding(p) + encoding(q));
    }
}

/// An instruction that is made without a label and a place has none, and has the
/// operation and the operands that it was given.
pub proof fn law_plain_instructions(opcode: Opcode, operands: Seq<Real>)
    ensures
        ({
            let inst = bare(opcode, operands);
            &&& inst.opcode == opcode
            &&& inst.operands == operands
            &&& inst.label is None
            &&& inst.source_location is None
        }),
{
}

/// A view shows bytecode as it is, with all its instructions.
pub proof fn law_view_of_bytecode(code: Bytecode, i: int)
    requires
        0 <= i < code.instructions@.len(),
    ensures
        code@.len() == code.instructions@.len(),
        ({
            let (inst, shown) = (code.instructions@[i], code@[i]);
            &&& shown.opcode == inst.opcode
            &&& shown.operands == inst.operands@
            &&& inst.metadata.label is None <==> shown.label is None
            &&& inst.metadata.label matches Some(s) ==> shown.label == Some(s@)
            &&& inst.metadata.source_location is None <==> shown.source_location is None
            &&& inst.metadata.source_location matches Some(s) ==> shown.source_location
                == Some(s@)
        }),
{
}

} // verus!
