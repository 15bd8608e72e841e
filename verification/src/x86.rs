use iced_x86::{Decoder, DecoderOptions, FlowControl, Formatter, IntelFormatter};
use vstd::prelude::*;

verus! {

/// What decoding one x86-64 instruction tells the analysis, as plain
/// values.
pub struct DecodedInstruction {
    /// Encoded length in bytes.
    pub length: usize,
    /// The bytes do not encode a valid instruction.
    pub invalid: bool,
    /// The decoder's name of the mnemonic (for example `Mov`).
    pub mnemonic: String,
    /// The instruction returns from the function.
    pub is_return: bool,
    /// The instruction is a near call.
    pub near_call: bool,
    /// The instruction is an indirect near call.
    pub indirect_near_call: bool,
    /// The number of operands.
    pub operand_count: u32,
    /// The target of a near branch, else 0.
    pub branch_target: u64,
    /// The memory operand is relative to the instruction pointer.
    pub ip_relative_memory: bool,
    /// The size in bytes of the memory displacement.
    pub displacement_size: u32,
}

/// The mathematical value of a [`DecodedInstruction`].
pub struct DecodedModel {
    pub length: usize,
    pub invalid: bool,
    pub mnemonic: Seq<char>,
    pub is_return: bool,
    pub near_call: bool,
    pub indirect_near_call: bool,
    pub operand_count: u32,
    pub branch_target: u64,
    pub ip_relative_memory: bool,
    pub displacement_size: u32,
}

impl View for DecodedInstruction {
    type V = DecodedModel;

    open spec fn view(&self) -> DecodedModel {
        DecodedModel {
            length: self.length,
            invalid: self.invalid,
            mnemonic: self.mnemonic@,
            is_return: self.is_return,
            near_call: self.near_call,
            indirect_near_call: self.indirect_near_call,
            operand_count: self.operand_count,
            branch_target: self.branch_target,
            ip_relative_memory: self.ip_relative_memory,
            displacement_size: self.displacement_size,
        }
    }
}

/// What decoding tells of one operand, as plain values.
pub struct DecodedOperand {
    /// The decoder's name of the operand kind (for example `Register`).
    pub kind: String,
    /// The immediate value, for an immediate operand.
    pub immediate: Option<u64>,
    /// The decoder's name of the register (for example `RAX`).
    pub register: String,
}

/// The mathematical value of a [`DecodedOperand`].
pub struct OperandModel {
    pub kind: Seq<char>,
    pub immediate: Option<u64>,
    pub register: Seq<char>,
}

impl View for DecodedOperand {
    type V = OperandModel;

    open spec fn view(&self) -> OperandModel {
        OperandModel { kind: self.kind@, immediate: self.immediate, register: self.register@ }
    }
}

/// What iced-x86 decodes from `code` in 64-bit mode at address `ip`.
pub uninterp spec fn x86_decode(code: Seq<u8>, ip: u64) -> DecodedModel;

/// What iced-x86 reports of operand `operand` of the instruction it decodes
/// from `code` in 64-bit mode at address `ip`.
pub uninterp spec fn x86_operand(code: Seq<u8>, ip: u64, operand: u32) -> OperandModel;

/// The Intel-syntax text that iced-x86 gives for the instruction it decodes
/// from `code` in 64-bit mode at address `ip`.
pub uninterp spec fn x86_intel_text(code: Seq<u8>, ip: u64) -> Seq<char>;

/// Decodes the instruction at `offset` of `code` in 64-bit mode at address
/// `ip` with iced-x86 (`Decoder::with_ip`, `Decoder::decode`) and reads its
/// length, validity, mnemonic name (`Debug` of `Mnemonic`), return flow
/// (`flow_control() == FlowControl::Return`), near-call kind, operand count,
/// near-branch target, IP-relative memory flag and displacement size.
///
/// The contract names the result `x86_decode` of the bytes from `offset` and
/// `ip`, and states the two bounds that iced-x86 documents: an instruction
/// has at most 5 operands and at most 15 bytes.
#[verifier::external_body]
pub(crate) fn decode_instruction(code: &[u8], offset: usize, ip: u64) -> (r: DecodedInstruction)
    requires
        offset <= code@.len(),
    ensures
        r@ == x86_decode(code@.skip(offset as int), ip),
        r.operand_count <= 5,
        r.length <= 15,
{
    let insn = Decoder::with_ip(64, &code[offset..], ip, DecoderOptions::NONE).decode();
    DecodedInstruction {
        length: insn.len(),
        invalid: insn.is_invalid(),
        mnemonic: format!("{:?}", insn.mnemonic()),
        is_return: insn.flow_control() == FlowControl::Return,
        near_call: insn.is_call_near(),
        indirect_near_call: insn.is_call_near_indirect(),
        operand_count: insn.op_count(),
        branch_target: insn.near_branch_target(),
        ip_relative_memory: insn.is_ip_rel_memory_operand(),
        displacement_size: insn.memory_displ_size(),
    }
}

/// Decodes the instruction at `offset` of `code` like [`decode_instruction`]
/// and reads operand `operand`: its kind name (`Debug` of `OpKind`), its
/// immediate value (`Instruction::try_immediate`, `None` for an operand that
/// is not an immediate) and its register name (`Debug` of `Register`).
///
/// The contract names the result `x86_operand`; nothing more is stated.
#[verifier::external_body]
pub(crate) fn decode_operand(code: &[u8], offset: usize, ip: u64, operand: u32) -> (r: DecodedOperand)
    requires
        offset <= code@.len(),
        operand < 5,
    ensures
        r@ == x86_operand(code@.skip(offset as int), ip, operand),
{
    let insn = Decoder::with_ip(64, &code[offset..], ip, DecoderOptions::NONE).decode();
    DecodedOperand {
        kind: format!("{:?}", insn.op_kind(operand)),
        immediate: insn.try_immediate(operand).ok(),
        register: format!("{:?}", insn.op_register(operand)),
    }
}

/// Decodes the instruction at `offset` of `code` like [`decode_instruction`]
/// and formats it in Intel syntax with iced-x86's `IntelFormatter` (default
/// options).
///
/// The contract names the result `x86_intel_text`; nothing more is stated.
#[verifier::external_body]
pub(crate) fn format_instruction(code: &[u8], offset: usize, ip: u64) -> (r: String)
    requires
        offset <= code@.len(),
    ensures
        r@ == x86_intel_text(code@.skip(offset as int), ip),
{
    let insn = Decoder::with_ip(64, &code[offset..], ip, DecoderOptions::NONE).decode();
    let mut text = String::new();
    IntelFormatter::new().format(&insn, &mut text);
    text
}

} // verus!
