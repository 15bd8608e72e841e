use crate::error::{result_view, Error, ErrorModel};
use crate::pe::{
    is_near_branch_kind, near_branch_kind, BasicBlock, BlockModel, Function, FunctionModel,
    FunctionSource, ImageModel, PeImage,
};
use crate::text::{
    ascii_lowercase, concat, decimal, decimal_string, digit_char, digits, hex, hex_string, lower, starts_with_char,
    text_is,
};
use crate::x86::{
    decode_instruction, decode_operand, format_instruction, x86_decode, x86_intel_text, x86_operand,
    DecodedInstruction, DecodedModel, DecodedOperand, OperandModel,
};
use crate::input::{hex_digit, hex_value};
use vstd::prelude::*;

verus! {

/// A decoded x86-64 instruction.
#[derive(Debug)]
pub struct Instruction {
    /// Instruction virtual address.
    pub address: u64,
    /// Instruction byte length.
    pub length: u8,
    /// Intel syntax text.
    pub text: String,
    /// Normalized instruction data.
    pub normalized: NormalizedInstruction,
    /// Near-branch target, for an instruction with a near-branch operand.
    pub branch_target: Option<u64>,
}

/// A stable representation of an instruction.
#[derive(Debug, Eq, PartialEq, Hash)]
pub struct NormalizedInstruction {
    /// Mnemonic name.
    pub mnemonic: String,
    /// Normalized operands.
    pub operands: Vec<String>,
}

/// The mathematical value of a [`NormalizedInstruction`].
pub struct NormalizedModel {
    pub mnemonic: Seq<char>,
    pub operands: Seq<Seq<char>>,
}

/// The mathematical value of an [`Instruction`].
pub struct InstructionModel {
    pub address: u64,
    pub length: u8,
    pub text: Seq<char>,
    pub normalized: NormalizedModel,
    pub branch_target: Option<u64>,
}

impl View for NormalizedInstruction {
    type V = NormalizedModel;

    open spec fn view(&self) -> NormalizedModel {
        NormalizedModel {
            mnemonic: self.mnemonic@,
            operands: self.operands@.map_values(|o: String| o@),
        }
    }
}

impl View for Instruction {
    type V = InstructionModel;

    open spec fn view(&self) -> InstructionModel {
        InstructionModel {
            address: self.address,
            length: self.length,
            text: self.text@,
            normalized: self.normalized@,
            branch_target: self.branch_target,
        }
    }
}

impl Clone for NormalizedInstruction {
    fn clone(&self) -> (r: Self)
        ensures
            r@ == self@,
    {
        let operands = self.operands.clone();
        proof {
            assert(operands@.map_values(|o: String| o@) =~= self.operands@.map_values(
                |o: String| o@,
            ));
        }
        NormalizedInstruction { mnemonic: self.mnemonic.clone(), operands }
    }
}

impl Clone for Instruction {
    fn clone(&self) -> (r: Self)
        ensures
            r@ == self@,
    {
        Instruction {
            address: self.address,
            length: self.length,
            text: self.text.clone(),
            normalized: self.normalized.clone(),
            branch_target: self.branch_target,
        }
    }
}


/// The decoder's name of an operand kind is one of the immediate kinds.
pub open spec fn is_immediate_kind(kind: Seq<char>) -> bool {
    ||| kind == "Immediate8"@
    ||| kind == "Immediate8_2nd"@
    ||| kind == "Immediate16"@
    ||| kind == "Immediate32"@
    ||| kind == "Immediate64"@
    ||| kind == "Immediate8to16"@
    ||| kind == "Immediate8to32"@
    ||| kind == "Immediate8to64"@
    ||| kind == "Immediate32to64"@
}

/// `a + b`, saturating at `u64::MAX`.
pub open spec fn saturating_add_u64(a: u64, b: u64) -> u64 {
    if a + b > u64::MAX {
        u64::MAX
    } else {
        (a + b) as u64
    }
}

/// The normalized text of an operand: branch targets become `local` or
/// `external` to the function, IP-relative memory becomes `ripmem:` and its
/// displacement size, immediates that are addresses in the image become
/// `image-address` and other immediates `scalar:` and their hexadecimal
/// value, registers `reg:` and their name; any other operand its kind name.
/// Names are in lower case.
pub open spec fn normalized_operand(
    img: ImageModel,
    function_start: u64,
    function_end_rva: u32,
    d: DecodedModel,
    op: OperandModel,
) -> Seq<char> {
    if is_near_branch_kind(op.kind) {
        let end_va = saturating_add_u64(img.image_base, function_end_rva as u64);
        if d.branch_target >= function_start && d.branch_target < end_va {
            "local"@
        } else {
            "external"@
        }
    } else if d.ip_relative_memory && op.kind == "Memory"@ {
        "ripmem:"@ + decimal(d.displacement_size as nat)
    } else if is_immediate_kind(op.kind) {
        let value = match op.immediate {
            Some(v) => v,
            None => 0,
        };
        if img.rva_of(value) is Ok {
            "image-address"@
        } else {
            "scalar:"@ + hex(value as nat)
        }
    } else if op.kind == "Register"@ {
        lower("reg:"@ + op.register)
    } else {
        lower(op.kind)
    }
}

/// The near-branch target of a decoded instruction lies inside the function
/// that starts at `function_start` and ends at `function_end_rva`.
pub open spec fn branch_is_local(img: ImageModel, function_start: u64, function_end_rva: u32, d: DecodedModel) -> bool {
    d.branch_target >= function_start && d.branch_target < saturating_add_u64(
        img.image_base,
        function_end_rva as u64,
    )
}

/// The value of an immediate operand (0 when the decoder reports none).
pub open spec fn immediate_value(op: OperandModel) -> u64 {
    match op.immediate {
        Some(v) => v,
        None => 0,
    }
}

/// Two operands differ at most in what a relocation changes: they have the
/// same kind and register; their instructions' branch targets are both
/// inside or both outside their functions; their IP-relative memory flags
/// and displacement sizes agree; and their immediates are both addresses
/// in their images, or else equal values.
pub open spec fn same_up_to_relocation(
    img1: ImageModel,
    start1: u64,
    end1: u32,
    d1: DecodedModel,
    op1: OperandModel,
    img2: ImageModel,
    start2: u64,
    end2: u32,
    d2: DecodedModel,
    op2: OperandModel,
) -> bool {
    &&& op1.kind == op2.kind
    &&& op1.register == op2.register
    &&& branch_is_local(img1, start1, end1, d1) == branch_is_local(img2, start2, end2, d2)
    &&& d1.ip_relative_memory == d2.ip_relative_memory
    &&& d1.displacement_size == d2.displacement_size
    &&& img1.rva_of(immediate_value(op1)) is Ok == img2.rva_of(immediate_value(op2)) is Ok
    &&& img1.rva_of(immediate_value(op1)) is Err ==> immediate_value(op1) == immediate_value(op2)
}

/// Normalization forgets what a relocation changes: two operands that
/// differ at most in that, in instructions that may sit at other addresses,
/// in other images and in other functions, normalize alike. Branch targets,
/// memory displacements and image addresses never enter the normalized
/// form.
pub proof fn lemma_normalization_ignores_relocation(
    img1: ImageModel,
    start1: u64,
    end1: u32,
    d1: DecodedModel,
    op1: OperandModel,
    img2: ImageModel,
    start2: u64,
    end2: u32,
    d2: DecodedModel,
    op2: OperandModel,
)
    requires
        same_up_to_relocation(img1, start1, end1, d1, op1, img2, start2, end2, d2, op2),
    ensures
        normalized_operand(img1, start1, end1, d1, op1) == normalized_operand(img2, start2, end2, d2, op2),
{
}

/// The normalized form of the instruction decoded at `offset` of `code` at
/// address `ip`, in a function that starts at `function_start` and ends at
/// `function_end_rva`.
pub open spec fn normalized_at(
    img: ImageModel,
    code: Seq<u8>,
    offset: nat,
    ip: u64,
    function_start: u64,
    function_end_rva: u32,
) -> NormalizedModel {
    let d = x86_decode(code.skip(offset as int), ip);
    NormalizedModel {
        mnemonic: lower(d.mnemonic),
        operands: Seq::new(
            d.operand_count as nat,
            |k: int|
                normalized_operand(
                    img,
                    function_start,
                    function_end_rva,
                    d,
                    x86_operand(code.skip(offset as int), ip, k as u32),
                ),
        ),
    }
}

/// Some operand of the instruction decoded at `offset` of `code` at
/// address `ip` is a near branch.
pub open spec fn has_near_branch(code: Seq<u8>, offset: nat, ip: u64) -> bool {
    let d = x86_decode(code.skip(offset as int), ip);
    exists|i: u32|
        i < d.operand_count && #[trigger] is_near_branch_kind(
            x86_operand(code.skip(offset as int), ip, i).kind,
        )
}

/// Normalizes one operand of a decoded instruction.
fn normalize_operand(
    image: &PeImage,
    function_start: u64,
    function_end_rva: u32,
    d: &DecodedInstruction,
    op: &DecodedOperand,
) -> (r: String)
    ensures
        r@ == normalized_operand(image@, function_start, function_end_rva, d@, op@),
{
    if near_branch_kind(&op.kind) {
        let end_va = image.image_base().saturating_add(function_end_rva as u64);
        if d.branch_target >= function_start && d.branch_target < end_va {
            String::from_str("local")
        } else {
            String::from_str("external")
        }
    } else if d.ip_relative_memory && text_is(&op.kind, "Memory") {
        concat("ripmem:", decimal_string(d.displacement_size as u64).as_str())
    } else if immediate_kind(&op.kind) {
        let value = match op.immediate {
            Some(v) => v,
            None => 0,
        };
        if image.va_to_rva(value).is_ok() {
            String::from_str("image-address")
        } else {
            concat("scalar:", hex_string(value).as_str())
        }
    } else if text_is(&op.kind, "Register") {
        ascii_lowercase(concat("reg:", op.register.as_str()).as_str())
    } else {
        ascii_lowercase(op.kind.as_str())
    }
}

/// Whether the operand kind named `kind` is an immediate.
fn immediate_kind(kind: &String) -> (r: bool)
    ensures
        r == is_immediate_kind(kind@),
{
    text_is(kind, "Immediate8") || text_is(kind, "Immediate8_2nd") || text_is(kind, "Immediate16")
        || text_is(kind, "Immediate32") || text_is(kind, "Immediate64") || text_is(
        kind,
        "Immediate8to16",
    ) || text_is(kind, "Immediate8to32") || text_is(kind, "Immediate8to64") || text_is(
        kind,
        "Immediate32to64",
    )
}

/// Normalizes the instruction decoded at `offset` of `code` at address `ip`:
/// its mnemonic in lower case and its operands normalized.
fn normalize(
    image: &PeImage,
    code: &[u8],
    offset: usize,
    ip: u64,
    function_start: u64,
    function_end_rva: u32,
    d: &DecodedInstruction,
) -> (r: (NormalizedInstruction, bool))
    requires
        offset <= code@.len(),
        d@ == x86_decode(code@.skip(offset as int), ip),
        d.operand_count <= 5,
    ensures
        r.0@ == normalized_at(image@, code@, offset as nat, ip, function_start, function_end_rva),
        r.1 == has_near_branch(code@, offset as nat, ip),
{
    let mnemonic = ascii_lowercase(d.mnemonic.as_str());
    let mut operands: Vec<String> = Vec::new();
    let mut branch = false;
    let mut k: u32 = 0;
    while k < d.operand_count
        invariant
            branch == exists|i: u32| i < k && #[trigger] is_near_branch_kind(
                x86_operand(code@.skip(offset as int), ip, i).kind,
            ),
            k <= d.operand_count <= 5,
            offset <= code@.len(),
            d@ == x86_decode(code@.skip(offset as int), ip),
            operands@.len() == k,
            forall|i: int|
                0 <= i < k ==> (#[trigger] operands@[i])@ == normalized_operand(
                    image@,
                    function_start,
                    function_end_rva,
                    d@,
                    x86_operand(code@.skip(offset as int), ip, i as u32),
                ),
        decreases d.operand_count - k,
    {
        let op = decode_operand(code, offset, ip, k);
        if near_branch_kind(&op.kind) {
            branch = true;
        }
        operands.push(normalize_operand(image, function_start, function_end_rva, d, &op));
        proof {
            assert(branch == exists|i: u32| i < k + 1 && #[trigger] is_near_branch_kind(
                x86_operand(code@.skip(offset as int), ip, i).kind,
            )) by {
                if branch {
                    if !is_near_branch_kind(op.kind@) {
                        let i = choose|i: u32| i < k && #[trigger] is_near_branch_kind(
                            x86_operand(code@.skip(offset as int), ip, i).kind,
                        );
                    }
                }
            }
        }
        k = k + 1;
    }
    let r = NormalizedInstruction { mnemonic, operands };
    proof {
        assert(r@.operands =~= normalized_at(
            image@,
            code@,
            offset as nat,
            ip,
            function_start,
            function_end_rva,
        ).operands);
    }
    (r, branch)
}


/// The offsets of the instructions decoded from `consumed` of `code`
/// (whose first byte is at address `ip`), `count` instructions having been
/// decoded before: decoding goes on to the end of the code, to a return,
/// or to 100000 instructions; the error is the offset of bytes that do not
/// decode as a whole instruction inside the code.
pub open spec fn instruction_offsets(code: Seq<u8>, ip: u64, consumed: nat, count: nat) -> Result<
    Seq<nat>,
    nat,
>
    decreases code.len() - consumed,
{
    if consumed >= code.len() || count >= 100_000 {
        Ok(seq![])
    } else {
        let d = x86_decode(code.skip(consumed as int), ip.wrapping_add(consumed as u64));
        if d.invalid || d.length == 0 || consumed + d.length > code.len() {
            Err(consumed)
        } else if d.is_return {
            Ok(seq![consumed])
        } else {
            match instruction_offsets(code, ip, (consumed + d.length) as nat, count + 1) {
                Ok(rest) => Ok(seq![consumed] + rest),
                Err(e) => Err(e),
            }
        }
    }
}

/// `prefix` followed by the offsets of `r`.
pub open spec fn prepend_offsets(prefix: Seq<nat>, r: Result<Seq<nat>, nat>) -> Result<Seq<nat>, nat> {
    match r {
        Ok(s) => Ok(prefix + s),
        Err(e) => Err(e),
    }
}

/// The instruction decoded at `offset` of the code of a function that
/// starts at address `start_va` and ends at `end_rva`.
pub open spec fn instruction_at(
    img: ImageModel,
    code: Seq<u8>,
    start_va: u64,
    end_rva: u32,
    offset: nat,
) -> InstructionModel {
    let ip = start_va.wrapping_add(offset as u64);
    InstructionModel {
        address: ip,
        length: x86_decode(code.skip(offset as int), ip).length as u8,
        text: x86_intel_text(code.skip(offset as int), ip),
        normalized: normalized_at(img, code, offset, ip, start_va, end_rva),
        branch_target: if has_near_branch(code, offset, ip) {
            Some(x86_decode(code.skip(offset as int), ip).branch_target)
        } else {
            None
        },
    }
}

/// The mnemonic is a branch (it starts with `j`).
pub open spec fn is_jump(m: Seq<char>) -> bool {
    m.len() > 0 && m[0] == 'j'
}

/// The mnemonic is a conditional branch.
pub open spec fn is_conditional(m: Seq<char>) -> bool {
    is_jump(m) && m != "jmp"@
}

/// The mnemonic is a return.
pub open spec fn is_return(m: Seq<char>) -> bool {
    m == "ret"@ || m == "retn"@ || m == "retf"@
}

/// The mnemonic is a call.
pub open spec fn is_call(m: Seq<char>) -> bool {
    m == "call"@
}

/// The number of the first `k` instructions whose mnemonic satisfies `p`.
pub open spec fn count_mnemonics(
    ins: Seq<InstructionModel>,
    p: spec_fn(Seq<char>) -> bool,
    k: nat,
) -> nat
    decreases k,
{
    if k == 0 || k > ins.len() {
        0
    } else {
        count_mnemonics(ins, p, (k - 1) as nat) + if p(ins[k - 1].normalized.mnemonic) {
            1nat
        } else {
            0nat
        }
    }
}

/// The block leaders among the first `k` instructions: instruction 0, and
/// each instruction that follows a branch.
pub open spec fn leaders_upto(ins: Seq<InstructionModel>, k: nat) -> Seq<int>
    decreases k,
{
    if k == 0 {
        seq![0]
    } else {
        leaders_upto(ins, (k - 1) as nat) + if is_jump(ins[k - 1].normalized.mnemonic) && k
            < ins.len() {
            seq![k as int]
        } else {
            seq![]
        }
    }
}

/// The block leaders of the instructions.
pub open spec fn leaders(ins: Seq<InstructionModel>) -> Seq<int> {
    leaders_upto(ins, ins.len())
}

/// Basic block `b` of the instructions: the instructions from leader `b` up
/// to the next leader (or the end), followed by block `b + 1` when it is not
/// the last.
pub open spec fn block_at(ins: Seq<InstructionModel>, b: int) -> BlockModel {
    let l = leaders(ins);
    let end = if b + 1 < l.len() {
        l[b + 1]
    } else {
        ins.len() as int
    };
    BlockModel {
        instructions: Seq::new((end - l[b]) as nat, |i: int| (l[b] + i) as usize),
        successors: if end < ins.len() {
            seq![(b + 1) as usize]
        } else {
            seq![]
        },
    }
}

/// The basic blocks of the instructions.
pub open spec fn spec_blocks(ins: Seq<InstructionModel>) -> Seq<BlockModel> {
    Seq::new(leaders(ins).len(), |b: int| block_at(ins, b))
}

/// The function decoded from `code`, the bytes of the range from `start` to
/// `end` of the image: its instructions, blocks and counts, or the error.
pub open spec fn spec_decode_function(
    img: ImageModel,
    start: u32,
    end: u32,
    source: FunctionSource,
    code: Seq<u8>,
) -> Result<FunctionModel, ErrorModel> {
    match img.va_at(start) {
        Err(e) => Err(e),
        Ok(start_va) => match instruction_offsets(code, start_va, 0, 0) {
            Err(c) => Err(ErrorModel::Decode(start_va.wrapping_add(c as u64))),
            Ok(offsets) => if offsets.len() == 0 {
                Err(ErrorModel::Decode(start_va))
            } else {
                let ins = offsets.map_values(|o: nat| instruction_at(img, code, start_va, end, o));
                Ok(
                    FunctionModel {
                        address: start_va,
                        rva: start,
                        byte_size: (end - start) as u32,
                        source,
                        instructions: ins,
                        blocks: spec_blocks(ins),
                        call_count: count_mnemonics(ins, |m: Seq<char>| is_call(m), ins.len()) as usize,
                        conditional_branch_count: count_mnemonics(
                            ins,
                            |m: Seq<char>| is_conditional(m),
                            ins.len(),
                        ) as usize,
                        return_count: count_mnemonics(ins, |m: Seq<char>| is_return(m), ins.len())
                            as usize,
                    },
                )
            },
        },
    }
}


/// The instructions follow each other without gaps from `start`: the
/// first is at `start`, and each next one at the address after the
/// previous one; there is at least one and at most 100000.
pub open spec fn contiguous_from(ins: Seq<InstructionModel>, start: u64) -> bool {
    &&& 1 <= ins.len() <= 100_000
    &&& ins[0].address == start
    &&& forall|k: int|
        0 <= k < ins.len() - 1 ==> (#[trigger] ins[k + 1]).address == ins[k].address.wrapping_add(
            ins[k].length as u64,
        )
}

/// Adding `c` then `l` with wrap-around adds `c + l` with wrap-around.
proof fn lemma_wrapping_add_twice(a: u64, c: u64, l: u64)
    requires
        c + l <= u64::MAX,
    ensures
        a.wrapping_add(c).wrapping_add(l) == a.wrapping_add((c + l) as u64),
{
}

/// Finds the block of instruction `x`, searching from block `b`.
proof fn lemma_block_of(ins: Seq<InstructionModel>, x: int, b: int)
    requires
        0 <= x < ins.len(),
        0 <= b < leaders(ins).len(),
        leaders(ins)[b] <= x,
    ensures
        exists|c: int|
            0 <= c < spec_blocks(ins).len() && (#[trigger] spec_blocks(ins)[c]).instructions.contains(
                x as usize,
            ),
    decreases leaders(ins).len() - b,
{
    let l = leaders(ins);
    if b + 1 < l.len() && l[b + 1] <= x {
        lemma_block_of(ins, x, b + 1);
    } else {
        let blk = spec_blocks(ins)[b];
        assert(blk == block_at(ins, b));
        assert(blk.instructions[x - l[b]] == x as usize);
    }
}

/// Some basic block holds instruction `x`.
pub open spec fn in_some_block(ins: Seq<InstructionModel>, x: usize) -> bool {
    exists|b: int|
        0 <= b < spec_blocks(ins).len() && (#[trigger] spec_blocks(ins)[b]).instructions.contains(x)
}

/// Every instruction belongs to exactly one basic block; each block but the
/// last falls through to the next, and the last has no successor.
pub proof fn lemma_blocks_partition(ins: Seq<InstructionModel>)
    requires
        ins.len() <= usize::MAX,
    ensures
        forall|x: usize| x < ins.len() ==> #[trigger] in_some_block(ins, x),
        forall|x: usize, b1: int, b2: int|
            0 <= b1 < spec_blocks(ins).len() && 0 <= b2 < spec_blocks(ins).len()
                && #[trigger] spec_blocks(ins)[b1].instructions.contains(x)
                && #[trigger] spec_blocks(ins)[b2].instructions.contains(x) ==> b1 == b2,
        forall|b: int|
            0 <= b < spec_blocks(ins).len() ==> (#[trigger] spec_blocks(ins)[b]).successors == if b + 1
                < spec_blocks(ins).len() {
                seq![(b + 1) as usize]
            } else {
                Seq::<usize>::empty()
            },
{
    let l = leaders(ins);
    lemma_leaders(ins, ins.len());
    assert forall|x: usize| x < ins.len() implies #[trigger] in_some_block(ins, x) by {
        lemma_block_of(ins, x as int, 0);
    }
    assert forall|x: usize, b1: int, b2: int|
        0 <= b1 < spec_blocks(ins).len() && 0 <= b2 < spec_blocks(ins).len()
            && #[trigger] spec_blocks(ins)[b1].instructions.contains(x)
            && #[trigger] spec_blocks(ins)[b2].instructions.contains(x) implies b1 == b2 by {
        let i1 = spec_blocks(ins)[b1].instructions;
        let i2 = spec_blocks(ins)[b2].instructions;
        let k1 = choose|k: int| 0 <= k < i1.len() && #[trigger] i1[k] == x;
        let k2 = choose|k: int| 0 <= k < i2.len() && #[trigger] i2[k] == x;
        assert(spec_blocks(ins)[b1] == block_at(ins, b1));
        assert(spec_blocks(ins)[b2] == block_at(ins, b2));
        if b1 < b2 {
            assert(l[b1 + 1] <= l[b2]) by {
                if b1 + 1 < b2 {
                    assert(l[b1 + 1] < l[b2]);
                }
            }
        } else if b2 < b1 {
            assert(l[b2 + 1] <= l[b1]) by {
                if b2 + 1 < b1 {
                    assert(l[b2 + 1] < l[b1]);
                }
            }
        }
    }
    assert forall|b: int| 0 <= b < spec_blocks(ins).len() implies (#[trigger] spec_blocks(ins)[b]).successors
        == if b + 1 < spec_blocks(ins).len() {
        seq![(b + 1) as usize]
    } else {
        Seq::<usize>::empty()
    } by {
        assert(spec_blocks(ins)[b] == block_at(ins, b));
    }
}

/// The leaders start at instruction 0, strictly increase, and lie among
/// the instructions.
proof fn lemma_leaders(ins: Seq<InstructionModel>, k: nat)
    ensures
        leaders_upto(ins, k).len() >= 1,
        leaders_upto(ins, k)[0] == 0,
        forall|i: int, j: int|
            0 <= i < j < leaders_upto(ins, k).len() ==> leaders_upto(ins, k)[i] < leaders_upto(
                ins,
                k,
            )[j],
        forall|i: int| 0 <= i < leaders_upto(ins, k).len() ==> leaders_upto(ins, k)[i] <= k,
        forall|i: int| 0 < i < leaders_upto(ins, k).len() ==> leaders_upto(ins, k)[i] < ins.len(),
    decreases k,
{
    if k > 0 {
        lemma_leaders(ins, (k - 1) as nat);
    }
}

/// Splits the instructions into basic blocks at branches.
fn recover_blocks(instructions: &Vec<Instruction>) -> (r: Vec<BasicBlock>)
    ensures
        r@.map_values(|b: BasicBlock| b@) == spec_blocks(
            instructions@.map_values(|i: Instruction| i@),
        ),
{
    let ghost ins = instructions@.map_values(|i: Instruction| i@);
    let n = instructions.len();
    let mut heads: Vec<usize> = Vec::new();
    heads.push(0);
    let mut index: usize = 0;
    while index < n
        invariant
            n == instructions@.len(),
            ins == instructions@.map_values(|i: Instruction| i@),
            index <= n,
            heads@.len() == leaders_upto(ins, index as nat).len(),
            forall|i: int|
                0 <= i < heads@.len() ==> #[trigger] heads@[i] as int == leaders_upto(
                    ins,
                    index as nat,
                )[i],
        decreases n - index,
    {
        if starts_with_char(&instructions[index].normalized.mnemonic, 'j') && index + 1 < n {
            heads.push(index + 1);
        }
        index = index + 1;
    }
    proof {
        lemma_leaders(ins, n as nat);
    }
    let ghost l = leaders(ins);
    let mut blocks: Vec<BasicBlock> = Vec::new();
    let mut b: usize = 0;
    while b < heads.len()
        invariant
            n == instructions@.len(),
            ins == instructions@.map_values(|i: Instruction| i@),
            l == leaders(ins),
            forall|i: int, j: int| 0 <= i < j < l.len() ==> l[i] < l[j],
            forall|i: int| 0 < i < l.len() ==> l[i] < n,
            l.len() >= 1,
            l[0] == 0,
            heads@.len() == l.len(),
            forall|i: int| 0 <= i < heads@.len() ==> #[trigger] heads@[i] as int == l[i],
            b <= heads@.len(),
            blocks@.len() == b,
            forall|i: int| 0 <= i < b ==> (#[trigger] blocks@[i])@ == block_at(ins, i),
        decreases heads@.len() - b,
    {
        let start = heads[b];
        let end = if b + 1 < heads.len() {
            heads[b + 1]
        } else {
            n
        };
        assert(start <= end) by {
            if b + 1 < heads@.len() {
                assert(l[b as int] < l[b + 1]);
            } else if b > 0 {
                assert(l[b as int] < n);
            }
        }
        let mut members: Vec<usize> = Vec::new();
        let mut i = start;
        while i < end
            invariant
                start <= i <= end,
                members@.len() == i - start,
                forall|k: int| 0 <= k < members@.len() ==> #[trigger] members@[k] == start + k,
            decreases end - i,
        {
            members.push(i);
            i = i + 1;
        }
        let mut successors: Vec<usize> = Vec::new();
        if end < n {
            successors.push(b + 1);
        }
        let block = BasicBlock { instructions: members, successors };
        proof {
            assert(block@.instructions =~= block_at(ins, b as int).instructions);
            assert(block@.successors =~= block_at(ins, b as int).successors);
        }
        blocks.push(block);
        b = b + 1;
    }
    proof {
        assert(blocks@.map_values(|b: BasicBlock| b@) =~= spec_blocks(ins));
    }
    blocks
}

/// The number of instructions whose mnemonic is `call`, a conditional
/// branch, and a return.
fn count_kinds(instructions: &Vec<Instruction>) -> (r: (usize, usize, usize))
    ensures
        r.0 == count_mnemonics(
            instructions@.map_values(|i: Instruction| i@),
            |m: Seq<char>| is_call(m),
            instructions@.len(),
        ),
        r.1 == count_mnemonics(
            instructions@.map_values(|i: Instruction| i@),
            |m: Seq<char>| is_conditional(m),
            instructions@.len(),
        ),
        r.2 == count_mnemonics(
            instructions@.map_values(|i: Instruction| i@),
            |m: Seq<char>| is_return(m),
            instructions@.len(),
        ),
{
    let ghost ins = instructions@.map_values(|i: Instruction| i@);
    let mut calls: usize = 0;
    let mut conditionals: usize = 0;
    let mut return_total: usize = 0;
    let mut i: usize = 0;
    while i < instructions.len()
        invariant
            ins == instructions@.map_values(|i: Instruction| i@),
            i <= instructions@.len(),
            calls == count_mnemonics(ins, |m: Seq<char>| is_call(m), i as nat),
            conditionals == count_mnemonics(ins, |m: Seq<char>| is_conditional(m), i as nat),
            return_total == count_mnemonics(ins, |m: Seq<char>| is_return(m), i as nat),
            calls <= i,
            conditionals <= i,
            return_total <= i,
        decreases instructions@.len() - i,
    {
        let m = &instructions[i].normalized.mnemonic;
        if text_is(m, "call") {
            calls = calls + 1;
        }
        if starts_with_char(m, 'j') && !text_is(m, "jmp") {
            conditionals = conditionals + 1;
        }
        if text_is(m, "ret") || text_is(m, "retn") || text_is(m, "retf") {
            return_total = return_total + 1;
        }
        i = i + 1;
    }
    (calls, conditionals, return_total)
}

/// Decodes the function whose bytes `bytes` span the RVAs from `start` to
/// `end` of `image`: its instructions up to the end of the range, a
/// return, or 100000 instructions, with their basic blocks and counts.
pub fn decode_function(
    image: &PeImage,
    start: u32,
    end: u32,
    source: FunctionSource,
    bytes: &[u8],
) -> (r: Result<Function, Error>)
    requires
        start < end,
    ensures
        match spec_decode_function(image@, start, end, source, bytes@) {
            Ok(m) => r matches Ok(f) && f@ == m,
            Err(e) => r matches Err(x) && x@ == e,
        },
        r matches Ok(f) ==> contiguous_from(f@.instructions, f@.address),
{
    let start_va = match image.rva_to_va(start) {
        Ok(v) => v,
        Err(e) => return Err(e),
    };
    let limit = bytes.len();
    let mut instructions: Vec<Instruction> = Vec::new();
    let mut consumed: usize = 0;
    let ghost mut offsets: Seq<nat> = seq![];
    while consumed < limit && instructions.len() < 100_000
        invariant_except_break
            limit == bytes@.len(),
            consumed <= limit,
            image@.va_at(start) == Ok::<u64, ErrorModel>(start_va),
            offsets.len() == instructions@.len(),
            instructions@.len() <= 100_000,
            instruction_offsets(bytes@, start_va, 0, 0) == prepend_offsets(
                offsets,
                instruction_offsets(bytes@, start_va, consumed as nat, instructions@.len() as nat),
            ),
            instructions@.map_values(|i: Instruction| i@) == offsets.map_values(
                |o: nat| instruction_at(image@, bytes@, start_va, end, o),
            ),
            instructions@.len() == 0 ==> consumed == 0,
            instructions@.len() > 0 ==> {
                let ins = instructions@.map_values(|i: Instruction| i@);
                &&& ins[0].address == start_va
                &&& forall|k: int|
                    0 <= k < ins.len() - 1 ==> (#[trigger] ins[k + 1]).address == ins[k].address.wrapping_add(
                        ins[k].length as u64,
                    )
                &&& ins.last().address.wrapping_add(ins.last().length as u64) == start_va.wrapping_add(
                    consumed as u64,
                )
            },
        ensures
            instructions@.len() <= 100_000,
            instructions@.len() > 0 ==> {
                let ins = instructions@.map_values(|i: Instruction| i@);
                &&& ins[0].address == start_va
                &&& forall|k: int|
                    0 <= k < ins.len() - 1 ==> (#[trigger] ins[k + 1]).address == ins[k].address.wrapping_add(
                        ins[k].length as u64,
                    )
            },
            offsets.len() == instructions@.len(),
            instruction_offsets(bytes@, start_va, 0, 0) == Ok::<Seq<nat>, nat>(offsets),
            instructions@.map_values(|i: Instruction| i@) == offsets.map_values(
                |o: nat| instruction_at(image@, bytes@, start_va, end, o),
            ),
        decreases limit - consumed,
    {
        let ip = start_va.wrapping_add(consumed as u64);
        let d = decode_instruction(bytes, consumed, ip);
        let length = d.length;
        if d.invalid || length == 0 || length > limit - consumed {
            assert(instruction_offsets(bytes@, start_va, consumed as nat, instructions@.len() as nat)
                == Err::<Seq<nat>, nat>(consumed as nat));
            return Err(Error::Decode(ip));
        }
        let text = format_instruction(bytes, consumed, ip);
        let (normalized, branch) = normalize(image, bytes, consumed, ip, start_va, end, &d);
        let branch_target = if branch {
            Some(d.branch_target)
        } else {
            None
        };
        let instruction = Instruction {
            address: ip,
            length: length as u8,
            text,
            normalized,
            branch_target,
        };
        let ghost before = offsets;
        let ghost before_ins = instructions@;
        proof {
            lemma_wrapping_add_twice(start_va, consumed as u64, length as u64);
            if before_ins.len() == 0 {
                assert(start_va.wrapping_add(0) == start_va);
            }
        }
        assert(instruction@ == instruction_at(image@, bytes@, start_va, end, consumed as nat));
        instructions.push(instruction);
        proof {
            offsets = before.push(consumed as nat);
            assert(instructions@ == before_ins.push(instruction));
            let ins = instructions@.map_values(|i: Instruction| i@);
            let old_ins = before_ins.map_values(|i: Instruction| i@);
            assert(ins == old_ins.push(instruction@));
            assert forall|k: int| 0 <= k < ins.len() - 1 implies (#[trigger] ins[k + 1]).address
                == ins[k].address.wrapping_add(ins[k].length as u64) by {
                if k + 1 < old_ins.len() {
                    assert(old_ins[k + 1].address == old_ins[k].address.wrapping_add(
                        old_ins[k].length as u64,
                    ));
                }
            }
            assert forall|k: int| #![trigger offsets[k]] 0 <= k < offsets.len() implies instructions@.map_values(
                |i: Instruction| i@,
            )[k] == offsets.map_values(|o: nat| instruction_at(image@, bytes@, start_va, end, o))[k] by {
                if k < before.len() {
                    assert(instructions@[k] == before_ins[k]);
                    assert(before_ins.map_values(|i: Instruction| i@)[k] == before.map_values(
                        |o: nat| instruction_at(image@, bytes@, start_va, end, o),
                    )[k]);
                }
            }
            assert(instructions@.map_values(|i: Instruction| i@) =~= offsets.map_values(
                |o: nat| instruction_at(image@, bytes@, start_va, end, o),
            ));
            if d.is_return {
                assert(before + seq![consumed as nat] =~= offsets);
            } else {
                let rest = instruction_offsets(
                    bytes@,
                    start_va,
                    (consumed + length) as nat,
                    instructions@.len() as nat,
                );
                match rest {
                    Ok(s) => {
                        assert(before + (seq![consumed as nat] + s) =~= offsets + s);
                    },
                    Err(_) => {},
                }
            }
        }
        consumed = consumed + length;
        if d.is_return {
            break;
        }
    }
    proof {
        if !(consumed < limit && instructions@.len() < 100_000) {
            assert(offsets + Seq::<nat>::empty() =~= offsets);
        }
    }
    if instructions.len() == 0 {
        return Err(Error::Decode(start_va));
    }
    let blocks = recover_blocks(&instructions);
    let (call_count, conditional_branch_count, return_count) = count_kinds(&instructions);
    Ok(
        Function {
            address: start_va,
            rva: start,
            byte_size: end - start,
            source,
            instructions,
            blocks,
            call_count,
            conditional_branch_count,
            return_count,
        },
    )
}


/// Two decoded instructions with the same mnemonic and operand count whose
/// operands differ at most in what a relocation changes normalize to the
/// same instruction, wherever they are decoded.
pub proof fn lemma_instruction_normalization_ignores_relocation(
    img1: ImageModel,
    code1: Seq<u8>,
    offset1: nat,
    ip1: u64,
    start1: u64,
    end1: u32,
    img2: ImageModel,
    code2: Seq<u8>,
    offset2: nat,
    ip2: u64,
    start2: u64,
    end2: u32,
)
    requires
        x86_decode(code1.skip(offset1 as int), ip1).mnemonic == x86_decode(code2.skip(offset2 as int), ip2).mnemonic,
        x86_decode(code1.skip(offset1 as int), ip1).operand_count == x86_decode(code2.skip(offset2 as int), ip2).operand_count,
        forall|k: u32|
            k < x86_decode(code1.skip(offset1 as int), ip1).operand_count ==> same_up_to_relocation(
                img1,
                start1,
                end1,
                x86_decode(code1.skip(offset1 as int), ip1),
                #[trigger] x86_operand(code1.skip(offset1 as int), ip1, k),
                img2,
                start2,
                end2,
                x86_decode(code2.skip(offset2 as int), ip2),
                x86_operand(code2.skip(offset2 as int), ip2, k),
            ),
    ensures
        normalized_at(img1, code1, offset1, ip1, start1, end1) == normalized_at(img2, code2, offset2, ip2, start2, end2),
{
    let n1 = normalized_at(img1, code1, offset1, ip1, start1, end1);
    let n2 = normalized_at(img2, code2, offset2, ip2, start2, end2);
    let d1 = x86_decode(code1.skip(offset1 as int), ip1);
    assert forall|k: int| 0 <= k < n1.operands.len() implies n1.operands[k] == n2.operands[k] by {
        let op1 = x86_operand(code1.skip(offset1 as int), ip1, k as u32);
        assert(same_up_to_relocation(
            img1,
            start1,
            end1,
            d1,
            op1,
            img2,
            start2,
            end2,
            x86_decode(code2.skip(offset2 as int), ip2),
            x86_operand(code2.skip(offset2 as int), ip2, k as u32),
        ));
    }
    assert(n1.operands =~= n2.operands);
}


/// Some basic block begins with instruction `x`.
pub open spec fn block_begins_at(blocks: Seq<BlockModel>, x: int) -> bool {
    exists|b: int|
        0 <= b < blocks.len() && (#[trigger] blocks[b]).instructions.len() > 0 && blocks[b].instructions[0]
            == x as usize
}

/// The leaders among the first `k` instructions are 0 and each later
/// instruction that follows a jump.
proof fn lemma_leaders_exactly(ins: Seq<InstructionModel>, k: nat, x: int)
    ensures
        leaders_upto(ins, k).contains(x) <==> (x == 0 || (1 <= x <= k && x < ins.len() && ins[x
            - 1].normalized.mnemonic.len() > 0 && ins[x - 1].normalized.mnemonic[0] == 'j')),
    decreases k,
{
    if k > 0 {
        lemma_leaders_exactly(ins, (k - 1) as nat, x);
        let p = leaders_upto(ins, (k - 1) as nat);
        let extra = if is_jump(ins[k - 1].normalized.mnemonic) && k < ins.len() {
            seq![k as int]
        } else {
            seq![]
        };
        assert(leaders_upto(ins, k) == p + extra);
        if p.contains(x) {
            let w = choose|w: int| 0 <= w < p.len() && p[w] == x;
            assert((p + extra)[w] == x);
        }
        if extra.len() > 0 && x == k {
            assert((p + extra)[p.len() as int] == x);
        }
        if (p + extra).contains(x) {
            let w = choose|w: int| 0 <= w < (p + extra).len() && (p + extra)[w] == x;
            if w >= p.len() {
                assert(extra[w - p.len()] == x);
            } else {
                assert(p[w] == x);
            }
        }
    } else {
        assert(leaders_upto(ins, 0) == seq![0int]);
        if leaders_upto(ins, 0).contains(x) {
            let w = choose|w: int| 0 <= w < 1 && seq![0int][w] == x;
        }
        if x == 0 {
            assert(seq![0int][0] == x);
        }
    }
}

/// Where basic blocks begin: the first instruction begins a block, and a
/// later instruction begins one exactly when it directly follows a jump,
/// conditional (`je`, `jne`, ...) or not (`jmp`).
pub proof fn lemma_block_boundaries(ins: Seq<InstructionModel>)
    requires
        0 < ins.len() <= usize::MAX,
    ensures
        block_begins_at(spec_blocks(ins), 0),
        forall|x: int|
            0 < x < ins.len() ==> (block_begins_at(spec_blocks(ins), x) <==> (ins[x
                - 1].normalized.mnemonic.len() > 0 && ins[x - 1].normalized.mnemonic[0] == 'j')),
{
    let l = leaders(ins);
    let blocks = spec_blocks(ins);
    lemma_leaders(ins, ins.len());
    assert forall|x: int| 0 <= x < ins.len() implies (block_begins_at(blocks, x) <==> l.contains(x)) by {
        if l.contains(x) {
            let b = choose|b: int| 0 <= b < l.len() && l[b] == x;
            let blk = blocks[b];
            assert(blk == block_at(ins, b));
            if b + 1 < l.len() {
                assert(l[b] < l[b + 1]);
            }
            assert(blk.instructions[0] == x as usize);
        }
        if block_begins_at(blocks, x) {
            let b = choose|b: int|
                0 <= b < blocks.len() && (#[trigger] blocks[b]).instructions.len() > 0 && blocks[b].instructions[0]
                    == x as usize;
            assert(blocks[b] == block_at(ins, b));
            assert(l[b] >= 0);
            assert(l[b] < ins.len() || b == 0);
            assert(l.contains(l[b]));
        }
    }
    assert(l[0] == 0);
    assert(l.contains(0));
    assert forall|x: int| 0 < x < ins.len() implies (block_begins_at(spec_blocks(ins), x) <==> (ins[x
        - 1].normalized.mnemonic.len() > 0 && ins[x - 1].normalized.mnemonic[0] == 'j')) by {
        lemma_leaders_exactly(ins, ins.len(), x);
    }
}


/// Reading back the hexadecimal digits of `n` gives `n`.
proof fn lemma_hex_digits_read_back(n: nat)
    ensures
        hex_value(digits(n, 16)) == n,
    decreases n,
{
    let c = digit_char(n % 16);
    assert(hex_digit(c) == Some(n % 16)) by {
        let d = n % 16;
        if d < 10 {
            assert(c as nat == d + 48);
        } else {
            assert(c as nat == d + 87);
        }
    }
    if n < 16 {
        let s = digits(n, 16);
        assert(s == seq![c]);
        assert(s.drop_last() =~= Seq::<char>::empty());
        assert(hex_value(Seq::<char>::empty()) == 0);
    } else {
        assert(n / 16 < n);
        lemma_hex_digits_read_back(n / 16);
        let s = digits(n, 16);
        assert(s == digits(n / 16, 16).push(c));
        assert(s.drop_last() =~= digits(n / 16, 16));
        assert(n == (n / 16) * 16 + n % 16);
    }
}

/// Different numbers have different hexadecimal texts.
proof fn lemma_hex_injective(a: nat, b: nat)
    requires
        hex(a) == hex(b),
    ensures
        a == b,
{
    reveal_strlit("0x");
    assert(digits(a, 16) =~= hex(a).skip(2));
    assert(digits(b, 16) =~= hex(b).skip(2));
    lemma_hex_digits_read_back(a);
    lemma_hex_digits_read_back(b);
}

/// Every immediate operand, whatever its width or sign extension (the
/// decoder's kinds `Immediate8`, `Immediate8_2nd`, `Immediate16`,
/// `Immediate32`, `Immediate64`, `Immediate8to16`, `Immediate8to32`,
/// `Immediate8to64`, `Immediate32to64`), normalizes to `image-address` when
/// its value is an address in the image, and otherwise to `scalar:`
/// followed by its value in hexadecimal.
pub proof fn lemma_immediate_normalization(
    img: ImageModel,
    function_start: u64,
    function_end_rva: u32,
    d: DecodedModel,
    op: OperandModel,
)
    requires
        op.kind == "Immediate8"@ || op.kind == "Immediate8_2nd"@ || op.kind == "Immediate16"@ || op.kind
            == "Immediate32"@ || op.kind == "Immediate64"@ || op.kind == "Immediate8to16"@ || op.kind
            == "Immediate8to32"@ || op.kind == "Immediate8to64"@ || op.kind == "Immediate32to64"@,
    ensures
        normalized_operand(img, function_start, function_end_rva, d, op) == if img.rva_of(
            immediate_value(op),
        ) is Ok {
            "image-address"@
        } else {
            "scalar:"@ + hex(immediate_value(op) as nat)
        },
{
    reveal_strlit("NearBranch16");
    reveal_strlit("NearBranch32");
    reveal_strlit("NearBranch64");
    reveal_strlit("Memory");
    reveal_strlit("Immediate8");
    reveal_strlit("Immediate8_2nd");
    reveal_strlit("Immediate16");
    reveal_strlit("Immediate32");
    reveal_strlit("Immediate64");
    reveal_strlit("Immediate8to16");
    reveal_strlit("Immediate8to32");
    reveal_strlit("Immediate8to64");
    reveal_strlit("Immediate32to64");
    assert(op.kind.len() != 12 && op.kind.len() != 6);
    assert("NearBranch16"@.len() == 12 && "NearBranch32"@.len() == 12 && "NearBranch64"@.len() == 12);
    assert("Memory"@.len() == 6);
    assert(!is_near_branch_kind(op.kind));
    assert(op.kind != "Memory"@);
}

/// Immediates that are not image addresses keep their value: two such
/// operands with different values normalize differently, so
/// `sub rsp,0x28` and `sub rsp,0x48` do not compare equal.
pub proof fn lemma_scalar_immediates_distinguish(
    img1: ImageModel,
    start1: u64,
    end1: u32,
    d1: DecodedModel,
    op1: OperandModel,
    img2: ImageModel,
    start2: u64,
    end2: u32,
    d2: DecodedModel,
    op2: OperandModel,
)
    requires
        op1.kind == "Immediate8"@ || op1.kind == "Immediate8_2nd"@ || op1.kind == "Immediate16"@ || op1.kind
            == "Immediate32"@ || op1.kind == "Immediate64"@ || op1.kind == "Immediate8to16"@ || op1.kind
            == "Immediate8to32"@ || op1.kind == "Immediate8to64"@ || op1.kind == "Immediate32to64"@,
        op2.kind == "Immediate8"@ || op2.kind == "Immediate8_2nd"@ || op2.kind == "Immediate16"@ || op2.kind
            == "Immediate32"@ || op2.kind == "Immediate64"@ || op2.kind == "Immediate8to16"@ || op2.kind
            == "Immediate8to32"@ || op2.kind == "Immediate8to64"@ || op2.kind == "Immediate32to64"@,
        img1.rva_of(immediate_value(op1)) is Err,
        img2.rva_of(immediate_value(op2)) is Err,
        immediate_value(op1) != immediate_value(op2),
    ensures
        normalized_operand(img1, start1, end1, d1, op1) != normalized_operand(img2, start2, end2, d2, op2),
{
    lemma_immediate_normalization(img1, start1, end1, d1, op1);
    lemma_immediate_normalization(img2, start2, end2, d2, op2);
    let h1 = hex(immediate_value(op1) as nat);
    let h2 = hex(immediate_value(op2) as nat);
    reveal_strlit("scalar:");
    if "scalar:"@ + h1 == "scalar:"@ + h2 {
        assert(h1 =~= ("scalar:"@ + h1).skip(7));
        assert(h2 =~= ("scalar:"@ + h2).skip(7));
        lemma_hex_injective(immediate_value(op1) as nat, immediate_value(op2) as nat);
    }
}

} // verus!
