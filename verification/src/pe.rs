use crate::bytes::{le_u32_at, le_value, lemma_le_value_bound, read_u16, read_u32, read_u64, spec_read_le};
use crate::disasm::{contiguous_from, decode_function, spec_decode_function, Instruction, InstructionModel, NormalizedInstruction};
use crate::matcher::normalized_seq;
use crate::error::{invalid_pe, result_view, Error, ErrorModel};
use crate::sorted::{has_start, insert_range, insert_value, starts_increasing, strictly_increasing};
use crate::text::{concat, hex, hex_string, lossy_utf8, text_is, utf8_lossy};
use crate::x86::{decode_instruction, decode_operand, x86_decode, x86_operand, DecodedModel};
use vstd::prelude::*;
use vstd::slice::slice_to_vec;

verus! {

/// The section characteristic bit of executable code.
pub const IMAGE_SCN_MEM_EXECUTE: u32 = 0x2000_0000;

/// The index of the exception table in the data directory.
pub const IMAGE_DIRECTORY_ENTRY_EXCEPTION: usize = 3;

/// A mapped PE section.
#[derive(Debug)]
pub struct Section {
    /// Section name, without trailing NUL bytes.
    pub name: String,
    /// Section RVA.
    pub virtual_address: u32,
    /// Mapped section size.
    pub virtual_size: u32,
    /// Raw file offset.
    pub raw_offset: u32,
    /// Raw file size.
    pub raw_size: u32,
    /// PE section characteristics.
    pub characteristics: u32,
}

/// The mathematical value of a [`Section`].
pub struct SectionModel {
    pub name: Seq<char>,
    pub virtual_address: u32,
    pub virtual_size: u32,
    pub raw_offset: u32,
    pub raw_size: u32,
    pub characteristics: u32,
}

impl View for Section {
    type V = SectionModel;

    open spec fn view(&self) -> SectionModel {
        SectionModel {
            name: self.name@,
            virtual_address: self.virtual_address,
            virtual_size: self.virtual_size,
            raw_offset: self.raw_offset,
            raw_size: self.raw_size,
            characteristics: self.characteristics,
        }
    }
}

impl SectionModel {
    /// The number of bytes the section spans in the image: the larger of its
    /// virtual and raw sizes.
    pub open spec fn mapped_size(self) -> u32 {
        if self.virtual_size >= self.raw_size {
            self.virtual_size
        } else {
            self.raw_size
        }
    }

    /// The section spans `rva`.
    pub open spec fn contains(self, rva: u32) -> bool {
        rva >= self.virtual_address && rva - self.virtual_address < self.mapped_size()
    }

    /// The section holds executable code.
    pub open spec fn executable(self) -> bool {
        self.characteristics & IMAGE_SCN_MEM_EXECUTE != 0
    }
}

impl Clone for Section {
    fn clone(&self) -> (r: Self)
        ensures
            r@ == self@,
    {
        Section {
            name: self.name.clone(),
            virtual_address: self.virtual_address,
            virtual_size: self.virtual_size,
            raw_offset: self.raw_offset,
            raw_size: self.raw_size,
            characteristics: self.characteristics,
        }
    }
}

impl Section {
    /// Returns true when this section contains executable code.
    pub fn is_executable(&self) -> (r: bool)
        ensures
            r == self@.executable(),
    {
        self.characteristics & IMAGE_SCN_MEM_EXECUTE != 0
    }

    /// Whether the section spans `rva`.
    pub fn contains_rva(&self, rva: u32) -> (r: bool)
        ensures
            r == self@.contains(rva),
    {
        let size = if self.virtual_size >= self.raw_size {
            self.virtual_size
        } else {
            self.raw_size
        };
        rva >= self.virtual_address && rva - self.virtual_address < size
    }
}

/// The source used to recover a function boundary.
#[derive(Clone, Copy, Debug, PartialEq, Eq, Structural)]
pub enum FunctionSource {
    /// The PE exception table supplied the range.
    Pdata,
    /// The entry point or a direct call supplied the start.
    Heuristic,
}

/// A recovered basic block.
#[derive(Debug)]
pub struct BasicBlock {
    /// Instruction indexes in this block.
    pub instructions: Vec<usize>,
    /// Successor block indexes when known.
    pub successors: Vec<usize>,
}

/// The mathematical value of a [`BasicBlock`].
pub struct BlockModel {
    pub instructions: Seq<usize>,
    pub successors: Seq<usize>,
}

impl View for BasicBlock {
    type V = BlockModel;

    open spec fn view(&self) -> BlockModel {
        BlockModel { instructions: self.instructions@, successors: self.successors@ }
    }
}

impl Clone for BasicBlock {
    fn clone(&self) -> (r: Self)
        ensures
            r@ == self@,
    {
        let instructions = self.instructions.clone();
        let successors = self.successors.clone();
        proof {
            assert(instructions@ =~= self.instructions@);
            assert(successors@ =~= self.successors@);
        }
        BasicBlock { instructions, successors }
    }
}

/// A decoded function and its structural features.
#[derive(Debug)]
pub struct Function {
    /// Function start VA.
    pub address: u64,
    /// Function start RVA.
    pub rva: u32,
    /// Function byte size from its recovered boundary.
    pub byte_size: u32,
    /// Boundary source.
    pub source: FunctionSource,
    /// Decoded instructions.
    pub instructions: Vec<Instruction>,
    /// Recovered basic blocks.
    pub blocks: Vec<BasicBlock>,
    /// Number of direct calls.
    pub call_count: usize,
    /// Number of conditional branches.
    pub conditional_branch_count: usize,
    /// Number of returns.
    pub return_count: usize,
}

/// The mathematical value of a [`Function`].
pub struct FunctionModel {
    pub address: u64,
    pub rva: u32,
    pub byte_size: u32,
    pub source: FunctionSource,
    pub instructions: Seq<InstructionModel>,
    pub blocks: Seq<BlockModel>,
    pub call_count: usize,
    pub conditional_branch_count: usize,
    pub return_count: usize,
}

impl View for Function {
    type V = FunctionModel;

    open spec fn view(&self) -> FunctionModel {
        FunctionModel {
            address: self.address,
            rva: self.rva,
            byte_size: self.byte_size,
            source: self.source,
            instructions: self.instructions@.map_values(|i: Instruction| i@),
            blocks: self.blocks@.map_values(|b: BasicBlock| b@),
            call_count: self.call_count,
            conditional_branch_count: self.conditional_branch_count,
            return_count: self.return_count,
        }
    }
}

/// The targets of the direct calls among the first `k` instructions, in
/// order: instructions with the mnemonic `call` and a near-branch target.
pub open spec fn call_targets_upto(ins: Seq<InstructionModel>, k: nat) -> Seq<u64>
    decreases k,
{
    if k == 0 || k > ins.len() {
        seq![]
    } else {
        call_targets_upto(ins, (k - 1) as nat) + if ins[k - 1].normalized.mnemonic == "call"@ {
            match ins[k - 1].branch_target {
                Some(t) => seq![t],
                None => seq![],
            }
        } else {
            seq![]
        }
    }
}

impl Function {
    /// Returns the number of decoded instructions.
    pub fn instruction_count(&self) -> (r: usize)
        ensures
            r == self@.instructions.len(),
    {
        self.instructions.len()
    }

    /// Returns the number of recovered basic blocks.
    pub fn block_count(&self) -> (r: usize)
        ensures
            r == self@.blocks.len(),
    {
        self.blocks.len()
    }

    /// Returns the normalized instruction sequence.
    pub fn normalized(&self) -> (r: Vec<NormalizedInstruction>)
        ensures
            r@.map_values(|n: NormalizedInstruction| n@) == normalized_seq(self@),
    {
        let mut out: Vec<NormalizedInstruction> = Vec::new();
        let mut i: usize = 0;
        while i < self.instructions.len()
            invariant
                i <= self.instructions@.len(),
                out@.map_values(|n: NormalizedInstruction| n@) == normalized_seq(self@).take(i as int),
            decreases self.instructions@.len() - i,
        {
            let n = self.instructions[i].normalized.clone();
            let ghost before = out@;
            out.push(n);
            proof {
                assert(self@.instructions[i as int] == self.instructions@[i as int]@);
                assert(normalized_seq(self@)[i as int] == n@);
                assert(out@.map_values(|n: NormalizedInstruction| n@) =~= before.map_values(
                    |n: NormalizedInstruction| n@,
                ).push(n@));
                assert(normalized_seq(self@).take(i + 1) =~= normalized_seq(self@).take(i as int).push(
                    n@,
                ));
            }
            i = i + 1;
        }
        proof {
            assert(normalized_seq(self@).take(i as int) =~= normalized_seq(self@));
        }
        out
    }

    /// Return direct call targets used by this function, in order.
    pub fn direct_call_targets(&self) -> (r: Vec<u64>)
        ensures
            r@ == call_targets_upto(self@.instructions, self@.instructions.len()),
    {
        let mut out: Vec<u64> = Vec::new();
        let mut i: usize = 0;
        while i < self.instructions.len()
            invariant
                i <= self.instructions@.len(),
                out@ == call_targets_upto(self@.instructions, i as nat),
            decreases self.instructions@.len() - i,
        {
            let instruction = &self.instructions[i];
            assert(self@.instructions[i as int] == instruction@);
            let ghost before = out@;
            if text_is(&instruction.normalized.mnemonic, "call") {
                match instruction.branch_target {
                    Some(t) => {
                        out.push(t);
                    },
                    None => {},
                }
            }
            proof {
                assert(out@ =~= call_targets_upto(self@.instructions, (i + 1) as nat));
            }
            i = i + 1;
        }
        out
    }
}

impl Clone for Function {
    fn clone(&self) -> (r: Self)
        ensures
            r@ == self@,
    {
        let instructions = self.instructions.clone();
        let blocks = self.blocks.clone();
        proof {
            assert(instructions@.map_values(|i: Instruction| i@) =~= self.instructions@.map_values(
                |i: Instruction| i@,
            ));
            assert(blocks@.map_values(|b: BasicBlock| b@) =~= self.blocks@.map_values(
                |b: BasicBlock| b@,
            ));
        }
        Function {
            address: self.address,
            rva: self.rva,
            byte_size: self.byte_size,
            source: self.source,
            instructions,
            blocks,
            call_count: self.call_count,
            conditional_branch_count: self.conditional_branch_count,
            return_count: self.return_count,
        }
    }
}

/// The mathematical value of a [`PeImage`].
pub struct ImageModel {
    pub bytes: Seq<u8>,
    pub image_base: u64,
    pub entry_rva: u32,
    pub size_of_image: u32,
    pub sections: Seq<SectionModel>,
    pub exception_directory: Option<(u32, u32)>,
    pub ranges: Seq<(u32, u32, FunctionSource)>,
}

/// The index of the first section at or after `i` that spans `rva`.
pub open spec fn first_containing(sections: Seq<SectionModel>, rva: u32, i: nat) -> Option<nat>
    decreases sections.len() - i,
{
    if i >= sections.len() {
        None
    } else if sections[i as int].contains(rva) {
        Some(i)
    } else {
        first_containing(sections, rva, i + 1)
    }
}

/// What `first_containing` finds: a later section spanning `rva`, with no
/// section between `i` and it spanning `rva`.
pub proof fn lemma_first_containing(sections: Seq<SectionModel>, rva: u32, i: nat)
    ensures
        match first_containing(sections, rva, i) {
            Some(k) => i <= k < sections.len() && sections[k as int].contains(rva) && forall|j: int|
                i <= j < k ==> !(#[trigger] sections[j]).contains(rva),
            None => forall|j: int| i <= j < sections.len() ==> !(#[trigger] sections[j]).contains(rva),
        },
    decreases sections.len() - i,
{
    if i < sections.len() {
        lemma_first_containing(sections, rva, i + 1);
    }
}

/// `image_base + offset`, wrapping at 2^64.
pub open spec fn va_of(image_base: u64, offset: u32) -> u64 {
    image_base.wrapping_add(offset as u64)
}

impl ImageModel {
    /// The index of the first section that spans `rva`.
    pub open spec fn section_index(self, rva: u32) -> Option<nat> {
        first_containing(self.sections, rva, 0)
    }

    /// The file offset that holds `rva`, or the error for it.
    pub open spec fn file_offset(self, rva: u32) -> Result<usize, ErrorModel> {
        match self.section_index(rva) {
            None => Err(ErrorModel::OutsideCode(va_of(self.image_base, rva))),
            Some(i) => {
                let s = self.sections[i as int];
                let delta = rva - s.virtual_address;
                if delta >= s.raw_size {
                    Err(ErrorModel::InvalidPe("RVA has no raw file data"@))
                } else if s.raw_offset + delta > usize::MAX {
                    Err(ErrorModel::InvalidPe("file offset overflow"@))
                } else if s.raw_offset + delta >= self.bytes.len() {
                    Err(ErrorModel::InvalidPe("section points outside the file"@))
                } else {
                    Ok((s.raw_offset + delta) as usize)
                }
            },
        }
    }

    /// The same image with the function ranges `ranges`.
    pub open spec fn with_ranges(self, ranges: Seq<(u32, u32, FunctionSource)>) -> ImageModel {
        ImageModel {
            bytes: self.bytes,
            image_base: self.image_base,
            entry_rva: self.entry_rva,
            size_of_image: self.size_of_image,
            sections: self.sections,
            exception_directory: self.exception_directory,
            ranges,
        }
    }

    /// The heuristic ranges are non-empty.
    pub proof fn lemma_heuristic_nonempty(self, starts: Seq<u32>, k: nat)
        ensures
            forall|i: int|
                0 <= i < self.heuristic_ranges(starts, k).len() ==> (#[trigger] self.heuristic_ranges(
                    starts,
                    k,
                )[i]).0 < self.heuristic_ranges(starts, k)[i].1,
        decreases k,
    {
        if k > 0 && k <= starts.len() {
            self.lemma_heuristic_nonempty(starts, (k - 1) as nat);
            let a = self.heuristic_ranges(starts, (k - 1) as nat);
            let b = self.heuristic_range(starts, k - 1);
            assert forall|i: int| 0 <= i < (a + b).len() implies (#[trigger] (a + b)[i]).0 < (a
                + b)[i].1 by {
                if i >= a.len() {
                    assert((a + b)[i] == b[i - a.len()]);
                }
            }
        }
    }

    /// Recovered function ranges are non-empty.
    pub proof fn lemma_recovered_nonempty(self, r: Seq<(u32, u32, FunctionSource)>)
        requires
            self.recovered_ranges(r),
        ensures
            forall|k: int| 0 <= k < r.len() ==> (#[trigger] r[k]).0 < r[k].1,
    {
        if self.has_pdata() {
            let es = self.pdata_entries();
            assert forall|k: int| 0 <= k < r.len() implies (#[trigger] r[k]).0 < r[k].1 by {
                let i = choose|i: int|
                    0 <= i < es.len() && first_of_start(es, |e: (u32, u32)| self.valid_entry(e), i)
                        && (#[trigger] es[i]).0 == r[k].0 && es[i].1 == r[k].1;
                assert(self.valid_entry(es[i]));
            }
        } else {
            let starts = choose|starts: Seq<u32>|
                strictly_increasing(starts) && (forall|x: u32| #[trigger] starts.contains(x) <==> self.start_candidate(x))
                    && r == self.heuristic_ranges(starts, starts.len());
            self.lemma_heuristic_nonempty(starts, starts.len());
        }
    }

    /// The index of the first range at or after `i` that contains `rva`.
    pub open spec fn range_index_from(self, rva: u32, i: nat) -> Option<nat>
        decreases self.ranges.len() - i,
    {
        if i >= self.ranges.len() {
            None
        } else if self.ranges[i as int].0 <= rva < self.ranges[i as int].1 {
            Some(i)
        } else {
            self.range_index_from(rva, i + 1)
        }
    }

    /// The function that contains `rva`: decoded from its range, or the
    /// error.
    pub open spec fn function_at(self, rva: u32) -> Result<FunctionModel, ErrorModel> {
        if !self.executable_rva(rva) {
            Err(ErrorModel::OutsideCode(va_of(self.image_base, rva)))
        } else {
            match self.range_index_from(rva, 0) {
                None => Err(ErrorModel::NoFunction(va_of(self.image_base, rva))),
                Some(k) => {
                    let (start, end, source) = self.ranges[k as int];
                    let last = if end >= 1 {
                        (end - 1) as u32
                    } else {
                        0
                    };
                    match (self.file_offset(start), self.file_offset(last)) {
                        (Err(e), _) => Err(e),
                        (Ok(_), Err(e)) => Err(e),
                        (Ok(first), Ok(last_offset)) => if first > last_offset + 1 {
                            Err(ErrorModel::InvalidPe("function range is outside the file"@))
                        } else {
                            spec_decode_function(
                                self,
                                start,
                                end,
                                source,
                                self.bytes.subrange(first as int, last_offset + 1),
                            )
                        },
                    }
                },
            }
        }
    }

    /// The functions that decode from the first `k` ranges, in order.
    pub open spec fn functions_upto(self, k: nat) -> Seq<FunctionModel>
        decreases k,
    {
        if k == 0 || k > self.ranges.len() {
            seq![]
        } else {
            self.functions_upto((k - 1) as nat) + match self.function_at(self.ranges[k - 1].0) {
                Ok(f) => seq![f],
                Err(_) => seq![],
            }
        }
    }

    /// All functions that decode, in order of range.
    pub open spec fn recoverable(self) -> Seq<FunctionModel> {
        self.functions_upto(self.ranges.len())
    }

    /// Converting an RVA to a virtual address and back gives the RVA.
    pub proof fn lemma_rva_va_roundtrip(self, rva: u32)
        ensures
            self.va_at(rva) matches Ok(va) ==> self.rva_of(va) == Ok::<u32, ErrorModel>(rva),
    {
    }

    /// Converting a virtual address to an RVA and back gives the address.
    pub proof fn lemma_va_rva_roundtrip(self, va: u64)
        ensures
            self.rva_of(va) matches Ok(rva) ==> self.va_at(rva) == Ok::<u64, ErrorModel>(va),
    {
    }

    /// Each heuristic range starts at one of the first `k` starts.
    proof fn lemma_heuristic_from_starts(self, starts: Seq<u32>, k: nat)
        ensures
            forall|i: int|
                0 <= i < self.heuristic_ranges(starts, k).len() ==> exists|j: int|
                    0 <= j < k && j < starts.len() && (#[trigger] self.heuristic_ranges(starts, k)[i]).0
                        == starts[j] && self.executable_rva(starts[j]),
        decreases k,
    {
        if k > 0 && k <= starts.len() {
            self.lemma_heuristic_from_starts(starts, (k - 1) as nat);
            let a = self.heuristic_ranges(starts, (k - 1) as nat);
            let b = self.heuristic_range(starts, k - 1);
            assert forall|i: int| 0 <= i < (a + b).len() implies exists|j: int|
                0 <= j < k && j < starts.len() && (#[trigger] (a + b)[i]).0 == starts[j]
                    && self.executable_rva(starts[j]) by {
                if i < a.len() {
                    assert((a + b)[i] == a[i]);
                    let j = choose|j: int|
                        0 <= j < k - 1 && j < starts.len() && (#[trigger] a[i]).0 == starts[j]
                            && self.executable_rva(starts[j]);
                } else {
                    assert((a + b)[i] == b[i - a.len()]);
                    assert((a + b)[i].0 == starts[k - 1]);
                }
            }
        }
    }

    /// Heuristic ranges over strictly increasing starts have strictly
    /// increasing starts.
    proof fn lemma_heuristic_increasing(self, starts: Seq<u32>, k: nat)
        requires
            strictly_increasing(starts),
        ensures
            starts_increasing(self.heuristic_ranges(starts, k)),
        decreases k,
    {
        if k > 0 && k <= starts.len() {
            self.lemma_heuristic_increasing(starts, (k - 1) as nat);
            self.lemma_heuristic_from_starts(starts, (k - 1) as nat);
            let a = self.heuristic_ranges(starts, (k - 1) as nat);
            let b = self.heuristic_range(starts, k - 1);
            assert forall|i: int, j: int| 0 <= i < j < (a + b).len() implies (a + b)[i].0 < (a
                + b)[j].0 by {
                if j < a.len() {
                    assert((a + b)[i] == a[i]);
                    assert((a + b)[j] == a[j]);
                } else {
                    assert((a + b)[j] == b[j - a.len()]);
                    assert((a + b)[i] == a[i]);
                    let w = choose|w: int|
                        0 <= w < k - 1 && w < starts.len() && (#[trigger] a[i]).0 == starts[w]
                            && self.executable_rva(starts[w]);
                }
            }
        }
    }

    /// The recovered function ranges are ordered by strictly increasing
    /// start, non-empty, and start in executable code.
    pub proof fn lemma_recovered_ranges_shape(self, r: Seq<(u32, u32, FunctionSource)>)
        requires
            self.recovered_ranges(r),
        ensures
            starts_increasing(r),
            forall|k: int| 0 <= k < r.len() ==> (#[trigger] r[k]).0 < r[k].1 && self.executable_rva(
                r[k].0,
            ),
    {
        self.lemma_recovered_nonempty(r);
        if self.has_pdata() {
            let es = self.pdata_entries();
            assert forall|k: int| 0 <= k < r.len() implies (#[trigger] r[k]).0 < r[k].1
                && self.executable_rva(r[k].0) by {
                let i = choose|i: int|
                    0 <= i < es.len() && first_of_start(es, |e: (u32, u32)| self.valid_entry(e), i)
                        && (#[trigger] es[i]).0 == r[k].0 && es[i].1 == r[k].1;
                assert(self.valid_entry(es[i]));
            }
        } else {
            let starts = choose|starts: Seq<u32>|
                strictly_increasing(starts) && (forall|x: u32| #[trigger] starts.contains(x) <==> self.start_candidate(x))
                    && r == self.heuristic_ranges(starts, starts.len());
            self.lemma_heuristic_increasing(starts, starts.len());
            self.lemma_heuristic_from_starts(starts, starts.len());
            assert forall|k: int| 0 <= k < r.len() implies (#[trigger] r[k]).0 < r[k].1
                && self.executable_rva(r[k].0) by {
                let j = choose|j: int|
                    0 <= j < starts.len() && j < starts.len() && (#[trigger] r[k]).0 == starts[j]
                        && self.executable_rva(starts[j]);
            }
        }
    }

    /// A file offset found for an RVA lies in the file.
    pub proof fn lemma_file_offset_in_file(self, rva: u32)
        ensures
            self.file_offset(rva) matches Ok(o) ==> o < self.bytes.len(),
    {
        lemma_first_containing(self.sections, rva, 0);
    }

    /// The RVA of the virtual address `va`, or the error for it.
    pub open spec fn rva_of(self, va: u64) -> Result<u32, ErrorModel> {
        if va < self.image_base || va - self.image_base > u32::MAX || va - self.image_base
            >= self.size_of_image {
            Err(ErrorModel::OutsideCode(va))
        } else {
            Ok((va - self.image_base) as u32)
        }
    }

    /// The virtual address of `rva`, or the error for it.
    pub open spec fn va_at(self, rva: u32) -> Result<u64, ErrorModel> {
        if rva >= self.size_of_image {
            Err(ErrorModel::OutsideCode(va_of(self.image_base, rva)))
        } else if self.image_base + rva > u64::MAX {
            Err(ErrorModel::OutsideCode(u64::MAX))
        } else {
            Ok((self.image_base + rva) as u64)
        }
    }

    /// Some executable section spans `rva`.
    pub open spec fn executable_rva(self, rva: u32) -> bool {
        exists|i: int| 0 <= i < self.sections.len() && #[trigger] self.sections[i].executable()
            && self.sections[i].contains(rva)
    }

    /// The file window `(offset, end)` of the exception table, when the
    /// image declares one of at least one entry whose start has file data.
    pub open spec fn exception_window(self) -> Option<(int, int)> {
        match self.exception_directory {
            None => None,
            Some((rva, size)) => if size < 12 {
                None
            } else {
                match (self.file_offset(rva), self.section_index(rva)) {
                    (Ok(offset), Some(i)) => {
                        let s = self.sections[i as int];
                        let available = if s.raw_size >= rva - s.virtual_address {
                            s.raw_size - (rva - s.virtual_address)
                        } else {
                            0
                        };
                        let wanted = if size <= available {
                            size as int
                        } else {
                            available as int
                        };
                        let end = saturating_add_usize(offset as int, wanted);
                        Some(
                            (
                                offset as int,
                                if end <= self.bytes.len() {
                                    end
                                } else {
                                    self.bytes.len() as int
                                },
                            ),
                        )
                    },
                    _ => None,
                }
            },
        }
    }

    /// The entries of the exception table.
    pub open spec fn pdata_entries(self) -> Seq<(u32, u32)> {
        match self.exception_window() {
            None => seq![],
            Some((offset, end)) => table_entries(self.bytes, offset, end),
        }
    }

    /// An exception-table entry describes a non-empty range whose first and
    /// last bytes lie in executable sections.
    pub open spec fn valid_entry(self, e: (u32, u32)) -> bool {
        e.0 < e.1 && self.executable_rva(e.0) && self.executable_rva((e.1 - 1) as u32)
    }

    /// The RVAs of executable code that the direct calls decoded in order
    /// from `consumed` of `code` (at address `ip`) target, up to the first
    /// instruction that does not decode.
    pub open spec fn call_targets_from(self, code: Seq<u8>, ip: u64, consumed: nat) -> Seq<u32>
        decreases code.len() - consumed,
    {
        if consumed >= code.len() {
            seq![]
        } else {
            let d = decoded_at(code, ip, consumed);
            if d.invalid || d.length == 0 {
                seq![]
            } else {
                let here = if direct_call_at(code, ip, consumed) {
                    match self.rva_of(d.branch_target) {
                        Ok(rva) => if self.executable_rva(rva) {
                            seq![rva]
                        } else {
                            seq![]
                        },
                        Err(_) => seq![],
                    }
                } else {
                    seq![]
                };
                if consumed + d.length >= code.len() {
                    here
                } else {
                    here + self.call_targets_from(code, ip, (consumed + d.length) as nat)
                }
            }
        }
    }

    /// The raw bytes of section `s` that the file holds, from the start of
    /// the section.
    pub open spec fn section_code(self, s: SectionModel) -> Option<Seq<u8>> {
        match self.file_offset(s.virtual_address) {
            Err(_) => None,
            Ok(offset) => {
                let end = saturating_add_usize(offset as int, s.raw_size as int);
                Some(
                    self.bytes.subrange(
                        offset as int,
                        if end <= self.bytes.len() {
                            end
                        } else {
                            self.bytes.len() as int
                        },
                    ),
                )
            },
        }
    }

    /// The direct-call targets found in executable section `s`.
    pub open spec fn section_call_targets(self, s: SectionModel) -> Seq<u32> {
        if !s.executable() {
            seq![]
        } else {
            match self.section_code(s) {
                None => seq![],
                Some(code) => self.call_targets_from(
                    code,
                    self.image_base.wrapping_add(s.virtual_address as u64),
                    0,
                ),
            }
        }
    }

    /// The direct-call targets found in the first `k` sections, in order.
    pub open spec fn call_targets(self, k: nat) -> Seq<u32>
        decreases k,
    {
        if k == 0 || k > self.sections.len() {
            seq![]
        } else {
            self.call_targets((k - 1) as nat) + self.section_call_targets(self.sections[k - 1])
        }
    }

    /// `x` starts a function when the exception table gives none: it is the
    /// entry point in executable code, or a direct-call target.
    pub open spec fn start_candidate(self, x: u32) -> bool {
        (x == self.entry_rva && self.executable_rva(x)) || self.call_targets(
            self.sections.len(),
        ).contains(x)
    }

    /// The heuristic range that starts at `starts[k]` and ends at the next
    /// start (or at the end of its section), when that range is non-empty,
    /// at most 1 MiB and starts in executable code.
    pub open spec fn heuristic_range(self, starts: Seq<u32>, k: int) -> Seq<(u32, u32, FunctionSource)> {
        let start = starts[k];
        let next = if k + 1 < starts.len() {
            starts[k + 1]
        } else {
            self.section_end(start)
        };
        if next > start && next - start <= 0x100000 && self.executable_rva(start) {
            seq![(start, next, FunctionSource::Heuristic)]
        } else {
            seq![]
        }
    }

    /// The heuristic ranges of the first `k` starts, in order.
    pub open spec fn heuristic_ranges(self, starts: Seq<u32>, k: nat) -> Seq<(u32, u32, FunctionSource)>
        decreases k,
    {
        if k == 0 || k > starts.len() {
            seq![]
        } else {
            self.heuristic_ranges(starts, (k - 1) as nat) + self.heuristic_range(starts, k - 1)
        }
    }

    /// Some exception-table entry is valid.
    pub open spec fn has_pdata(self) -> bool {
        exists|i: int| 0 <= i < self.pdata_entries().len() && #[trigger] self.valid_entry(
            self.pdata_entries()[i],
        )
    }

    /// `r` are the function ranges recovered from the image: the exception
    /// table's, when it has a valid entry; else the heuristic ranges between
    /// the start candidates taken in increasing order.
    pub open spec fn recovered_ranges(self, r: Seq<(u32, u32, FunctionSource)>) -> bool {
        if self.has_pdata() {
            first_by_start(r, self.pdata_entries(), |e: (u32, u32)| self.valid_entry(e))
        } else {
            exists|starts: Seq<u32>|
                strictly_increasing(starts) && (forall|x: u32| #[trigger] starts.contains(x) <==> self.start_candidate(x))
                    && r == self.heuristic_ranges(starts, starts.len())
        }
    }

    /// The end of the first section spanning `rva` (saturating at
    /// `u32::MAX`), or `rva` itself when no section spans it.
    pub open spec fn section_end(self, rva: u32) -> u32 {
        match self.section_index(rva) {
            None => rva,
            Some(i) => {
                let s = self.sections[i as int];
                if s.virtual_address + s.mapped_size() > u32::MAX {
                    u32::MAX
                } else {
                    (s.virtual_address + s.mapped_size()) as u32
                }
            },
        }
    }
}

/// The entries (begin, finish) of an exception table from `cursor` to
/// `end`, stopping at the first all-zero entry.
pub open spec fn table_entries(b: Seq<u8>, cursor: int, end: int) -> Seq<(u32, u32)>
    decreases end - cursor,
{
    if cursor + 12 > end {
        seq![]
    } else {
        let begin = le_value(b, cursor, 4) as u32;
        let finish = le_value(b, cursor + 4, 4) as u32;
        if begin == 0 && finish == 0 {
            seq![]
        } else {
            seq![(begin, finish)] + table_entries(b, cursor + 12, end)
        }
    }
}

/// `a + b`, saturating at `usize::MAX`.
pub open spec fn saturating_add_usize(a: int, b: int) -> int {
    if a + b > usize::MAX {
        usize::MAX as int
    } else {
        a + b
    }
}

/// Entry `i` of `es` is valid and no earlier valid entry has its start.
pub open spec fn first_of_start(es: Seq<(u32, u32)>, valid: spec_fn((u32, u32)) -> bool, i: int) -> bool {
    valid(es[i]) && forall|j: int| 0 <= j < i && valid(es[j]) ==> (#[trigger] es[j]).0 != es[i].0
}

/// `r` lists, by strictly increasing start, the first valid entry of `es`
/// for each start that a valid entry has, as exception-table ranges.
pub open spec fn first_by_start(
    r: Seq<(u32, u32, FunctionSource)>,
    es: Seq<(u32, u32)>,
    valid: spec_fn((u32, u32)) -> bool,
) -> bool {
    &&& starts_increasing(r)
    &&& forall|k: int|
        0 <= k < r.len() ==> (#[trigger] r[k]).2 == FunctionSource::Pdata && exists|i: int|
            0 <= i < es.len() && first_of_start(es, valid, i) && (#[trigger] es[i]).0 == r[k].0
                && es[i].1 == r[k].1
    &&& forall|i: int| 0 <= i < es.len() && valid(#[trigger] es[i]) ==> has_start(r, es[i].0)
}

/// The decoder's name of an operand kind is one of the near-branch kinds.
pub open spec fn is_near_branch_kind(kind: Seq<char>) -> bool {
    kind == "NearBranch16"@ || kind == "NearBranch32"@ || kind == "NearBranch64"@
}

/// Whether the operand kind named `kind` is a near branch.
pub fn near_branch_kind(kind: &String) -> (r: bool)
    ensures
        r == is_near_branch_kind(kind@),
{
    text_is(kind, "NearBranch16") || text_is(kind, "NearBranch32") || text_is(kind, "NearBranch64")
}

/// The instruction decoded at `consumed` of `code` (decoded at `ip`).
pub open spec fn decoded_at(code: Seq<u8>, ip: u64, consumed: nat) -> DecodedModel {
    x86_decode(code.skip(consumed as int), ip.wrapping_add(consumed as u64))
}

/// The decoded instruction at `consumed` is a direct near call with a
/// near-branch first operand.
pub open spec fn direct_call_at(code: Seq<u8>, ip: u64, consumed: nat) -> bool {
    let d = decoded_at(code, ip, consumed);
    d.near_call && !d.indirect_near_call && d.operand_count > 0 && is_near_branch_kind(
        x86_operand(code.skip(consumed as int), ip.wrapping_add(consumed as u64), 0).kind,
    )
}

/// Reads an `n`-byte little-endian header field, as a failure on error.
pub open spec fn field(b: Seq<u8>, offset: int, n: nat) -> Result<nat, ErrorModel> {
    match spec_read_le(b, offset, n) {
        Ok(v) => Ok(v),
        Err(m) => Err(ErrorModel::InvalidPe(m)),
    }
}

/// The number of name bytes in a section header: up to the first NUL among
/// the first eight bytes, else eight.
pub open spec fn name_length(header: Seq<u8>) -> nat {
    name_length_from(header, 0)
}

/// The index of the first NUL byte at or after `i` among the first eight
/// bytes of `header`, else eight.
pub open spec fn name_length_from(header: Seq<u8>, i: nat) -> nat
    decreases 8 - i,
{
    if i >= 8 {
        8
    } else if header[i as int] == 0 {
        i
    } else {
        name_length_from(header, i + 1)
    }
}

/// The section described by the 40 header bytes at `offset`.
pub open spec fn section_at(b: Seq<u8>, offset: int) -> SectionModel {
    let header = b.subrange(offset, offset + 40);
    SectionModel {
        name: utf8_lossy(header.subrange(0, name_length(header) as int)),
        virtual_size: le_value(b, offset + 8, 4) as u32,
        virtual_address: le_value(b, offset + 12, 4) as u32,
        raw_size: le_value(b, offset + 16, 4) as u32,
        raw_offset: le_value(b, offset + 20, 4) as u32,
        characteristics: le_value(b, offset + 36, 4) as u32,
    }
}

/// The outcome of reading section header `index` of a table at
/// `table_offset`, in an image of `size_of_image` bytes.
pub open spec fn spec_section(b: Seq<u8>, table_offset: int, size_of_image: u32, index: int) -> Result<
    SectionModel,
    ErrorModel,
> {
    if index * 40 > usize::MAX || table_offset + index * 40 > usize::MAX {
        Err(ErrorModel::InvalidPe("section overflow"@))
    } else if table_offset + index * 40 + 40 > usize::MAX {
        Err(ErrorModel::InvalidPe("section header overflow"@))
    } else if table_offset + index * 40 + 40 > b.len() {
        Err(ErrorModel::InvalidPe("section header is truncated"@))
    } else {
        let s = section_at(b, table_offset + index * 40);
        if s.virtual_address + s.mapped_size() > u32::MAX || s.virtual_address + s.mapped_size()
            > size_of_image {
            Err(ErrorModel::InvalidPe("section lies outside the image"@))
        } else if s.raw_offset + s.raw_size > u32::MAX || s.raw_offset + s.raw_size > b.len() {
            Err(ErrorModel::InvalidPe("section lies outside the file"@))
        } else {
            Ok(s)
        }
    }
}

/// The outcome of reading the first `count` section headers.
pub open spec fn spec_sections(b: Seq<u8>, table_offset: int, size_of_image: u32, count: nat) -> Result<
    Seq<SectionModel>,
    ErrorModel,
>
    decreases count,
{
    if count == 0 {
        Ok(seq![])
    } else {
        match spec_sections(b, table_offset, size_of_image, (count - 1) as nat) {
            Err(f) => Err(f),
            Ok(s) => match spec_section(b, table_offset, size_of_image, count - 1) {
                Err(f) => Err(f),
                Ok(one) => Ok(s.push(one)),
            },
        }
    }
}

/// Once reading stops at a failing header, reading more headers gives the
/// same failure.
proof fn lemma_sections_stop(b: Seq<u8>, table_offset: int, size_of_image: u32, k: nat, count: nat)
    requires
        k < count,
        spec_sections(b, table_offset, size_of_image, k) is Ok,
        spec_section(b, table_offset, size_of_image, k as int) is Err,
    ensures
        spec_sections(b, table_offset, size_of_image, count) == Err::<Seq<SectionModel>, ErrorModel>(
            spec_section(b, table_offset, size_of_image, k as int)->Err_0,
        ),
    decreases count,
{
    if count > k + 1 {
        lemma_sections_stop(b, table_offset, size_of_image, k, (count - 1) as nat);
    }
}

/// Processing one more table entry keeps `first_by_start`.
proof fn lemma_first_by_start_step(
    before: Seq<(u32, u32, FunctionSource)>,
    after: Seq<(u32, u32, FunctionSource)>,
    seen: Seq<(u32, u32)>,
    entry: (u32, u32),
    valid: spec_fn((u32, u32)) -> bool,
)
    requires
        first_by_start(before, seen, valid),
        starts_increasing(after),
        !valid(entry) ==> after == before,
        valid(entry) && has_start(before, entry.0) ==> after == before,
        valid(entry) && !has_start(before, entry.0) ==> exists|p: int|
            0 <= p <= before.len() && after == before.insert(p, (entry.0, entry.1, FunctionSource::Pdata)),
    ensures
        first_by_start(after, seen.push(entry), valid),
{
    let es = seen.push(entry);
    let n = seen.len() as int;
    assert forall|i: int| 0 <= i < n && first_of_start(seen, valid, i) implies first_of_start(
        es,
        valid,
        i,
    ) by {
        assert forall|j: int| 0 <= j < i && valid(es[j]) implies (#[trigger] es[j]).0 != es[i].0 by {
            assert(es[j] == seen[j]);
        }
    }
    if valid(entry) && !has_start(before, entry.0) {
        let p = choose|p: int|
            0 <= p <= before.len() && after == before.insert(p, (entry.0, entry.1, FunctionSource::Pdata));
        before.insert_ensures(p, (entry.0, entry.1, FunctionSource::Pdata));
        assert(first_of_start(es, valid, n)) by {
            assert forall|j: int| 0 <= j < n && valid(es[j]) implies (#[trigger] es[j]).0 != es[n].0 by {
                assert(es[j] == seen[j]);
                assert(has_start(before, seen[j].0));
            }
        }
        assert forall|k: int| 0 <= k < after.len() implies (#[trigger] after[k]).2 == FunctionSource::Pdata
            && exists|i: int|
            0 <= i < es.len() && first_of_start(es, valid, i) && (#[trigger] es[i]).0 == after[k].0
                && es[i].1 == after[k].1 by {
            if k < p {
                assert(after[k] == before[k]);
                let i = choose|i: int|
                    0 <= i < seen.len() && first_of_start(seen, valid, i) && (#[trigger] seen[i]).0
                        == before[k].0 && seen[i].1 == before[k].1;
                assert(es[i] == seen[i]);
            } else if k == p {
                assert(es[n] == entry);
            } else {
                assert(after[k] == before[k - 1]);
                let i = choose|i: int|
                    0 <= i < seen.len() && first_of_start(seen, valid, i) && (#[trigger] seen[i]).0
                        == before[k - 1].0 && seen[i].1 == before[k - 1].1;
                assert(es[i] == seen[i]);
            }
        }
        assert forall|i: int| 0 <= i < es.len() && valid(#[trigger] es[i]) implies has_start(after, es[i].0) by {
            if i < n {
                assert(es[i] == seen[i]);
                assert(has_start(before, seen[i].0));
                let k = choose|k: int| 0 <= k < before.len() && (#[trigger] before[k]).0 == seen[i].0;
                if k < p {
                    assert(after[k] == before[k]);
                } else {
                    assert(after[k + 1] == before[k]);
                }
            } else {
                assert(after[p] == (entry.0, entry.1, FunctionSource::Pdata));
            }
        }
    } else {
        assert forall|k: int| 0 <= k < after.len() implies (#[trigger] after[k]).2 == FunctionSource::Pdata
            && exists|i: int|
            0 <= i < es.len() && first_of_start(es, valid, i) && (#[trigger] es[i]).0 == after[k].0
                && es[i].1 == after[k].1 by {
            let i = choose|i: int|
                0 <= i < seen.len() && first_of_start(seen, valid, i) && (#[trigger] seen[i]).0
                    == before[k].0 && seen[i].1 == before[k].1;
            assert(es[i] == seen[i]);
        }
        assert forall|i: int| 0 <= i < es.len() && valid(#[trigger] es[i]) implies has_start(after, es[i].0) by {
            if i < n {
                assert(es[i] == seen[i]);
            }
        }
    }
}

/// The sections read from a header table lie within the image and within
/// the file.
pub proof fn lemma_sections_fit(b: Seq<u8>, table_offset: int, size_of_image: u32, count: nat)
    ensures
        spec_sections(b, table_offset, size_of_image, count) matches Ok(s) ==> s.len() == count
            && forall|i: int|
            0 <= i < s.len() ==> (#[trigger] s[i]).virtual_address + s[i].mapped_size() <= size_of_image
                && s[i].raw_offset + s[i].raw_size <= b.len(),
    decreases count,
{
    if count > 0 {
        lemma_sections_fit(b, table_offset, size_of_image, (count - 1) as nat);
    }
}

/// The outcome of reading the exception directory entry of an optional
/// header at `optional` that declares `directory_count` entries.
pub open spec fn spec_exception_directory(b: Seq<u8>, optional: int, directory_count: nat) -> Result<
    Option<(u32, u32)>,
    ErrorModel,
> {
    if directory_count <= IMAGE_DIRECTORY_ENTRY_EXCEPTION {
        Ok(None)
    } else if optional + 112 + 3 * 8 > usize::MAX {
        Err(ErrorModel::InvalidPe("data directory overflow"@))
    } else {
        let directory = optional + 136;
        match field(b, directory, 4) {
            Err(f) => Err(f),
            Ok(rva) => match field(b, directory + 4, 4) {
                Err(f) => Err(f),
                Ok(size) => Ok(Some((rva as u32, size as u32))),
            },
        }
    }
}

/// The message of the error for a machine other than x86-64.
pub open spec fn machine_message(machine: nat) -> Seq<char> {
    "machine "@ + hex(machine) + "; v0.1 supports x86-64 only"@
}

/// The image described by the optional header at `optional`, once the
/// COFF header checks have passed: its fields, sections and exception
/// directory, or why they cannot be read.
pub open spec fn spec_optional_header(
    b: Seq<u8>,
    optional: int,
    number_sections: nat,
    optional_size: nat,
) -> Result<ImageModel, ErrorModel> {
    match field(b, optional, 2) {
        Err(f) => Err(f),
        Ok(magic) => if magic != 0x20b {
            Err(ErrorModel::Unsupported("input is PE32; v0.1 supports PE32+ x86-64 only"@))
        } else if optional_size < 112 {
            Err(ErrorModel::InvalidPe("optional header is truncated"@))
        } else {
            match (field(b, optional + 24, 8), field(b, optional + 16, 4), field(b, optional + 56, 4)) {
                (Err(f), _, _) => Err(f),
                (Ok(_), Err(f), _) => Err(f),
                (Ok(_), Ok(_), Err(f)) => Err(f),
                (Ok(image_base), Ok(entry_rva), Ok(size_of_image)) => if image_base == 0
                    || size_of_image == 0 {
                    Err(ErrorModel::InvalidPe("image base and image size must be non-zero"@))
                } else {
                    match field(b, optional + 108, 4) {
                        Err(f) => Err(f),
                        Ok(directory_count) => if optional + optional_size > usize::MAX {
                            Err(ErrorModel::InvalidPe("section header overflow"@))
                        } else {
                            match spec_sections(
                                b,
                                optional + optional_size,
                                size_of_image as u32,
                                number_sections,
                            ) {
                                Err(f) => Err(f),
                                Ok(sections) => match spec_exception_directory(
                                    b,
                                    optional,
                                    directory_count,
                                ) {
                                    Err(f) => Err(f),
                                    Ok(exception_directory) => Ok(
                                        ImageModel {
                                            bytes: b,
                                            image_base: image_base as u64,
                                            entry_rva: entry_rva as u32,
                                            size_of_image: size_of_image as u32,
                                            sections,
                                            exception_directory,
                                            ranges: seq![],
                                        },
                                    ),
                                },
                            }
                        },
                    }
                },
            }
        },
    }
}

/// The sections of a parsed image lie within the image and within the
/// file, and the image base and size are non-zero.
pub proof fn lemma_parsed_image_fits(b: Seq<u8>)
    ensures
        spec_headers(b) matches Ok(m) ==> m.image_base != 0 && m.size_of_image != 0 && m.bytes == b
            && forall|i: int|
            0 <= i < m.sections.len() ==> (#[trigger] m.sections[i]).virtual_address
                + m.sections[i].mapped_size() <= m.size_of_image && m.sections[i].raw_offset
                + m.sections[i].raw_size <= b.len(),
{
    if b.len() >= 0x40 && b[0] == 0x4d && b[1] == 0x5a {
        let nt_offset = le_value(b, 0x3c, 4) as int;
        let coff = nt_offset + 4;
        let optional = coff + 20;
        match (field(b, coff + 2, 2), field(b, coff + 16, 2), field(b, optional + 56, 4)) {
            (Ok(number_sections), Ok(optional_size), Ok(size_of_image)) => {
                lemma_sections_fit(b, optional + optional_size, size_of_image as u32, number_sections);
                lemma_le_value_bound(b, optional + 56, 4);
                lemma_le_value_bound(b, optional + 24, 8);
            },
            _ => {},
        }
    }
}

/// The outcome of reading the headers of a PE32+ x86-64 image: the image
/// with no function ranges yet, or why the bytes are not such an image.
pub open spec fn spec_headers(b: Seq<u8>) -> Result<ImageModel, ErrorModel> {
    if b.len() < 0x40 || b[0] != 0x4d || b[1] != 0x5a {
        Err(ErrorModel::InvalidPe("missing DOS header"@))
    } else {
        let nt_offset = le_value(b, 0x3c, 4) as int;
        if nt_offset + 4 > usize::MAX {
            Err(ErrorModel::InvalidPe("header overflow"@))
        } else if nt_offset + 4 > b.len() || b[nt_offset as int] != 0x50 || b[nt_offset + 1]
            != 0x45 || b[nt_offset + 2] != 0 || b[nt_offset + 3] != 0 {
            Err(ErrorModel::InvalidPe("missing PE signature"@))
        } else {
            let coff = nt_offset + 4;
            match field(b, coff, 2) {
                Err(f) => Err(f),
                Ok(machine) => if machine != 0x8664 {
                    Err(ErrorModel::Unsupported(machine_message(machine)))
                } else {
                    match (field(b, coff + 2, 2), field(b, coff + 16, 2)) {
                        (Err(f), _) => Err(f),
                        (Ok(_), Err(f)) => Err(f),
                        (Ok(number_sections), Ok(optional_size)) => spec_optional_header(
                            b,
                            coff + 20,
                            number_sections,
                            optional_size,
                        ),
                    }
                },
            }
        }
    }
}


/// A parsed PE32+ image.
pub struct PeImage {
    bytes: Vec<u8>,
    image_base: u64,
    entry_rva: u32,
    size_of_image: u32,
    sections: Vec<Section>,
    exception_directory: Option<(u32, u32)>,
    ranges: Vec<(u32, u32, FunctionSource)>,
}

impl PeImage {
    /// Every function range is non-empty.
    #[verifier::type_invariant]
    closed spec fn ranges_nonempty(self) -> bool {
        forall|k: int| 0 <= k < self.ranges@.len() ==> (#[trigger] self.ranges@[k]).0 < self.ranges@[k].1
    }
}

impl View for PeImage {
    type V = ImageModel;

    closed spec fn view(&self) -> ImageModel {
        ImageModel {
            bytes: self.bytes@,
            image_base: self.image_base,
            entry_rva: self.entry_rva,
            size_of_image: self.size_of_image,
            sections: self.sections@.map_values(|s: Section| s@),
            exception_directory: self.exception_directory,
            ranges: self.ranges@,
        }
    }
}

impl PeImage {
    /// Parse a PE32+ x86-64 image: its headers, sections and exception
    /// directory, and the ranges of its functions.
    pub fn parse(bytes: &[u8]) -> (r: Result<PeImage, Error>)
        requires
            bytes@.len() <= isize::MAX,
        ensures
            match spec_headers(bytes@) {
                Ok(m) => r matches Ok(img) && img@ == m.with_ranges(img@.ranges) && m.recovered_ranges(
                    img@.ranges,
                ),
                Err(f) => r matches Err(e) && e@ == f,
            },
    {
        let image = match Self::parse_headers(bytes) {
            Ok(image) => image,
            Err(e) => return Err(e),
        };
        let ranges = image.recover_ranges();
        proof {
            image@.lemma_recovered_nonempty(ranges@);
        }
        Ok(
            PeImage {
                bytes: image.bytes,
                image_base: image.image_base,
                entry_rva: image.entry_rva,
                size_of_image: image.size_of_image,
                sections: image.sections,
                exception_directory: image.exception_directory,
                ranges,
            },
        )
    }

    /// The index of the first range containing `rva`.
    fn find_range(&self, rva: u32) -> (r: Option<usize>)
        ensures
            r matches Some(k) ==> self@.range_index_from(rva, 0) == Some(k as nat) && k
                < self@.ranges.len(),
            r is None ==> self@.range_index_from(rva, 0) is None,
    {
        let mut i: usize = 0;
        while i < self.ranges.len()
            invariant
                i <= self@.ranges.len(),
                self@.ranges == self.ranges@,
                self@.range_index_from(rva, 0) == self@.range_index_from(rva, i as nat),
            decreases self@.ranges.len() - i,
        {
            let (start, end, _) = self.ranges[i];
            if rva >= start && rva < end {
                assert(self@.range_index_from(rva, i as nat) == Some(i as nat));
                return Some(i);
            }
            i = i + 1;
        }
        None
    }

    /// Return the function containing a virtual address.
    pub fn function_at_va(&self, va: u64) -> (r: Result<Function, Error>)
        ensures
            match self@.rva_of(va) {
                Err(e) => r matches Err(x) && x@ == e,
                Ok(rva) => match self@.function_at(rva) {
                    Ok(m) => r matches Ok(f) && f@ == m,
                    Err(e) => r matches Err(x) && x@ == e,
                },
            },
            r matches Ok(f) ==> contiguous_from(f@.instructions, f@.address),
    {
        let rva = match self.va_to_rva(va) {
            Ok(rva) => rva,
            Err(e) => return Err(e),
        };
        self.function_at_rva(rva)
    }

    /// Return the function containing an RVA.
    pub fn function_at_rva(&self, rva: u32) -> (r: Result<Function, Error>)
        ensures
            match self@.function_at(rva) {
                Ok(m) => r matches Ok(f) && f@ == m,
                Err(e) => r matches Err(x) && x@ == e,
            },
            r matches Ok(f) ==> contiguous_from(f@.instructions, f@.address),
    {
        proof {
            use_type_invariant(self);
        }
        if !self.is_executable_rva(rva) {
            return Err(Error::OutsideCode(self.image_base.wrapping_add(rva as u64)));
        }
        let k = match self.find_range(rva) {
            Some(k) => k,
            None => return Err(Error::NoFunction(self.image_base.wrapping_add(rva as u64))),
        };
        let (start, end, source) = self.ranges[k];
        assert(self@.ranges[k as int] == (start, end, source));
        assert(self@.range_index_from(rva, 0) == Some(k as nat));
        assert(start < end);
        let offset = match self.rva_to_file_offset(start) {
            Ok(o) => o,
            Err(e) => return Err(e),
        };
        let last_rva = end.saturating_sub(1);
        let last = match self.rva_to_file_offset(last_rva) {
            Ok(o) => o,
            Err(e) => return Err(e),
        };
        proof {
            self@.lemma_file_offset_in_file(last_rva);
            assert(self@.file_offset(last_rva) == Ok::<usize, ErrorModel>(last));
            assert(self@.bytes.len() == self.bytes@.len());
            assert(last < self@.bytes.len());
        }
        assert(last < self.bytes.len());
        let end_offset = last + 1;
        if offset > end_offset {
            return Err(invalid_pe("function range is outside the file"));
        }
        let bytes = &self.bytes.as_slice()[offset..end_offset];
        decode_function(self, start, end, source, bytes)
    }

    /// Return all recovered function starts, as virtual addresses, in
    /// increasing order of RVA.
    pub fn function_starts(&self) -> (r: Vec<u64>)
        ensures
            r@ == self@.ranges.map_values(|range: (u32, u32, FunctionSource)| va_of(self@.image_base, range.0)),
    {
        let mut starts: Vec<u64> = Vec::new();
        let mut i: usize = 0;
        while i < self.ranges.len()
            invariant
                i <= self@.ranges.len(),
                self@.ranges == self.ranges@,
                starts@ == self@.ranges.take(i as int).map_values(
                    |range: (u32, u32, FunctionSource)| va_of(self@.image_base, range.0),
                ),
            decreases self@.ranges.len() - i,
        {
            let start = self.ranges[i].0;
            starts.push(self.image_base.wrapping_add(start as u64));
            proof {
                assert(self@.ranges.take(i + 1) =~= self@.ranges.take(i as int).push(self@.ranges[i as int]));
            }
            i = i + 1;
        }
        proof {
            assert(self@.ranges.take(i as int) =~= self@.ranges);
        }
        starts
    }

    /// Recover all functions that can be decoded safely.
    pub fn functions(&self) -> (r: Vec<Function>)
        ensures
            r@.map_values(|f: Function| f@) == self@.recoverable(),
            forall|k: int| 0 <= k < r@.len() ==> contiguous_from(#[trigger] r@[k]@.instructions, r@[k]@.address),
    {
        self.recoverable_functions()
    }

    /// The functions that decode from the ranges, in order of range.
    pub fn recoverable_functions(&self) -> (r: Vec<Function>)
        ensures
            r@.map_values(|f: Function| f@) == self@.recoverable(),
            forall|k: int| 0 <= k < r@.len() ==> contiguous_from(#[trigger] r@[k]@.instructions, r@[k]@.address),
    {
        let mut found: Vec<Function> = Vec::new();
        let mut i: usize = 0;
        while i < self.ranges.len()
            invariant
                i <= self@.ranges.len(),
                self@.ranges == self.ranges@,
                found@.map_values(|f: Function| f@) == self@.functions_upto(i as nat),
                forall|k: int| 0 <= k < found@.len() ==> contiguous_from(#[trigger] found@[k]@.instructions, found@[k]@.address),
            decreases self@.ranges.len() - i,
        {
            let ghost before = found@;
            match self.function_at_rva(self.ranges[i].0) {
                Ok(f) => {
                    found.push(f);
                    proof {
                        assert(found@.map_values(|f: Function| f@) =~= before.map_values(
                            |f: Function| f@,
                        ).push(f@));
                    }
                },
                Err(_) => {
                    assert(found@.map_values(|f: Function| f@) =~= before.map_values(
                        |f: Function| f@,
                    ) + Seq::<FunctionModel>::empty());
                },
            }
            i = i + 1;
        }
        found
    }

    /// Return the preferred image base.
    pub fn image_base(&self) -> (r: u64)
        ensures
            r == self@.image_base,
    {
        self.image_base
    }

    /// Return the PE entry point RVA.
    pub fn entry_rva(&self) -> (r: u32)
        ensures
            r == self@.entry_rva,
    {
        self.entry_rva
    }

    /// Return the mapped image size.
    pub fn size_of_image(&self) -> (r: u32)
        ensures
            r == self@.size_of_image,
    {
        self.size_of_image
    }

    /// Return all parsed sections.
    pub fn sections(&self) -> (r: &[Section])
        ensures
            r@.map_values(|s: Section| s@) == self@.sections,
    {
        self.sections.as_slice()
    }

    /// The index of the first section spanning `rva`.
    fn find_section(&self, rva: u32) -> (r: Option<usize>)
        ensures
            r matches Some(i) ==> self@.section_index(rva) == Some(i as nat) && i < self@.sections.len()
                && self@.sections[i as int].contains(rva),
            r is None ==> self@.section_index(rva) is None,
    {
        proof {
            lemma_first_containing(self@.sections, rva, 0);
        }
        let mut i: usize = 0;
        while i < self.sections.len()
            invariant
                i <= self.sections@.len(),
                first_containing(self@.sections, rva, 0) == first_containing(
                    self@.sections,
                    rva,
                    i as nat,
                ),
            decreases self.sections@.len() - i,
        {
            if self.sections[i].contains_rva(rva) {
                return Some(i);
            }
            i = i + 1;
        }
        None
    }

    /// Convert an RVA to a file offset.
    pub fn rva_to_file_offset(&self, rva: u32) -> (r: Result<usize, Error>)
        ensures
            result_view(r) == self@.file_offset(rva),
    {
        proof {
            lemma_first_containing(self@.sections, rva, 0);
        }
        let index = match self.find_section(rva) {
            Some(i) => i,
            None => return Err(Error::OutsideCode(self.image_base.wrapping_add(rva as u64))),
        };
        let section = &self.sections[index];
        assert(self@.sections[index as int] == section@);
        let delta = rva - section.virtual_address;
        if delta >= section.raw_size {
            return Err(invalid_pe("RVA has no raw file data"));
        }
        let base = section.raw_offset as usize;
        let offset = match base.checked_add(delta as usize) {
            Some(v) => v,
            None => return Err(invalid_pe("file offset overflow")),
        };
        if offset >= self.bytes.len() {
            return Err(invalid_pe("section points outside the file"));
        }
        Ok(offset)
    }

    /// Convert a VA to an RVA.
    pub fn va_to_rva(&self, va: u64) -> (r: Result<u32, Error>)
        ensures
            result_view(r) == self@.rva_of(va),
    {
        if va < self.image_base {
            return Err(Error::OutsideCode(va));
        }
        let offset = va - self.image_base;
        if offset > u32::MAX as u64 {
            return Err(Error::OutsideCode(va));
        }
        let rva = offset as u32;
        if rva >= self.size_of_image {
            return Err(Error::OutsideCode(va));
        }
        Ok(rva)
    }

    /// Convert an RVA to a virtual address.
    pub fn rva_to_va(&self, rva: u32) -> (r: Result<u64, Error>)
        ensures
            result_view(r) == self@.va_at(rva),
    {
        if rva >= self.size_of_image {
            return Err(Error::OutsideCode(self.image_base.wrapping_add(rva as u64)));
        }
        match self.image_base.checked_add(rva as u64) {
            Some(va) => Ok(va),
            None => Err(Error::OutsideCode(u64::MAX)),
        }
    }

    /// Whether an executable section spans `rva`.
    fn is_executable_rva(&self, rva: u32) -> (r: bool)
        ensures
            r == self@.executable_rva(rva),
    {
        let mut i: usize = 0;
        while i < self.sections.len()
            invariant
                i <= self.sections@.len(),
                self@.sections == self.sections@.map_values(|s: Section| s@),
                forall|k: int|
                    0 <= k < i ==> !(#[trigger] self@.sections[k].executable() && self@.sections[k].contains(
                        rva,
                    )),
            decreases self.sections@.len() - i,
        {
            if self.sections[i].is_executable() && self.sections[i].contains_rva(rva) {
                assert(self@.sections[i as int] == self.sections@[i as int]@);
                return true;
            }
            i = i + 1;
        }
        false
    }

    /// The end of the first section spanning `rva`, or `rva` when none does.
    fn section_end(&self, rva: u32) -> (r: u32)
        ensures
            r == self@.section_end(rva),
    {
        proof {
            lemma_first_containing(self@.sections, rva, 0);
        }
        match self.find_section(rva) {
            None => rva,
            Some(i) => {
                let section = &self.sections[i];
                assert(self@.sections[i as int] == section@);
                let size = if section.virtual_size >= section.raw_size {
                    section.virtual_size
                } else {
                    section.raw_size
                };
                section.virtual_address.saturating_add(size)
            },
        }
    }

    /// The function ranges of the exception table: for each start, the
    /// first valid entry, in order of start.
    fn pdata_ranges(&self) -> (r: Vec<(u32, u32, FunctionSource)>)
        ensures
            first_by_start(r@, self@.pdata_entries(), |e: (u32, u32)| self@.valid_entry(e)),
    {
        let ghost valid = |e: (u32, u32)| self@.valid_entry(e);
        let mut result: Vec<(u32, u32, FunctionSource)> = Vec::new();
        let (directory_rva, directory_size) = match self.exception_directory {
            Some(d) => d,
            None => return result,
        };
        if directory_size < 12 {
            return result;
        }
        let offset = match self.rva_to_file_offset(directory_rva) {
            Ok(o) => o,
            Err(_) => return result,
        };
        let index = match self.find_section(directory_rva) {
            Some(i) => i,
            None => return result,
        };
        let section = &self.sections[index];
        assert(self@.sections[index as int] == section@);
        let available = section.raw_size.saturating_sub(directory_rva - section.virtual_address) as usize;
        let wanted = if (directory_size as usize) <= available {
            directory_size as usize
        } else {
            available
        };
        let window_end = offset.saturating_add(wanted);
        let end = if window_end <= self.bytes.len() {
            window_end
        } else {
            self.bytes.len()
        };
        assert(self@.exception_window() == Some((offset as int, end as int)));
        let mut cursor = offset;
        let ghost mut seen: Seq<(u32, u32)> = seq![];
        while cursor <= end && end - cursor >= 12
            invariant_except_break
                offset <= cursor <= end + 12,
                end <= self.bytes@.len(),
                table_entries(self.bytes@, offset as int, end as int) == seen + table_entries(
                    self.bytes@,
                    cursor as int,
                    end as int,
                ),
                first_by_start(result@, seen, valid),
                valid == |e: (u32, u32)| self@.valid_entry(e),
            ensures
                first_by_start(result@, table_entries(self.bytes@, offset as int, end as int), valid),
            decreases end + 12 - cursor,
        {
            let begin = le_u32_at(self.bytes.as_slice(), cursor);
            let finish = le_u32_at(self.bytes.as_slice(), cursor + 4);
            if begin == 0 && finish == 0 {
                proof {
                    assert(seen + table_entries(self.bytes@, cursor as int, end as int) =~= seen);
                }
                break;
            }
            let ghost entry = (begin, finish);
            let ghost before = result@;
            if begin < finish && self.is_executable_rva(begin) && self.is_executable_rva(finish - 1) {
                insert_range(&mut result, (begin, finish, FunctionSource::Pdata));
            }
            proof {
                let es = seen.push(entry);
                assert(seen + table_entries(self.bytes@, cursor as int, end as int) =~= es
                    + table_entries(self.bytes@, cursor + 12, end as int));
                lemma_first_by_start_step(before, result@, seen, entry, valid);
                seen = es;
            }
            cursor = cursor + 12;
        }
        result
    }

    /// The direct-call targets in executable code found by decoding
    /// section `index` from its start.
    fn section_call_starts(&self, index: usize) -> (r: Vec<u32>)
        requires
            index < self@.sections.len(),
        ensures
            r@ == self@.section_call_targets(self@.sections[index as int]),
    {
        let mut found: Vec<u32> = Vec::new();
        let section = &self.sections[index];
        assert(self@.sections[index as int] == section@);
        if !section.is_executable() {
            return found;
        }
        let offset = match self.rva_to_file_offset(section.virtual_address) {
            Ok(o) => o,
            Err(_) => return found,
        };
        let window_end = offset.saturating_add(section.raw_size as usize);
        let end = if window_end <= self.bytes.len() {
            window_end
        } else {
            self.bytes.len()
        };
        proof {
            self@.lemma_file_offset_in_file(section.virtual_address);
        }
        assert(self.bytes@ == self@.bytes);
        let code = &self.bytes.as_slice()[offset..end];
        let ip = self.image_base.wrapping_add(section.virtual_address as u64);
        assert(self@.section_code(section@) == Some(code@));
        let mut consumed: usize = 0;
        while consumed < code.len()
            invariant_except_break
                consumed <= code@.len(),
                self@.call_targets_from(code@, ip, 0) == found@ + self@.call_targets_from(
                    code@,
                    ip,
                    consumed as nat,
                ),
            ensures
                self@.call_targets_from(code@, ip, 0) == found@,
            decreases code@.len() - consumed,
        {
            let at = ip.wrapping_add(consumed as u64);
            let d = decode_instruction(code, consumed, at);
            if d.invalid || d.length == 0 {
                assert(found@ + Seq::<u32>::empty() =~= found@);
                break;
            }
            let ghost before = found@;
            if d.near_call && !d.indirect_near_call && d.operand_count > 0 {
                let operand = decode_operand(code, consumed, at, 0);
                if near_branch_kind(&operand.kind) {
                    match self.va_to_rva(d.branch_target) {
                        Ok(rva) => {
                            if self.is_executable_rva(rva) {
                                found.push(rva);
                            }
                        },
                        Err(_) => {},
                    }
                }
            }
            let ghost here = found@.subrange(before.len() as int, found@.len() as int);
            assert(found@ == before + here);
            if d.length >= code.len() - consumed {
                assert(self@.call_targets_from(code@, ip, consumed as nat) == here);
                break;
            }
            proof {
                let rest = self@.call_targets_from(code@, ip, (consumed + d.length) as nat);
                assert(self@.call_targets_from(code@, ip, consumed as nat) == here + rest);
                assert(found@ + rest =~= before + (here + rest));
            }
            consumed = consumed + d.length;
        }
        found
    }

    /// The direct-call targets in executable code found in all sections.
    fn discovered_call_starts(&self) -> (r: Vec<u32>)
        ensures
            r@ == self@.call_targets(self@.sections.len()),
    {
        let mut starts: Vec<u32> = Vec::new();
        let mut index: usize = 0;
        while index < self.sections.len()
            invariant
                index <= self@.sections.len(),
                self@.sections.len() == self.sections@.len(),
                starts@ == self@.call_targets(index as nat),
            decreases self@.sections.len() - index,
        {
            let mut found = self.section_call_starts(index);
            starts.append(&mut found);
            index = index + 1;
        }
        starts
    }

    /// The function ranges of the image: those of the exception table, or,
    /// without one, the ranges between the entry point and direct-call
    /// targets.
    fn recover_ranges(&self) -> (r: Vec<(u32, u32, FunctionSource)>)
        ensures
            self@.recovered_ranges(r@),
    {
        let pdata = self.pdata_ranges();
        if pdata.len() > 0 {
            proof {
                let es = self@.pdata_entries();
                let k = 0int;
                let i = choose|i: int|
                    0 <= i < es.len() && first_of_start(
                        es,
                        |e: (u32, u32)| self@.valid_entry(e),
                        i,
                    ) && (#[trigger] es[i]).0 == pdata@[k].0 && es[i].1 == pdata@[k].1;
                assert(self@.valid_entry(es[i]));
            }
            return pdata;
        }
        proof {
            assert(!self@.has_pdata()) by {
                if self@.has_pdata() {
                    let i = choose|i: int| 0 <= i < self@.pdata_entries().len() && #[trigger] self@.valid_entry(
                        self@.pdata_entries()[i],
                    );
                    assert(has_start(pdata@, self@.pdata_entries()[i].0));
                }
            }
        }
        let mut starts: Vec<u32> = Vec::new();
        if self.is_executable_rva(self.entry_rva) {
            insert_value(&mut starts, self.entry_rva);
        }
        let calls = self.discovered_call_starts();
        let ghost entry_in = self@.executable_rva(self@.entry_rva);
        let mut i: usize = 0;
        while i < calls.len()
            invariant
                i <= calls@.len(),
                calls@ == self@.call_targets(self@.sections.len()),
                strictly_increasing(starts@),
                forall|x: u32|
                    #[trigger] starts@.contains(x) <==> ((x == self@.entry_rva && self@.executable_rva(x))
                        || calls@.subrange(0, i as int).contains(x)),
            decreases calls@.len() - i,
        {
            insert_value(&mut starts, calls[i]);
            proof {
                broadcast use vstd::seq_lib::group_seq_properties;

                assert(calls@.subrange(0, i + 1) =~= calls@.subrange(0, i as int).push(calls@[i as int]));
            }
            i = i + 1;
        }
        proof {
            assert(calls@.subrange(0, calls@.len() as int) =~= calls@);
        }
        let mut ranges: Vec<(u32, u32, FunctionSource)> = Vec::new();
        let mut index: usize = 0;
        while index < starts.len()
            invariant
                index <= starts@.len(),
                ranges@ == self@.heuristic_ranges(starts@, index as nat),
            decreases starts@.len() - index,
        {
            let start = starts[index];
            let next = if index + 1 < starts.len() {
                starts[index + 1]
            } else {
                self.section_end(start)
            };
            let ghost before = ranges@;
            if next > start && next - start <= 0x100000 && self.is_executable_rva(start) {
                ranges.push((start, next, FunctionSource::Heuristic));
            }
            proof {
                assert(ranges@ =~= before + self@.heuristic_range(starts@, index as int));
            }
            index = index + 1;
        }
        ranges
    }

    /// Reads the headers, sections and exception directory of an image.
    fn parse_headers(bytes: &[u8]) -> (r: Result<PeImage, Error>)
        requires
            bytes@.len() <= isize::MAX,
        ensures
            match spec_headers(bytes@) {
                Ok(m) => r matches Ok(img) && img@ == m,
                Err(f) => r matches Err(e) && e@ == f,
            },
    {
        let ghost b = bytes@;
        if bytes.len() < 0x40 || bytes[0] != 0x4d || bytes[1] != 0x5a {
            return Err(invalid_pe("missing DOS header"));
        }
        let nt_offset = le_u32_at(bytes, 0x3c) as usize;
        if nt_offset > usize::MAX - 4 {
            return Err(invalid_pe("header overflow"));
        }
        let signature_end = nt_offset + 4;
        if signature_end > bytes.len() || bytes[nt_offset] != 0x50 || bytes[nt_offset + 1] != 0x45
            || bytes[nt_offset + 2] != 0 || bytes[nt_offset + 3] != 0 {
            return Err(invalid_pe("missing PE signature"));
        }
        let coff = signature_end;
        let machine = match read_u16(bytes, coff) {
            Ok(v) => v,
            Err(e) => return Err(e),
        };
        if machine != 0x8664 {
            let head = concat("machine ", hex_string(machine as u64).as_str());
            let message = concat(head.as_str(), "; v0.1 supports x86-64 only");
            return Err(Error::Unsupported(message));
        }
        let number_sections = match read_u16(bytes, coff + 2) {
            Ok(v) => v as usize,
            Err(e) => return Err(e),
        };
        let optional_size = match read_u16(bytes, coff + 16) {
            Ok(v) => v as usize,
            Err(e) => return Err(e),
        };
        let optional = coff + 20;
        let magic = match read_u16(bytes, optional) {
            Ok(v) => v,
            Err(e) => return Err(e),
        };
        if magic != 0x20b {
            return Err(
                Error::Unsupported(
                    String::from_str("input is PE32; v0.1 supports PE32+ x86-64 only"),
                ),
            );
        }
        if optional_size < 112 {
            return Err(invalid_pe("optional header is truncated"));
        }
        let image_base = match read_u64(bytes, optional + 24) {
            Ok(v) => v,
            Err(e) => return Err(e),
        };
        let entry_rva = match read_u32(bytes, optional + 16) {
            Ok(v) => v,
            Err(e) => return Err(e),
        };
        let size_of_image = match read_u32(bytes, optional + 56) {
            Ok(v) => v,
            Err(e) => return Err(e),
        };
        if image_base == 0 || size_of_image == 0 {
            return Err(invalid_pe("image base and image size must be non-zero"));
        }
        let directory_count = match read_u32(bytes, optional + 108) {
            Ok(v) => v as usize,
            Err(e) => return Err(e),
        };
        if optional > usize::MAX - optional_size {
            return Err(invalid_pe("section header overflow"));
        }
        let section_offset = optional + optional_size;
        let sections = match Self::read_sections(bytes, section_offset, size_of_image, number_sections) {
            Ok(s) => s,
            Err(e) => return Err(e),
        };
        let exception_directory = if directory_count > IMAGE_DIRECTORY_ENTRY_EXCEPTION {
            if optional > usize::MAX - (112 + IMAGE_DIRECTORY_ENTRY_EXCEPTION * 8) {
                return Err(invalid_pe("data directory overflow"));
            }
            let directory = optional + (112 + IMAGE_DIRECTORY_ENTRY_EXCEPTION * 8);
            let rva = match read_u32(bytes, directory) {
                Ok(v) => v,
                Err(e) => return Err(e),
            };
            let size = match read_u32(bytes, directory + 4) {
                Ok(v) => v,
                Err(e) => return Err(e),
            };
            Some((rva, size))
        } else {
            None
        };
        let image = PeImage {
            bytes: slice_to_vec(bytes),
            image_base,
            entry_rva,
            size_of_image,
            sections,
            exception_directory,
            ranges: Vec::new(),
        };
        proof {
            assert(image@.ranges =~= Seq::<(u32, u32, FunctionSource)>::empty());
        }
        Ok(image)
    }

    /// Reads `count` section headers from the table at `table_offset`.
    fn read_sections(bytes: &[u8], table_offset: usize, size_of_image: u32, count: usize) -> (r:
        Result<Vec<Section>, Error>)
        ensures
            match spec_sections(bytes@, table_offset as int, size_of_image, count as nat) {
                Ok(m) => r matches Ok(v) && v@.map_values(|s: Section| s@) == m,
                Err(f) => r matches Err(e) && e@ == f,
            },
    {
        let mut sections: Vec<Section> = Vec::new();
        let mut index: usize = 0;
        proof {
            assert(sections@.map_values(|s: Section| s@) =~= Seq::<SectionModel>::empty());
        }
        while index < count
            invariant
                index <= count,
                spec_sections(bytes@, table_offset as int, size_of_image, index as nat) == Ok::<
                    Seq<SectionModel>,
                    ErrorModel,
                >(sections@.map_values(|s: Section| s@)),
            decreases count - index,
        {
            let ghost before = sections@;
            match Self::read_section(bytes, table_offset, size_of_image, index) {
                Ok(section) => {
                    sections.push(section);
                    proof {
                        assert(sections@.map_values(|s: Section| s@) =~= before.map_values(
                            |s: Section| s@,
                        ).push(section@));
                    }
                },
                Err(e) => {
                    proof {
                        lemma_sections_stop(
                            bytes@,
                            table_offset as int,
                            size_of_image,
                            index as nat,
                            count as nat,
                        );
                    }
                    return Err(e);
                },
            }
            index = index + 1;
        }
        Ok(sections)
    }

    /// Reads section header `index` of the table at `table_offset`.
    fn read_section(bytes: &[u8], table_offset: usize, size_of_image: u32, index: usize) -> (r:
        Result<Section, Error>)
        ensures
            match spec_section(bytes@, table_offset as int, size_of_image, index as int) {
                Ok(m) => r matches Ok(s) && s@ == m,
                Err(f) => r matches Err(e) && e@ == f,
            },
    {
        let step = match index.checked_mul(40) {
            Some(v) => v,
            None => return Err(invalid_pe("section overflow")),
        };
        let offset = match table_offset.checked_add(step) {
            Some(v) => v,
            None => return Err(invalid_pe("section overflow")),
        };
        let header_end = match offset.checked_add(40) {
            Some(v) => v,
            None => return Err(invalid_pe("section header overflow")),
        };
        if header_end > bytes.len() {
            return Err(invalid_pe("section header is truncated"));
        }
        let header = &bytes[offset..header_end];
        let mut name_end: usize = 0;
        while name_end < 8 && header[name_end] != 0
            invariant
                name_end <= 8,
                header@.len() == 40,
                name_length_from(header@, 0) == name_length_from(header@, name_end as nat),
            decreases 8 - name_end,
        {
            name_end = name_end + 1;
        }
        let name = lossy_utf8(&header[0..name_end]);
        let virtual_size = le_u32_at(bytes, offset + 8);
        let virtual_address = le_u32_at(bytes, offset + 12);
        let raw_size = le_u32_at(bytes, offset + 16);
        let raw_offset = le_u32_at(bytes, offset + 20);
        let characteristics = le_u32_at(bytes, offset + 36);
        let section = Section {
            name,
            virtual_address,
            virtual_size,
            raw_offset,
            raw_size,
            characteristics,
        };
        proof {
            assert(header@ == bytes@.subrange(offset as int, offset + 40));
        }
        let mapped_size = if virtual_size >= raw_size {
            virtual_size
        } else {
            raw_size
        };
        if virtual_address > u32::MAX - mapped_size || virtual_address + mapped_size > size_of_image {
            return Err(invalid_pe("section lies outside the image"));
        }
        if raw_offset > u32::MAX - raw_size || (raw_offset + raw_size) as usize > bytes.len() {
            return Err(invalid_pe("section lies outside the file"));
        }
        Ok(section)
    }
}

} // verus!
