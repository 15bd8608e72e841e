use crate::align::{
    align, indexes_below, lemma_traceback, matched_pairs, source_indexes, target_indexes, traceback,
};
use crate::disasm::{is_call, InstructionModel, NormalizedModel};
use crate::matcher::{lcs, normalized_seq};
use crate::pe::{BasicBlock, BlockModel, Function, FunctionModel};
use crate::text::{concat, decimal, decimal_string, starts_with_text, text_is};
use vstd::prelude::*;

verus! {

/// The semantic meaning of one aligned instruction pair.
#[derive(Clone, Copy, Debug, Eq, PartialEq, Structural)]
pub enum DiffKind {
    /// Instructions are equal after normalization.
    Unchanged,
    /// The instruction operands or mnemonic changed.
    ChangedInstruction,
    /// A scalar or address-like value changed.
    ChangedConstant,
    /// A call instruction changed.
    ChangedCall,
    /// The target contains an inserted instruction.
    Inserted,
    /// The source contains a removed instruction.
    Removed,
}

/// One aligned source and target instruction.
#[derive(Debug)]
pub struct DiffOperation {
    /// Source instruction index, when present.
    pub source_index: Option<usize>,
    /// Target instruction index, when present.
    pub target_index: Option<usize>,
    /// Operation kind.
    pub kind: DiffKind,
    /// Source instruction text, when present.
    pub source: Option<String>,
    /// Target instruction text, when present.
    pub target: Option<String>,
}

/// The mathematical value of a [`DiffOperation`].
pub struct OperationModel {
    pub source_index: Option<usize>,
    pub target_index: Option<usize>,
    pub kind: DiffKind,
    pub source: Option<Seq<char>>,
    pub target: Option<Seq<char>>,
}

/// The view of an optional string.
pub open spec fn text_view(t: Option<String>) -> Option<Seq<char>> {
    match t {
        Some(s) => Some(s@),
        None => None,
    }
}

impl View for DiffOperation {
    type V = OperationModel;

    open spec fn view(&self) -> OperationModel {
        OperationModel {
            source_index: self.source_index,
            target_index: self.target_index,
            kind: self.kind,
            source: text_view(self.source),
            target: text_view(self.target),
        }
    }
}

/// The instruction-level comparison of two functions.
#[derive(Debug)]
pub struct FunctionDiff {
    /// Source function address.
    pub source_address: u64,
    /// Matched target function address.
    pub target_address: u64,
    /// Changed instruction count.
    pub changed_instructions: usize,
    /// Inserted instruction count.
    pub inserted_instructions: usize,
    /// Removed instruction count.
    pub removed_instructions: usize,
    /// Changed scalar or image-address count.
    pub changed_constants: usize,
    /// Changed call count.
    pub changed_calls: usize,
    /// Number of affected basic blocks.
    pub changed_blocks: usize,
    /// Structural changes that do not map to one instruction.
    pub structural_changes: Vec<String>,
    /// Aligned instruction operations.
    pub operations: Vec<DiffOperation>,
}

/// An operand holds a constant: a scalar or an address in the image.
pub open spec fn constant_operand(o: Seq<char>) -> bool {
    ("scalar:"@.len() <= o.len() && o.subrange(0, "scalar:"@.len() as int) == "scalar:"@) || o
        == "image-address"@
}

/// Some operand of the instruction holds a constant.
pub open spec fn has_constant(i: InstructionModel) -> bool {
    exists|k: int|
        0 <= k < i.normalized.operands.len() && constant_operand(#[trigger] i.normalized.operands[k])
}

/// The kind of change between a source and a target instruction that the
/// alignment pairs up without being equal: a call change when either is a
/// call; a constant change when the mnemonics agree and either holds a
/// constant; else an instruction change.
pub open spec fn changed_kind(s: InstructionModel, t: InstructionModel) -> DiffKind {
    if is_call(s.normalized.mnemonic) || is_call(t.normalized.mnemonic) {
        DiffKind::ChangedCall
    } else if s.normalized.mnemonic == t.normalized.mnemonic && (has_constant(s) || has_constant(t)) {
        DiffKind::ChangedConstant
    } else {
        DiffKind::ChangedInstruction
    }
}

/// The operation for aligned equal instructions.
pub open spec fn unchanged_op(src: FunctionModel, tgt: FunctionModel, x: usize, y: usize) -> OperationModel {
    OperationModel {
        source_index: Some(x),
        target_index: Some(y),
        kind: DiffKind::Unchanged,
        source: Some(src.instructions[x as int].text),
        target: Some(tgt.instructions[y as int].text),
    }
}

/// The operation for a removed source instruction paired with an inserted
/// target instruction.
pub open spec fn changed_op(src: FunctionModel, tgt: FunctionModel, x: usize, y: usize) -> OperationModel {
    OperationModel {
        source_index: Some(x),
        target_index: Some(y),
        kind: changed_kind(src.instructions[x as int], tgt.instructions[y as int]),
        source: Some(src.instructions[x as int].text),
        target: Some(tgt.instructions[y as int].text),
    }
}

/// The operation for a removed source instruction.
pub open spec fn removed_op(src: FunctionModel, x: usize) -> OperationModel {
    OperationModel {
        source_index: Some(x),
        target_index: None,
        kind: DiffKind::Removed,
        source: Some(src.instructions[x as int].text),
        target: None,
    }
}

/// The operation for an inserted target instruction.
pub open spec fn inserted_op(tgt: FunctionModel, y: usize) -> OperationModel {
    OperationModel {
        source_index: None,
        target_index: Some(y),
        kind: DiffKind::Inserted,
        source: None,
        target: Some(tgt.instructions[y as int].text),
    }
}

/// The operations of a run of unaligned instructions: removed and inserted
/// instructions pair up in order as changes; the rest are removals, then
/// insertions.
pub open spec fn run_ops(
    src: FunctionModel,
    tgt: FunctionModel,
    removed: Seq<usize>,
    inserted: Seq<usize>,
) -> Seq<OperationModel> {
    let pairs = if removed.len() <= inserted.len() {
        removed.len()
    } else {
        inserted.len()
    };
    Seq::new(pairs, |k: int| changed_op(src, tgt, removed[k], inserted[k])) + Seq::new(
        (removed.len() - pairs) as nat,
        |k: int| removed_op(src, removed[pairs + k]),
    ) + Seq::new((inserted.len() - pairs) as nat, |k: int| inserted_op(tgt, inserted[pairs + k]))
}

/// The operations for the alignment from `index` on, with the removed and
/// inserted instructions of the current run pending.
pub open spec fn ops_from(
    src: FunctionModel,
    tgt: FunctionModel,
    al: Seq<(Option<usize>, Option<usize>)>,
    index: nat,
    removed: Seq<usize>,
    inserted: Seq<usize>,
) -> Seq<OperationModel>
    decreases al.len() - index,
{
    if index >= al.len() {
        run_ops(src, tgt, removed, inserted)
    } else {
        let pair = al[index as int];
        match pair {
            (Some(x), Some(y)) => run_ops(src, tgt, removed, inserted) + seq![
                unchanged_op(src, tgt, x, y),
            ] + ops_from(src, tgt, al, index + 1, seq![], seq![]),
            (Some(x), None) => ops_from(src, tgt, al, index + 1, removed.push(x), inserted),
            (None, Some(y)) => ops_from(src, tgt, al, index + 1, removed, inserted.push(y)),
            (None, None) => ops_from(src, tgt, al, index + 1, removed, inserted),
        }
    }
}

/// The operations of the diff of two functions.
pub open spec fn spec_operations(src: FunctionModel, tgt: FunctionModel) -> Seq<OperationModel> {
    ops_from(
        src,
        tgt,
        traceback(
            normalized_seq(src),
            normalized_seq(tgt),
            src.instructions.len(),
            tgt.instructions.len(),
        ),
        0,
        seq![],
        seq![],
    )
}

/// The number of the first `k` operations whose kind satisfies `p`.
pub open spec fn count_ops(ops: Seq<OperationModel>, p: spec_fn(DiffKind) -> bool, k: nat) -> nat
    decreases k,
{
    if k == 0 || k > ops.len() {
        0
    } else {
        count_ops(ops, p, (k - 1) as nat) + if p(ops[k - 1].kind) {
            1nat
        } else {
            0nat
        }
    }
}

/// A kind of instruction change (not an insertion or removal).
pub open spec fn is_change(k: DiffKind) -> bool {
    k == DiffKind::ChangedInstruction || k == DiffKind::ChangedConstant || k == DiffKind::ChangedCall
}

/// The kind of change of a paired source and target instruction.
fn changed_operation(source: &Function, target: &Function, source_index: usize, target_index: usize) -> (r:
    DiffOperation)
    requires
        source_index < source@.instructions.len(),
        target_index < target@.instructions.len(),
    ensures
        r@ == changed_op(source@, target@, source_index, target_index),
{
    let s = &source.instructions[source_index];
    let t = &target.instructions[target_index];
    assert(source@.instructions[source_index as int] == s@);
    assert(target@.instructions[target_index as int] == t@);
    let kind = if text_is(&s.normalized.mnemonic, "call") || text_is(&t.normalized.mnemonic, "call") {
        DiffKind::ChangedCall
    } else if s.normalized.mnemonic == t.normalized.mnemonic && (holds_constant(s) || holds_constant(t)) {
        DiffKind::ChangedConstant
    } else {
        DiffKind::ChangedInstruction
    };
    DiffOperation {
        source_index: Some(source_index),
        target_index: Some(target_index),
        kind,
        source: Some(s.text.clone()),
        target: Some(t.text.clone()),
    }
}

/// Whether some operand of the instruction holds a constant.
fn holds_constant(i: &crate::disasm::Instruction) -> (r: bool)
    ensures
        r == has_constant(i@),
{
    let mut k: usize = 0;
    while k < i.normalized.operands.len()
        invariant
            k <= i.normalized.operands@.len(),
            forall|j: int| 0 <= j < k ==> !constant_operand(#[trigger] i@.normalized.operands[j]),
        decreases i.normalized.operands@.len() - k,
    {
        let o = &i.normalized.operands[k];
        assert(i@.normalized.operands[k as int] == o@);
        if starts_with_text(o, "scalar:") || text_is(o, "image-address") {
            return true;
        }
        k = k + 1;
    }
    false
}


/// Each index that an alignment pair holds is among its source (or target)
/// indexes.
proof fn lemma_indexes_listed(t: Seq<(Option<usize>, Option<usize>)>)
    ensures
        forall|k: int|
            0 <= k < t.len() && (#[trigger] t[k]).0 is Some ==> source_indexes(t).contains(t[k].0->0),
        forall|k: int|
            0 <= k < t.len() && (#[trigger] t[k]).1 is Some ==> target_indexes(t).contains(t[k].1->0),
    decreases t.len(),
{
    if t.len() > 0 {
        let p = t.drop_last();
        lemma_indexes_listed(p);
        assert forall|k: int| 0 <= k < t.len() && (#[trigger] t[k]).0 is Some implies source_indexes(
            t,
        ).contains(t[k].0->0) by {
            let extra = match t.last().0 {
                Some(x) => seq![x],
                None => Seq::<usize>::empty(),
            };
            assert(source_indexes(t) == source_indexes(p) + extra);
            if k < p.len() {
                assert(t[k] == p[k]);
                let w = choose|w: int| 0 <= w < source_indexes(p).len() && source_indexes(p)[w] == t[k].0->0;
                assert(source_indexes(t)[w] == t[k].0->0);
            } else {
                assert(source_indexes(t)[source_indexes(p).len() as int] == t[k].0->0);
            }
        }
        assert forall|k: int| 0 <= k < t.len() && (#[trigger] t[k]).1 is Some implies target_indexes(
            t,
        ).contains(t[k].1->0) by {
            let extra = match t.last().1 {
                Some(y) => seq![y],
                None => Seq::<usize>::empty(),
            };
            assert(target_indexes(t) == target_indexes(p) + extra);
            if k < p.len() {
                assert(t[k] == p[k]);
                let w = choose|w: int| 0 <= w < target_indexes(p).len() && target_indexes(p)[w] == t[k].1->0;
                assert(target_indexes(t)[w] == t[k].1->0);
            } else {
                assert(target_indexes(t)[target_indexes(p).len() as int] == t[k].1->0);
            }
        }
    }
}

/// Appends the operations of a run of unaligned instructions.
fn push_run(
    source: &Function,
    target: &Function,
    removed: &Vec<usize>,
    inserted: &Vec<usize>,
    ops: &mut Vec<DiffOperation>,
)
    requires
        forall|k: int| 0 <= k < removed@.len() ==> #[trigger] removed@[k] < source@.instructions.len(),
        forall|k: int| 0 <= k < inserted@.len() ==> #[trigger] inserted@[k] < target@.instructions.len(),
    ensures
        final(ops)@.map_values(|o: DiffOperation| o@) == old(ops)@.map_values(|o: DiffOperation| o@)
            + run_ops(source@, target@, removed@, inserted@),
{
    let ghost start = ops@.map_values(|o: DiffOperation| o@);
    let ghost all = run_ops(source@, target@, removed@, inserted@);
    let pairs = if removed.len() <= inserted.len() {
        removed.len()
    } else {
        inserted.len()
    };
    let mut k: usize = 0;
    while k < pairs
        invariant
            pairs <= removed@.len(),
            pairs <= inserted@.len(),
            pairs == if removed@.len() <= inserted@.len() { removed@.len() } else { inserted@.len() },
            forall|k: int| 0 <= k < removed@.len() ==> #[trigger] removed@[k] < source@.instructions.len(),
            forall|k: int| 0 <= k < inserted@.len() ==> #[trigger] inserted@[k] < target@.instructions.len(),
            all == run_ops(source@, target@, removed@, inserted@),
            k <= pairs,
            ops@.map_values(|o: DiffOperation| o@) == start + all.take(k as int),
        decreases pairs - k,
    {
        let op = changed_operation(source, target, removed[k], inserted[k]);
        let ghost before = ops@;
        ops.push(op);
        proof {
            assert(all[k as int] == changed_op(source@, target@, removed@[k as int], inserted@[k as int]));
            assert(ops@.map_values(|o: DiffOperation| o@) =~= before.map_values(|o: DiffOperation| o@).push(op@));
            assert(all.take(k + 1) =~= all.take(k as int).push(all[k as int]));
        }
        k = k + 1;
    }
    let mut r: usize = pairs;
    while r < removed.len()
        invariant
            pairs <= removed@.len(),
            pairs <= inserted@.len(),
            pairs == if removed@.len() <= inserted@.len() { removed@.len() } else { inserted@.len() },
            forall|k: int| 0 <= k < removed@.len() ==> #[trigger] removed@[k] < source@.instructions.len(),
            all == run_ops(source@, target@, removed@, inserted@),
            pairs <= r <= removed@.len(),
            ops@.map_values(|o: DiffOperation| o@) == start + all.take(r as int),
        decreases removed@.len() - r,
    {
        let x = removed[r];
        let s = &source.instructions[x];
        assert(source@.instructions[x as int] == s@);
        let op = DiffOperation {
            source_index: Some(x),
            target_index: None,
            kind: DiffKind::Removed,
            source: Some(s.text.clone()),
            target: None,
        };
        let ghost before = ops@;
        ops.push(op);
        proof {
            assert(all[r as int] == removed_op(source@, removed@[r as int]));
            assert(ops@.map_values(|o: DiffOperation| o@) =~= before.map_values(|o: DiffOperation| o@).push(op@));
            assert(all.take(r + 1) =~= all.take(r as int).push(all[r as int]));
        }
        r = r + 1;
    }
    let mut i: usize = pairs;
    while i < inserted.len()
        invariant
            pairs <= removed@.len(),
            pairs <= inserted@.len(),
            pairs == if removed@.len() <= inserted@.len() { removed@.len() } else { inserted@.len() },
            forall|k: int| 0 <= k < inserted@.len() ==> #[trigger] inserted@[k] < target@.instructions.len(),
            all == run_ops(source@, target@, removed@, inserted@),
            pairs <= i <= inserted@.len(),
            ops@.map_values(|o: DiffOperation| o@) == start + all.take(removed@.len() + i - pairs),
        decreases inserted@.len() - i,
    {
        let y = inserted[i];
        let t = &target.instructions[y];
        assert(target@.instructions[y as int] == t@);
        let op = DiffOperation {
            source_index: None,
            target_index: Some(y),
            kind: DiffKind::Inserted,
            source: None,
            target: Some(t.text.clone()),
        };
        let ghost before = ops@;
        ops.push(op);
        proof {
            let at = removed@.len() + i - pairs;
            assert(all[at] == inserted_op(target@, inserted@[i as int]));
            assert(ops@.map_values(|o: DiffOperation| o@) =~= before.map_values(|o: DiffOperation| o@).push(op@));
            assert(all.take(at + 1) =~= all.take(at).push(all[at]));
        }
        i = i + 1;
    }
    proof {
        assert(all.take(all.len() as int) =~= all);
    }
}

/// The operations of the diff of two functions, from their alignment.
fn operations_of(source: &Function, target: &Function) -> (r: Vec<DiffOperation>)
    ensures
        r@.map_values(|o: DiffOperation| o@) == spec_operations(source@, target@),
{
    let aligned = align(source, target);
    let ghost al = aligned@;
    let n = source.instructions.len();
    let m = target.instructions.len();
    proof {
        assert(normalized_seq(source@).len() == n);
        assert(normalized_seq(target@).len() == m);
        lemma_traceback(
            normalized_seq(source@),
            normalized_seq(target@),
            source@.instructions.len(),
            target@.instructions.len(),
        );
        lemma_indexes_listed(al);
        assert forall|k: int| 0 <= k < al.len() && (#[trigger] al[k]).0 is Some implies al[k].0->0
            < source@.instructions.len() by {
            let w = choose|w: int| 0 <= w < source_indexes(al).len() && source_indexes(al)[w] == al[k].0->0;
        }
        assert forall|k: int| 0 <= k < al.len() && (#[trigger] al[k]).1 is Some implies al[k].1->0
            < target@.instructions.len() by {
            let w = choose|w: int| 0 <= w < target_indexes(al).len() && target_indexes(al)[w] == al[k].1->0;
        }
    }
    let mut ops: Vec<DiffOperation> = Vec::new();
    let mut removed: Vec<usize> = Vec::new();
    let mut inserted: Vec<usize> = Vec::new();
    let mut index: usize = 0;
    while index < aligned.len()
        invariant
            al == aligned@,
            index <= al.len(),
            forall|k: int| 0 <= k < al.len() && (#[trigger] al[k]).0 is Some ==> al[k].0->0 < source@.instructions.len(),
            forall|k: int| 0 <= k < al.len() && (#[trigger] al[k]).1 is Some ==> al[k].1->0 < target@.instructions.len(),
            forall|k: int| 0 <= k < removed@.len() ==> #[trigger] removed@[k] < source@.instructions.len(),
            forall|k: int| 0 <= k < inserted@.len() ==> #[trigger] inserted@[k] < target@.instructions.len(),
            ops@.map_values(|o: DiffOperation| o@) + ops_from(source@, target@, al, index as nat, removed@, inserted@)
                == ops_from(source@, target@, al, 0, seq![], seq![]),
        decreases al.len() - index,
    {
        let ghost before = ops@.map_values(|o: DiffOperation| o@);
        match aligned[index] {
            (Some(x), Some(y)) => {
                assert(al[index as int].0 is Some);
                assert(al[index as int].1 is Some);
                push_run(source, target, &removed, &inserted, &mut ops);
                let s = &source.instructions[x];
                let t = &target.instructions[y];
                assert(source@.instructions[x as int] == s@);
                assert(target@.instructions[y as int] == t@);
                let op = DiffOperation {
                    source_index: Some(x),
                    target_index: Some(y),
                    kind: DiffKind::Unchanged,
                    source: Some(s.text.clone()),
                    target: Some(t.text.clone()),
                };
                let ghost mid = ops@;
                ops.push(op);
                proof {
                    assert(ops@.map_values(|o: DiffOperation| o@) =~= mid.map_values(|o: DiffOperation| o@).push(op@));
                    let run = run_ops(source@, target@, removed@, inserted@);
                    let rest = ops_from(source@, target@, al, (index + 1) as nat, seq![], seq![]);
                    assert(ops_from(source@, target@, al, index as nat, removed@, inserted@) == run
                        + seq![unchanged_op(source@, target@, x, y)] + rest);
                    assert(ops@.map_values(|o: DiffOperation| o@) + rest =~= before + (run + seq![unchanged_op(source@, target@, x, y)] + rest));
                }
                removed = Vec::new();
                inserted = Vec::new();
            },
            (Some(x), None) => {
                assert(al[index as int].0 is Some);
                removed.push(x);
            },
            (None, Some(y)) => {
                assert(al[index as int].1 is Some);
                inserted.push(y);
            },
            (None, None) => {},
        }
        index = index + 1;
    }
    let ghost before = ops@.map_values(|o: DiffOperation| o@);
    push_run(source, target, &removed, &inserted, &mut ops);
    ops
}


/// The numbers of changed, inserted, removed, constant-changed and
/// call-changed operations.
fn count_operations(ops: &Vec<DiffOperation>) -> (r: (usize, usize, usize, usize, usize))
    ensures
        r.0 == count_ops(ops@.map_values(|o: DiffOperation| o@), |k: DiffKind| is_change(k), ops@.len()),
        r.1 == count_ops(ops@.map_values(|o: DiffOperation| o@), |k: DiffKind| k == DiffKind::Inserted, ops@.len()),
        r.2 == count_ops(ops@.map_values(|o: DiffOperation| o@), |k: DiffKind| k == DiffKind::Removed, ops@.len()),
        r.3 == count_ops(ops@.map_values(|o: DiffOperation| o@), |k: DiffKind| k == DiffKind::ChangedConstant, ops@.len()),
        r.4 == count_ops(ops@.map_values(|o: DiffOperation| o@), |k: DiffKind| k == DiffKind::ChangedCall, ops@.len()),
{
    let ghost v = ops@.map_values(|o: DiffOperation| o@);
    let mut changed: usize = 0;
    let mut inserted: usize = 0;
    let mut removed: usize = 0;
    let mut constants: usize = 0;
    let mut calls: usize = 0;
    let mut i: usize = 0;
    while i < ops.len()
        invariant
            v == ops@.map_values(|o: DiffOperation| o@),
            i <= ops@.len(),
            changed <= i && inserted <= i && removed <= i && constants <= i && calls <= i,
            changed == count_ops(v, |k: DiffKind| is_change(k), i as nat),
            inserted == count_ops(v, |k: DiffKind| k == DiffKind::Inserted, i as nat),
            removed == count_ops(v, |k: DiffKind| k == DiffKind::Removed, i as nat),
            constants == count_ops(v, |k: DiffKind| k == DiffKind::ChangedConstant, i as nat),
            calls == count_ops(v, |k: DiffKind| k == DiffKind::ChangedCall, i as nat),
        decreases ops@.len() - i,
    {
        let kind = ops[i].kind;
        assert(v[i as int].kind == kind);
        match kind {
            DiffKind::ChangedInstruction => {
                changed = changed + 1;
            },
            DiffKind::ChangedConstant => {
                changed = changed + 1;
                constants = constants + 1;
            },
            DiffKind::ChangedCall => {
                changed = changed + 1;
                calls = calls + 1;
            },
            DiffKind::Inserted => {
                inserted = inserted + 1;
            },
            DiffKind::Removed => {
                removed = removed + 1;
            },
            DiffKind::Unchanged => {},
        }
        i = i + 1;
    }
    (changed, inserted, removed, constants, calls)
}

/// The number of control-flow edges of the first `k` blocks.
pub open spec fn edges(blocks: Seq<BlockModel>, k: nat) -> nat
    decreases k,
{
    if k == 0 || k > blocks.len() {
        0
    } else {
        edges(blocks, (k - 1) as nat) + blocks[k - 1].successors.len()
    }
}

/// The number of control-flow edges of a function.
pub open spec fn edge_count(f: FunctionModel) -> nat {
    edges(f.blocks, f.blocks.len())
}

/// The text `label: a -> b`.
pub open spec fn change_text(label: Seq<char>, a: nat, b: nat) -> Seq<char> {
    label + ": "@ + decimal(a) + " -> "@ + decimal(b)
}

/// The change line for a count, when it changed.
pub open spec fn change_if(label: Seq<char>, a: nat, b: nat) -> Seq<Seq<char>> {
    if a != b {
        seq![change_text(label, a, b)]
    } else {
        seq![]
    }
}

/// The structural changes of two functions: their block, edge, call,
/// conditional-branch and return counts, where they differ.
pub open spec fn spec_structural_changes(src: FunctionModel, tgt: FunctionModel) -> Seq<Seq<char>> {
    change_if("blocks"@, src.blocks.len(), tgt.blocks.len()) + change_if(
        "edges"@,
        edge_count(src),
        edge_count(tgt),
    ) + change_if("calls"@, src.call_count as nat, tgt.call_count as nat) + change_if(
        "conditional branches"@,
        src.conditional_branch_count as nat,
        tgt.conditional_branch_count as nat,
    ) + change_if("returns"@, src.return_count as nat, tgt.return_count as nat)
}

/// The number of control-flow edges of the blocks.
fn count_edges(blocks: &Vec<BasicBlock>) -> (r: usize)
    requires
        edges(blocks@.map_values(|b: BasicBlock| b@), blocks@.len()) <= usize::MAX,
    ensures
        r == edges(blocks@.map_values(|b: BasicBlock| b@), blocks@.len()),
{
    let ghost v = blocks@.map_values(|b: BasicBlock| b@);
    let mut total: usize = 0;
    let mut i: usize = 0;
    while i < blocks.len()
        invariant
            v == blocks@.map_values(|b: BasicBlock| b@),
            edges(v, blocks@.len()) <= usize::MAX,
            i <= blocks@.len(),
            total == edges(v, i as nat),
        decreases blocks@.len() - i,
    {
        proof {
            lemma_edges_monotone(v, (i + 1) as nat, blocks@.len());
        }
        assert(v[i as int] == blocks@[i as int]@);
        total = total + blocks[i].successors.len();
        i = i + 1;
    }
    total
}

/// Edge counts grow with the number of blocks counted.
proof fn lemma_edges_monotone(blocks: Seq<BlockModel>, j: nat, k: nat)
    requires
        j <= k <= blocks.len(),
    ensures
        edges(blocks, j) <= edges(blocks, k),
    decreases k,
{
    if j < k {
        lemma_edges_monotone(blocks, j, (k - 1) as nat);
    }
}

/// Appends the line `label: a -> b` when `a` and `b` differ.
fn push_change(changes: &mut Vec<String>, label: &str, a: usize, b: usize)
    ensures
        final(changes)@.map_values(|s: String| s@) == old(changes)@.map_values(|s: String| s@)
            + change_if(label@, a as nat, b as nat),
{
    let ghost before = changes@;
    if a != b {
        let head = concat(label, ": ");
        let with_a = concat(head.as_str(), decimal_string(a as u64).as_str());
        let arrow = concat(with_a.as_str(), " -> ");
        let line = concat(arrow.as_str(), decimal_string(b as u64).as_str());
        changes.push(line);
        proof {
            assert(changes@.map_values(|s: String| s@) =~= before.map_values(|s: String| s@).push(line@));
        }
    } else {
        assert(changes@.map_values(|s: String| s@) =~= before.map_values(|s: String| s@) + Seq::<Seq<char>>::empty());
    }
}

/// The structural changes between two functions.
fn structural_changes(source: &Function, target: &Function) -> (r: Vec<String>)
    requires
        edge_count(source@) <= usize::MAX,
        edge_count(target@) <= usize::MAX,
    ensures
        r@.map_values(|s: String| s@) == spec_structural_changes(source@, target@),
{
    let mut changes: Vec<String> = Vec::new();
    assert(changes@.map_values(|s: String| s@) =~= Seq::<Seq<char>>::empty());
    push_change(&mut changes, "blocks", source.blocks.len(), target.blocks.len());
    let source_edges = count_edges(&source.blocks);
    let target_edges = count_edges(&target.blocks);
    push_change(&mut changes, "edges", source_edges, target_edges);
    push_change(&mut changes, "calls", source.call_count, target.call_count);
    push_change(
        &mut changes,
        "conditional branches",
        source.conditional_branch_count,
        target.conditional_branch_count,
    );
    push_change(&mut changes, "returns", source.return_count, target.return_count);
    proof {
        assert(changes@.map_values(|s: String| s@) =~= spec_structural_changes(source@, target@));
    }
    changes
}


/// The index of the first block at or after `i` that holds instruction `x`.
pub open spec fn block_holding(blocks: Seq<BlockModel>, x: usize, i: nat) -> Option<nat>
    decreases blocks.len() - i,
{
    if i >= blocks.len() {
        None
    } else if blocks[i as int].instructions.contains(x) {
        Some(i)
    } else {
        block_holding(blocks, x, i + 1)
    }
}

/// The index an operation holds on one side: the source index when
/// `source_side`, else the target index.
pub open spec fn side_index(op: OperationModel, source_side: bool) -> Option<usize> {
    if source_side {
        op.source_index
    } else {
        op.target_index
    }
}

/// Block `b` holds the instruction of some operation among the first `k`
/// that is not unchanged, on the given side.
pub open spec fn touched(blocks: Seq<BlockModel>, ops: Seq<OperationModel>, source_side: bool, k: nat, b: nat) -> bool {
    exists|i: int|
        0 <= i < k && (#[trigger] ops[i]).kind != DiffKind::Unchanged && match side_index(ops[i], source_side) {
            Some(x) => block_holding(blocks, x, 0) == Some(b),
            None => false,
        }
}

/// The number of the first `n` blocks that the changed operations touch.
pub open spec fn touched_count(blocks: Seq<BlockModel>, ops: Seq<OperationModel>, source_side: bool, n: nat) -> nat
    decreases n,
{
    if n == 0 {
        0
    } else {
        touched_count(blocks, ops, source_side, (n - 1) as nat) + if touched(
            blocks,
            ops,
            source_side,
            ops.len(),
            (n - 1) as nat,
        ) {
            1nat
        } else {
            0nat
        }
    }
}

/// The number of affected basic blocks: the larger of the numbers of
/// source and target blocks that hold a changed instruction, and the
/// difference of the block counts.
pub open spec fn spec_changed_blocks(src: FunctionModel, tgt: FunctionModel, ops: Seq<OperationModel>) -> nat {
    let a = touched_count(src.blocks, ops, true, src.blocks.len());
    let b = touched_count(tgt.blocks, ops, false, tgt.blocks.len());
    let d = if src.blocks.len() >= tgt.blocks.len() {
        (src.blocks.len() - tgt.blocks.len()) as nat
    } else {
        (tgt.blocks.len() - src.blocks.len()) as nat
    };
    let ab = if a >= b {
        a
    } else {
        b
    };
    if ab >= d {
        ab
    } else {
        d
    }
}

/// Whether the vector holds `x`.
fn holds(v: &Vec<usize>, x: usize) -> (r: bool)
    ensures
        r == v@.contains(x),
{
    let mut i: usize = 0;
    while i < v.len()
        invariant
            i <= v@.len(),
            forall|k: int| 0 <= k < i ==> v@[k] != x,
        decreases v@.len() - i,
    {
        if v[i] == x {
            return true;
        }
        i = i + 1;
    }
    false
}

/// The index of the first block that holds instruction `x`.
fn find_block(blocks: &Vec<BasicBlock>, x: usize) -> (r: Option<usize>)
    ensures
        r matches Some(b) ==> block_holding(blocks@.map_values(|b: BasicBlock| b@), x, 0) == Some(b as nat),
        r is None ==> block_holding(blocks@.map_values(|b: BasicBlock| b@), x, 0) is None,
{
    let ghost v = blocks@.map_values(|b: BasicBlock| b@);
    let mut i: usize = 0;
    while i < blocks.len()
        invariant
            v == blocks@.map_values(|b: BasicBlock| b@),
            i <= blocks@.len(),
            block_holding(v, x, 0) == block_holding(v, x, i as nat),
        decreases blocks@.len() - i,
    {
        assert(v[i as int] == blocks@[i as int]@);
        if holds(&blocks[i].instructions, x) {
            return Some(i);
        }
        i = i + 1;
    }
    None
}

/// A block found for an instruction is one of the blocks.
proof fn lemma_block_holding(blocks: Seq<BlockModel>, x: usize, i: nat)
    ensures
        block_holding(blocks, x, i) matches Some(b) ==> b < blocks.len(),
    decreases blocks.len() - i,
{
    if i < blocks.len() {
        lemma_block_holding(blocks, x, i + 1);
    }
}

/// The number of blocks, on one side, that hold the instruction of a
/// changed operation.
fn touched_blocks(blocks: &Vec<BasicBlock>, ops: &Vec<DiffOperation>, source_side: bool) -> (r: usize)
    ensures
        r == touched_count(
            blocks@.map_values(|b: BasicBlock| b@),
            ops@.map_values(|o: DiffOperation| o@),
            source_side,
            blocks@.len(),
        ),
{
    let ghost bv = blocks@.map_values(|b: BasicBlock| b@);
    let ghost ov = ops@.map_values(|o: DiffOperation| o@);
    let mut marks: Vec<bool> = Vec::new();
    let mut b: usize = 0;
    while b < blocks.len()
        invariant
            b <= blocks@.len(),
            marks@.len() == b,
            forall|k: int| 0 <= k < b ==> !marks@[k],
        decreases blocks@.len() - b,
    {
        marks.push(false);
        b = b + 1;
    }
    let mut i: usize = 0;
    while i < ops.len()
        invariant
            bv == blocks@.map_values(|b: BasicBlock| b@),
            ov == ops@.map_values(|o: DiffOperation| o@),
            i <= ops@.len(),
            marks@.len() == blocks@.len(),
            forall|k: int| 0 <= k < marks@.len() ==> #[trigger] marks@[k] == touched(bv, ov, source_side, i as nat, k as nat),
        decreases ops@.len() - i,
    {
        let op = &ops[i];
        assert(ov[i as int] == op@);
        let index = if source_side {
            op.source_index
        } else {
            op.target_index
        };
        let ghost before = marks@;
        if op.kind != DiffKind::Unchanged {
            match index {
                Some(x) => {
                    proof {
                        lemma_block_holding(bv, x, 0);
                    }
                    match find_block(blocks, x) {
                        Some(block) => {
                            marks.set(block, true);
                        },
                        None => {},
                    }
                },
                None => {},
            }
        }
        proof {
            assert forall|k: int| 0 <= k < marks@.len() implies #[trigger] marks@[k] == touched(
                bv,
                ov,
                source_side,
                (i + 1) as nat,
                k as nat,
            ) by {
                if touched(bv, ov, source_side, (i + 1) as nat, k as nat) && !touched(bv, ov, source_side, i as nat, k as nat) {
                    let w = choose|w: int|
                        0 <= w < i + 1 && (#[trigger] ov[w]).kind != DiffKind::Unchanged && match side_index(ov[w], source_side) {
                            Some(x) => block_holding(bv, x, 0) == Some(k as nat),
                            None => false,
                        };
                    assert(w == i);
                }
                if touched(bv, ov, source_side, i as nat, k as nat) {
                    let w = choose|w: int|
                        0 <= w < i && (#[trigger] ov[w]).kind != DiffKind::Unchanged && match side_index(ov[w], source_side) {
                            Some(x) => block_holding(bv, x, 0) == Some(k as nat),
                            None => false,
                        };
                    assert(0 <= w < i + 1);
                }
            }
        }
        i = i + 1;
    }
    let mut count: usize = 0;
    let mut k: usize = 0;
    while k < marks.len()
        invariant
            bv == blocks@.map_values(|b: BasicBlock| b@),
            ov == ops@.map_values(|o: DiffOperation| o@),
            marks@.len() == blocks@.len(),
            forall|j: int| 0 <= j < marks@.len() ==> #[trigger] marks@[j] == touched(bv, ov, source_side, ov.len(), j as nat),
            k <= marks@.len(),
            count <= k,
            count == touched_count(bv, ov, source_side, k as nat),
        decreases marks@.len() - k,
    {
        if marks[k] {
            count = count + 1;
        }
        k = k + 1;
    }
    count
}

/// The number of affected basic blocks.
fn changed_blocks(source: &Function, target: &Function, ops: &Vec<DiffOperation>) -> (r: usize)
    ensures
        r == spec_changed_blocks(source@, target@, ops@.map_values(|o: DiffOperation| o@)),
{
    let a = touched_blocks(&source.blocks, ops, true);
    let b = touched_blocks(&target.blocks, ops, false);
    let d = if source.blocks.len() >= target.blocks.len() {
        source.blocks.len() - target.blocks.len()
    } else {
        target.blocks.len() - source.blocks.len()
    };
    let ab = if a >= b {
        a
    } else {
        b
    };
    if ab >= d {
        ab
    } else {
        d
    }
}

/// The diff of two functions, as the spec functions above describe it.
pub open spec fn diff_matches(src: FunctionModel, tgt: FunctionModel, d: FunctionDiff) -> bool {
    let ops = spec_operations(src, tgt);
    &&& d.operations@.map_values(|o: DiffOperation| o@) == ops
    &&& d.source_address == src.address
    &&& d.target_address == tgt.address
    &&& d.changed_instructions == count_ops(ops, |k: DiffKind| is_change(k), ops.len())
    &&& d.inserted_instructions == count_ops(ops, |k: DiffKind| k == DiffKind::Inserted, ops.len())
    &&& d.removed_instructions == count_ops(ops, |k: DiffKind| k == DiffKind::Removed, ops.len())
    &&& d.changed_constants == count_ops(ops, |k: DiffKind| k == DiffKind::ChangedConstant, ops.len())
    &&& d.changed_calls == count_ops(ops, |k: DiffKind| k == DiffKind::ChangedCall, ops.len())
    &&& d.changed_blocks == spec_changed_blocks(src, tgt, ops)
    &&& d.structural_changes@.map_values(|s: String| s@) == spec_structural_changes(src, tgt)
}

/// Compare two decoded functions: align their normalized instructions,
/// classify each aligned pair, and count the changes.
pub fn diff_functions(source: &Function, target: &Function) -> (r: FunctionDiff)
    requires
        edge_count(source@) <= usize::MAX,
        edge_count(target@) <= usize::MAX,
    ensures
        diff_matches(source@, target@, r),
{
    let operations = operations_of(source, target);
    let (changed_instructions, inserted_instructions, removed_instructions, changed_constants, changed_calls) =
        count_operations(&operations);
    let structural_changes = structural_changes(source, target);
    let changed_blocks = changed_blocks(source, target, &operations);
    FunctionDiff {
        source_address: source.address,
        target_address: target.address,
        changed_instructions,
        inserted_instructions,
        removed_instructions,
        changed_constants,
        changed_calls,
        changed_blocks,
        structural_changes,
        operations,
    }
}


/// The source indexes of a list of operations, in order.
pub open spec fn op_sources(ops: Seq<OperationModel>) -> Seq<usize>
    decreases ops.len(),
{
    if ops.len() == 0 {
        seq![]
    } else {
        op_sources(ops.drop_last()) + match ops.last().source_index {
            Some(x) => seq![x],
            None => seq![],
        }
    }
}

/// The target indexes of a list of operations, in order.
pub open spec fn op_targets(ops: Seq<OperationModel>) -> Seq<usize>
    decreases ops.len(),
{
    if ops.len() == 0 {
        seq![]
    } else {
        op_targets(ops.drop_last()) + match ops.last().target_index {
            Some(y) => seq![y],
            None => seq![],
        }
    }
}

proof fn lemma_op_indexes_append(a: Seq<OperationModel>, b: Seq<OperationModel>)
    ensures
        op_sources(a + b) == op_sources(a) + op_sources(b),
        op_targets(a + b) == op_targets(a) + op_targets(b),
    decreases b.len(),
{
    if b.len() == 0 {
        assert(a + b =~= a);
        assert(op_sources(a) + op_sources(b) =~= op_sources(a));
        assert(op_targets(a) + op_targets(b) =~= op_targets(a));
    } else {
        lemma_op_indexes_append(a, b.drop_last());
        assert((a + b).drop_last() =~= a + b.drop_last());
        assert((a + b).last() == b.last());
        assert(op_sources(a + b) =~= op_sources(a) + op_sources(b));
        assert(op_targets(a + b) =~= op_targets(a) + op_targets(b));
    }
}

/// Operations that each hold a source index, the `k`-th holding `xs[k]`,
/// list exactly `xs`; operations that hold none list nothing.
proof fn lemma_op_sources_of(ops: Seq<OperationModel>, xs: Seq<usize>)
    requires
        ops.len() == xs.len() || xs.len() == 0,
        xs.len() == 0 ==> forall|k: int| 0 <= k < ops.len() ==> (#[trigger] ops[k]).source_index is None,
        xs.len() > 0 ==> forall|k: int| 0 <= k < ops.len() ==> (#[trigger] ops[k]).source_index == Some(xs[k]),
    ensures
        op_sources(ops) == xs,
    decreases ops.len(),
{
    if ops.len() > 0 {
        let p = ops.drop_last();
        if xs.len() == 0 {
            assert forall|k: int| 0 <= k < p.len() implies (#[trigger] p[k]).source_index is None by {
                assert(p[k] == ops[k]);
            }
            lemma_op_sources_of(p, xs);
            assert(ops.last() == ops[ops.len() - 1]);
            assert(op_sources(ops) =~= xs);
        } else {
            let q = xs.drop_last();
            if q.len() == 0 {
                assert(p.len() == 0);
                assert(op_sources(p) =~= q);
            } else {
                assert forall|k: int| 0 <= k < p.len() implies (#[trigger] p[k]).source_index == Some(q[k]) by {
                    assert(p[k] == ops[k]);
                }
                lemma_op_sources_of(p, q);
            }
            assert(ops.last() == ops[ops.len() - 1]);
            assert(op_sources(ops) =~= xs);
        }
    } else {
        assert(op_sources(ops) =~= xs);
    }
}

/// The target-index counterpart of [`lemma_op_sources_of`].
proof fn lemma_op_targets_of(ops: Seq<OperationModel>, ys: Seq<usize>)
    requires
        ops.len() == ys.len() || ys.len() == 0,
        ys.len() == 0 ==> forall|k: int| 0 <= k < ops.len() ==> (#[trigger] ops[k]).target_index is None,
        ys.len() > 0 ==> forall|k: int| 0 <= k < ops.len() ==> (#[trigger] ops[k]).target_index == Some(ys[k]),
    ensures
        op_targets(ops) == ys,
    decreases ops.len(),
{
    if ops.len() > 0 {
        let p = ops.drop_last();
        if ys.len() == 0 {
            assert forall|k: int| 0 <= k < p.len() implies (#[trigger] p[k]).target_index is None by {
                assert(p[k] == ops[k]);
            }
            lemma_op_targets_of(p, ys);
            assert(ops.last() == ops[ops.len() - 1]);
            assert(op_targets(ops) =~= ys);
        } else {
            let q = ys.drop_last();
            if q.len() == 0 {
                assert(p.len() == 0);
                assert(op_targets(p) =~= q);
            } else {
                assert forall|k: int| 0 <= k < p.len() implies (#[trigger] p[k]).target_index == Some(q[k]) by {
                    assert(p[k] == ops[k]);
                }
                lemma_op_targets_of(p, q);
            }
            assert(ops.last() == ops[ops.len() - 1]);
            assert(op_targets(ops) =~= ys);
        }
    } else {
        assert(op_targets(ops) =~= ys);
    }
}

/// A run of unaligned instructions lists its removed instructions as
/// source indexes and its inserted ones as target indexes, and holds no
/// unchanged operation.
proof fn lemma_run_indexes(src: FunctionModel, tgt: FunctionModel, removed: Seq<usize>, inserted: Seq<usize>)
    ensures
        op_sources(run_ops(src, tgt, removed, inserted)) == removed,
        op_targets(run_ops(src, tgt, removed, inserted)) == inserted,
        count_ops(
            run_ops(src, tgt, removed, inserted),
            |k: DiffKind| k == DiffKind::Unchanged,
            run_ops(src, tgt, removed, inserted).len(),
        ) == 0,
{
    let pairs = if removed.len() <= inserted.len() {
        removed.len()
    } else {
        inserted.len()
    };
    let a = Seq::new(pairs, |k: int| changed_op(src, tgt, removed[k], inserted[k]));
    let b = Seq::new((removed.len() - pairs) as nat, |k: int| removed_op(src, removed[pairs + k]));
    let c = Seq::new((inserted.len() - pairs) as nat, |k: int| inserted_op(tgt, inserted[pairs + k]));
    assert(run_ops(src, tgt, removed, inserted) == a + b + c);
    lemma_op_indexes_append(a, b);
    lemma_op_indexes_append(a + b, c);
    lemma_op_sources_of(a, removed.take(pairs as int));
    lemma_op_targets_of(a, inserted.take(pairs as int));
    lemma_op_sources_of(b, removed.skip(pairs as int));
    lemma_op_targets_of(b, seq![]);
    lemma_op_sources_of(c, seq![]);
    lemma_op_targets_of(c, inserted.skip(pairs as int));
    assert(removed.take(pairs as int) + removed.skip(pairs as int) + seq![] =~= removed);
    assert(inserted.take(pairs as int) + seq![] + inserted.skip(pairs as int) =~= inserted);
    let all = a + b + c;
    assert forall|k: int| 0 <= k < all.len() implies (#[trigger] all[k]).kind != DiffKind::Unchanged by {
        if k < a.len() {
            assert(all[k] == a[k]);
        } else if k < a.len() + b.len() {
            assert(all[k] == b[k - a.len()]);
        } else {
            assert(all[k] == c[k - a.len() - b.len()]);
        }
    }
    lemma_count_none(all, |k: DiffKind| k == DiffKind::Unchanged, all.len());
}

/// No operation satisfies `p`: none is counted.
proof fn lemma_count_none(ops: Seq<OperationModel>, p: spec_fn(DiffKind) -> bool, k: nat)
    requires
        k <= ops.len(),
        forall|i: int| 0 <= i < ops.len() ==> !p(#[trigger] ops[i].kind),
    ensures
        count_ops(ops, p, k) == 0,
    decreases k,
{
    if k > 0 {
        lemma_count_none(ops, p, (k - 1) as nat);
    }
}

/// Counting over a concatenation adds up the counts of the parts.
proof fn lemma_count_append(a: Seq<OperationModel>, b: Seq<OperationModel>, p: spec_fn(DiffKind) -> bool, j: nat)
    requires
        j <= b.len(),
    ensures
        count_ops(a + b, p, a.len() + j) == count_ops(a, p, a.len()) + count_ops(b, p, j),
    decreases j,
{
    if j == 0 {
        lemma_count_prefix(a, b, p, a.len());
    } else {
        lemma_count_append(a, b, p, (j - 1) as nat);
        assert((a + b)[a.len() + j - 1] == b[j - 1]);
    }
}

/// Counting the first `i` operations of `a + b`, with `i` within `a`,
/// counts the first `i` of `a`.
proof fn lemma_count_prefix(a: Seq<OperationModel>, b: Seq<OperationModel>, p: spec_fn(DiffKind) -> bool, i: nat)
    requires
        i <= a.len(),
    ensures
        count_ops(a + b, p, i) == count_ops(a, p, i),
    decreases i,
{
    if i > 0 {
        lemma_count_prefix(a, b, p, (i - 1) as nat);
        assert((a + b)[i - 1] == a[i - 1]);
    }
}

proof fn lemma_alignment_append(s: Seq<(Option<usize>, Option<usize>)>, t: Seq<(Option<usize>, Option<usize>)>)
    ensures
        source_indexes(s + t) == source_indexes(s) + source_indexes(t),
        target_indexes(s + t) == target_indexes(s) + target_indexes(t),
        matched_pairs(s + t) == matched_pairs(s) + matched_pairs(t),
    decreases t.len(),
{
    if t.len() == 0 {
        assert(s + t =~= s);
        assert(source_indexes(s) + source_indexes(t) =~= source_indexes(s));
        assert(target_indexes(s) + target_indexes(t) =~= target_indexes(s));
    } else {
        lemma_alignment_append(s, t.drop_last());
        assert((s + t).drop_last() =~= s + t.drop_last());
        assert((s + t).last() == t.last());
        assert(source_indexes(s + t) =~= source_indexes(s) + source_indexes(t));
        assert(target_indexes(s + t) =~= target_indexes(s) + target_indexes(t));
    }
}

/// The operations from alignment position `index` on list the pending
/// removed instructions and then the source indexes of the rest of the
/// alignment (likewise for targets), and hold as many unchanged operations
/// as the rest of the alignment holds pairs.
proof fn lemma_ops_from_indexes(
    src: FunctionModel,
    tgt: FunctionModel,
    al: Seq<(Option<usize>, Option<usize>)>,
    index: nat,
    removed: Seq<usize>,
    inserted: Seq<usize>,
)
    requires
        index <= al.len(),
    ensures
        op_sources(ops_from(src, tgt, al, index, removed, inserted)) == removed + source_indexes(
            al.subrange(index as int, al.len() as int),
        ),
        op_targets(ops_from(src, tgt, al, index, removed, inserted)) == inserted + target_indexes(
            al.subrange(index as int, al.len() as int),
        ),
        count_ops(
            ops_from(src, tgt, al, index, removed, inserted),
            |k: DiffKind| k == DiffKind::Unchanged,
            ops_from(src, tgt, al, index, removed, inserted).len(),
        ) == matched_pairs(al.subrange(index as int, al.len() as int)),
    decreases al.len() - index,
{
    let unchanged = |k: DiffKind| k == DiffKind::Unchanged;
    let rest = al.subrange(index as int, al.len() as int);
    lemma_run_indexes(src, tgt, removed, inserted);
    if index >= al.len() {
        assert(rest.len() == 0);
        assert(removed + source_indexes(rest) =~= removed);
        assert(inserted + target_indexes(rest) =~= inserted);
    } else {
        let pair = al[index as int];
        let tail = al.subrange((index + 1) as int, al.len() as int);
        assert(rest =~= seq![pair] + tail);
        lemma_alignment_append(seq![pair], tail);
        let none = Seq::<(Option<usize>, Option<usize>)>::empty();
        assert(seq![pair].drop_last() =~= none);
        assert(seq![pair].last() == pair);
        assert(source_indexes(none) == Seq::<usize>::empty());
        assert(target_indexes(none) == Seq::<usize>::empty());
        assert(matched_pairs(none) == 0);
        assert(matched_pairs(seq![pair]) == if pair.0 is Some && pair.1 is Some {
            1nat
        } else {
            0nat
        });
        assert(source_indexes(seq![pair]) =~= match pair.0 {
            Some(x) => seq![x],
            None => Seq::<usize>::empty(),
        });
        assert(target_indexes(seq![pair]) =~= match pair.1 {
            Some(y) => seq![y],
            None => Seq::<usize>::empty(),
        });
        match pair {
            (Some(x), Some(y)) => {
                lemma_ops_from_indexes(src, tgt, al, index + 1, seq![], seq![]);
                let run = run_ops(src, tgt, removed, inserted);
                let one = seq![unchanged_op(src, tgt, x, y)];
                let after = ops_from(src, tgt, al, index + 1, seq![], seq![]);
                lemma_op_indexes_append(run, one);
                lemma_op_indexes_append(run + one, after);
                assert(one.drop_last() =~= Seq::<OperationModel>::empty());
                assert(one.last() == unchanged_op(src, tgt, x, y));
                assert(op_sources(Seq::<OperationModel>::empty()) == Seq::<usize>::empty());
                assert(op_targets(Seq::<OperationModel>::empty()) == Seq::<usize>::empty());
                assert(op_sources(one) =~= seq![x]);
                assert(op_targets(one) =~= seq![y]);
                assert(ops_from(src, tgt, al, index, removed, inserted) == run + one + after);
                assert(seq![] + source_indexes(tail) =~= source_indexes(tail));
                assert(seq![] + target_indexes(tail) =~= target_indexes(tail));
                assert(op_sources(run + one + after) =~= removed + source_indexes(rest));
                assert(op_targets(run + one + after) =~= inserted + target_indexes(rest));
                lemma_count_append(run, one, unchanged, one.len());
                lemma_count_append(run + one, after, unchanged, after.len());
                assert(one[0].kind == DiffKind::Unchanged);
                assert(count_ops(one, unchanged, 0) == 0);
                assert(count_ops(one, unchanged, 1) == 1);
                assert(count_ops(run + one + after, unchanged, (run + one + after).len()) == 1 + matched_pairs(tail));
            },
            (Some(x), None) => {
                lemma_ops_from_indexes(src, tgt, al, index + 1, removed.push(x), inserted);
                assert(matched_pairs(rest) == matched_pairs(tail));
                assert(removed.push(x) + source_indexes(tail) =~= removed + source_indexes(rest));
                assert(inserted + target_indexes(tail) =~= inserted + target_indexes(rest));
            },
            (None, Some(y)) => {
                lemma_ops_from_indexes(src, tgt, al, index + 1, removed, inserted.push(y));
                assert(removed + source_indexes(tail) =~= removed + source_indexes(rest));
                assert(inserted.push(y) + target_indexes(tail) =~= inserted + target_indexes(rest));
            },
            (None, None) => {
                lemma_ops_from_indexes(src, tgt, al, index + 1, removed, inserted);
                assert(removed + source_indexes(tail) =~= removed + source_indexes(rest));
                assert(inserted + target_indexes(tail) =~= inserted + target_indexes(rest));
            },
        }
    }
}

/// The diff lists every source instruction exactly once and in order, and
/// every target instruction exactly once and in order, and reports as many
/// unchanged instructions as a longest common subsequence of the two
/// normalized instruction sequences is long.
pub proof fn lemma_diff_covers(src: FunctionModel, tgt: FunctionModel)
    requires
        src.instructions.len() <= usize::MAX,
        tgt.instructions.len() <= usize::MAX,
    ensures
        op_sources(spec_operations(src, tgt)) == indexes_below(src.instructions.len()),
        op_targets(spec_operations(src, tgt)) == indexes_below(tgt.instructions.len()),
        count_ops(
            spec_operations(src, tgt),
            |k: DiffKind| k == DiffKind::Unchanged,
            spec_operations(src, tgt).len(),
        ) == lcs(normalized_seq(src), normalized_seq(tgt)),
{
    let a = normalized_seq(src);
    let b = normalized_seq(tgt);
    let al = traceback(a, b, src.instructions.len(), tgt.instructions.len());
    lemma_traceback(a, b, src.instructions.len(), tgt.instructions.len());
    lemma_ops_from_indexes(src, tgt, al, 0, seq![], seq![]);
    assert(al.subrange(0, al.len() as int) =~= al);
    assert(seq![] + source_indexes(al) =~= source_indexes(al));
    assert(seq![] + target_indexes(al) =~= target_indexes(al));
    assert(a.take(src.instructions.len() as int) =~= a);
    assert(b.take(tgt.instructions.len() as int) =~= b);
}


/// The alignment of the first `i` items of a sequence with themselves
/// pairs each item with itself.
proof fn lemma_traceback_diagonal(a: Seq<NormalizedModel>, i: nat)
    requires
        i <= a.len(),
        a.len() <= usize::MAX,
    ensures
        traceback(a, a, i, i) == Seq::new(i, |k: int| (Some(k as usize), Some(k as usize))),
    decreases i,
{
    if i > 0 {
        lemma_traceback_diagonal(a, (i - 1) as nat);
        assert(traceback(a, a, i, i) =~= Seq::new(i, |k: int| (Some(k as usize), Some(k as usize))));
    } else {
        assert(traceback(a, a, 0, 0) =~= Seq::new(0, |k: int| (Some(k as usize), Some(k as usize))));
    }
}

/// Over an alignment that pairs each instruction with itself, the
/// operations from `index` on are the unchanged operations of the rest.
proof fn lemma_ops_diagonal(f: FunctionModel, n: nat, index: nat)
    requires
        index <= n,
        n <= usize::MAX,
    ensures
        ops_from(f, f, Seq::new(n, |k: int| (Some(k as usize), Some(k as usize))), index, seq![], seq![])
            == Seq::new((n - index) as nat, |k: int| unchanged_op(f, f, (index + k) as usize, (index + k) as usize)),
    decreases n - index,
{
    let al = Seq::new(n, |k: int| (Some(k as usize), Some(k as usize)));
    let none = Seq::<usize>::empty();
    let empty_run = run_ops(f, f, none, none);
    assert(empty_run =~= Seq::<OperationModel>::empty());
    if index < n {
        lemma_ops_diagonal(f, n, index + 1);
        assert(al[index as int] == (Some(index as usize), Some(index as usize)));
        assert(ops_from(f, f, al, index, none, none) =~= Seq::new(
            (n - index) as nat,
            |k: int| unchanged_op(f, f, (index + k) as usize, (index + k) as usize),
        ));
    } else {
        assert(ops_from(f, f, al, index, none, none) =~= Seq::new(
            (n - index) as nat,
            |k: int| unchanged_op(f, f, (index + k) as usize, (index + k) as usize),
        ));
    }
}

/// No operation among unchanged ones touches a block.
proof fn lemma_untouched(blocks: Seq<BlockModel>, ops: Seq<OperationModel>, source_side: bool, n: nat)
    requires
        forall|i: int| 0 <= i < ops.len() ==> (#[trigger] ops[i]).kind == DiffKind::Unchanged,
    ensures
        touched_count(blocks, ops, source_side, n) == 0,
    decreases n,
{
    if n > 0 {
        lemma_untouched(blocks, ops, source_side, (n - 1) as nat);
        assert(!touched(blocks, ops, source_side, ops.len(), (n - 1) as nat));
    }
}

/// Comparing a function with itself finds nothing changed: every
/// instruction is paired with itself as unchanged, no count of changes is
/// above zero, no block is affected and no structural change is reported.
pub proof fn lemma_self_diff(f: FunctionModel)
    requires
        f.instructions.len() <= usize::MAX,
    ensures
        spec_operations(f, f) == Seq::new(
            f.instructions.len(),
            |k: int| unchanged_op(f, f, k as usize, k as usize),
        ),
        count_ops(spec_operations(f, f), |k: DiffKind| is_change(k), spec_operations(f, f).len()) == 0,
        count_ops(spec_operations(f, f), |k: DiffKind| k == DiffKind::Inserted, spec_operations(f, f).len()) == 0,
        count_ops(spec_operations(f, f), |k: DiffKind| k == DiffKind::Removed, spec_operations(f, f).len()) == 0,
        count_ops(spec_operations(f, f), |k: DiffKind| k == DiffKind::ChangedConstant, spec_operations(f, f).len()) == 0,
        count_ops(spec_operations(f, f), |k: DiffKind| k == DiffKind::ChangedCall, spec_operations(f, f).len()) == 0,
        spec_changed_blocks(f, f, spec_operations(f, f)) == 0,
        spec_structural_changes(f, f) == Seq::<Seq<char>>::empty(),
{
    let a = normalized_seq(f);
    let n = f.instructions.len();
    lemma_traceback_diagonal(a, n);
    lemma_ops_diagonal(f, n, 0);
    let ops = spec_operations(f, f);
    assert(ops =~= Seq::new(n, |k: int| unchanged_op(f, f, k as usize, k as usize)));
    assert forall|i: int| 0 <= i < ops.len() implies (#[trigger] ops[i]).kind == DiffKind::Unchanged by {}
    lemma_count_none(ops, |k: DiffKind| is_change(k), ops.len());
    lemma_count_none(ops, |k: DiffKind| k == DiffKind::Inserted, ops.len());
    lemma_count_none(ops, |k: DiffKind| k == DiffKind::Removed, ops.len());
    lemma_count_none(ops, |k: DiffKind| k == DiffKind::ChangedConstant, ops.len());
    lemma_count_none(ops, |k: DiffKind| k == DiffKind::ChangedCall, ops.len());
    lemma_untouched(f.blocks, ops, true, f.blocks.len());
    lemma_untouched(f.blocks, ops, false, f.blocks.len());
    assert(spec_structural_changes(f, f) =~= Seq::<Seq<char>>::empty());
}


/// The form of one operation: an aligned pair that is unchanged (and then
/// holds equal normalized instructions) or changed, a removed source
/// instruction, or an inserted target instruction.
spec fn op_shaped(src: FunctionModel, tgt: FunctionModel, o: OperationModel) -> bool {
    match (o.source_index, o.target_index) {
        (Some(x), Some(y)) => (o == unchanged_op(src, tgt, x, y) && src.instructions[x as int].normalized
            == tgt.instructions[y as int].normalized) || o == changed_op(src, tgt, x, y),
        (Some(x), None) => o == removed_op(src, x),
        (None, Some(y)) => o == inserted_op(tgt, y),
        (None, None) => false,
    }
}

proof fn lemma_run_shaped(src: FunctionModel, tgt: FunctionModel, removed: Seq<usize>, inserted: Seq<usize>)
    ensures
        forall|k: int|
            0 <= k < run_ops(src, tgt, removed, inserted).len() ==> op_shaped(
                src,
                tgt,
                #[trigger] run_ops(src, tgt, removed, inserted)[k],
            ),
{
    let pairs = if removed.len() <= inserted.len() {
        removed.len()
    } else {
        inserted.len()
    };
    let a = Seq::new(pairs, |k: int| changed_op(src, tgt, removed[k], inserted[k]));
    let b = Seq::new((removed.len() - pairs) as nat, |k: int| removed_op(src, removed[pairs + k]));
    let c = Seq::new((inserted.len() - pairs) as nat, |k: int| inserted_op(tgt, inserted[pairs + k]));
    let all = a + b + c;
    assert(run_ops(src, tgt, removed, inserted) == all);
    assert forall|k: int| 0 <= k < all.len() implies op_shaped(src, tgt, #[trigger] all[k]) by {
        if k < a.len() {
            assert(all[k] == a[k]);
        } else if k < a.len() + b.len() {
            assert(all[k] == b[k - a.len()]);
        } else {
            assert(all[k] == c[k - a.len() - b.len()]);
        }
    }
}

proof fn lemma_ops_from_shaped(
    src: FunctionModel,
    tgt: FunctionModel,
    al: Seq<(Option<usize>, Option<usize>)>,
    index: nat,
    removed: Seq<usize>,
    inserted: Seq<usize>,
)
    requires
        index <= al.len(),
        forall|k: int|
            0 <= k < al.len() && (#[trigger] al[k]).0 is Some && al[k].1 is Some ==> src.instructions[al[k].0->0 as int].normalized
                == tgt.instructions[al[k].1->0 as int].normalized,
    ensures
        forall|k: int|
            0 <= k < ops_from(src, tgt, al, index, removed, inserted).len() ==> op_shaped(
                src,
                tgt,
                #[trigger] ops_from(src, tgt, al, index, removed, inserted)[k],
            ),
    decreases al.len() - index,
{
    lemma_run_shaped(src, tgt, removed, inserted);
    if index < al.len() {
        let pair = al[index as int];
        match pair {
            (Some(x), Some(y)) => {
                lemma_ops_from_shaped(src, tgt, al, index + 1, seq![], seq![]);
                let run = run_ops(src, tgt, removed, inserted);
                let one = seq![unchanged_op(src, tgt, x, y)];
                let after = ops_from(src, tgt, al, index + 1, seq![], seq![]);
                let all = run + one + after;
                assert(ops_from(src, tgt, al, index, removed, inserted) == all);
                assert(al[index as int].0 is Some && al[index as int].1 is Some);
                assert(src.instructions[x as int].normalized == tgt.instructions[y as int].normalized);
                assert(op_shaped(src, tgt, unchanged_op(src, tgt, x, y)));
                assert forall|k: int| 0 <= k < all.len() implies op_shaped(src, tgt, #[trigger] all[k]) by {
                    if k < run.len() {
                        assert(all[k] == run[k]);
                    } else if k == run.len() {
                        assert(all[k] == unchanged_op(src, tgt, x, y));
                    } else {
                        assert(all[k] == after[k - run.len() - 1]);
                    }
                }
            },
            (Some(x), None) => {
                lemma_ops_from_shaped(src, tgt, al, index + 1, removed.push(x), inserted);
                assert(ops_from(src, tgt, al, index, removed, inserted) == ops_from(
                    src,
                    tgt,
                    al,
                    index + 1,
                    removed.push(x),
                    inserted,
                ));
            },
            (None, Some(y)) => {
                lemma_ops_from_shaped(src, tgt, al, index + 1, removed, inserted.push(y));
                assert(ops_from(src, tgt, al, index, removed, inserted) == ops_from(
                    src,
                    tgt,
                    al,
                    index + 1,
                    removed,
                    inserted.push(y),
                ));
            },
            (None, None) => {
                lemma_ops_from_shaped(src, tgt, al, index + 1, removed, inserted);
                assert(ops_from(src, tgt, al, index, removed, inserted) == ops_from(
                    src,
                    tgt,
                    al,
                    index + 1,
                    removed,
                    inserted,
                ));
            },
        }
    } else {
        assert(ops_from(src, tgt, al, index, removed, inserted) == run_ops(src, tgt, removed, inserted));
    }
}

/// Each index an operation holds is among the listed indexes of the
/// operations.
proof fn lemma_op_indexes_listed(ops: Seq<OperationModel>)
    ensures
        forall|k: int|
            0 <= k < ops.len() && (#[trigger] ops[k]).source_index is Some ==> op_sources(ops).contains(
                ops[k].source_index->0,
            ),
        forall|k: int|
            0 <= k < ops.len() && (#[trigger] ops[k]).target_index is Some ==> op_targets(ops).contains(
                ops[k].target_index->0,
            ),
    decreases ops.len(),
{
    if ops.len() > 0 {
        let p = ops.drop_last();
        lemma_op_indexes_listed(p);
        assert forall|k: int| 0 <= k < ops.len() && (#[trigger] ops[k]).source_index is Some implies op_sources(
            ops,
        ).contains(ops[k].source_index->0) by {
            let extra = match ops.last().source_index {
                Some(x) => seq![x],
                None => Seq::<usize>::empty(),
            };
            assert(op_sources(ops) == op_sources(p) + extra);
            if k < p.len() {
                assert(ops[k] == p[k]);
                let w = choose|w: int| 0 <= w < op_sources(p).len() && op_sources(p)[w] == ops[k].source_index->0;
                assert(op_sources(ops)[w] == ops[k].source_index->0);
            } else {
                assert(op_sources(ops)[op_sources(p).len() as int] == ops[k].source_index->0);
            }
        }
        assert forall|k: int| 0 <= k < ops.len() && (#[trigger] ops[k]).target_index is Some implies op_targets(
            ops,
        ).contains(ops[k].target_index->0) by {
            let extra = match ops.last().target_index {
                Some(y) => seq![y],
                None => Seq::<usize>::empty(),
            };
            assert(op_targets(ops) == op_targets(p) + extra);
            if k < p.len() {
                assert(ops[k] == p[k]);
                let w = choose|w: int| 0 <= w < op_targets(p).len() && op_targets(p)[w] == ops[k].target_index->0;
                assert(op_targets(ops)[w] == ops[k].target_index->0);
            } else {
                assert(op_targets(ops)[op_targets(p).len() as int] == ops[k].target_index->0);
            }
        }
    }
}

/// How the diff classifies each operation, in terms of the instructions it
/// pairs:
/// - an operation holds a source index, a target index, or both, each
///   within its function;
/// - one with only a source index is `Removed`, one with only a target
///   index is `Inserted`;
/// - an `Unchanged` operation pairs two instructions whose normalized forms
///   are equal;
/// - a paired change where either instruction is a `call` is `ChangedCall`;
/// - a paired change of two non-call instructions whose mnemonics differ is
///   `ChangedInstruction`;
/// - a `ChangedConstant` pairs two non-call instructions with the same
///   mnemonic, one of which has a `scalar:` or `image-address` operand;
///   without such an operand, a same-mnemonic change is `ChangedInstruction`.
pub proof fn lemma_diff_classification(src: FunctionModel, tgt: FunctionModel)
    requires
        src.instructions.len() <= usize::MAX,
        tgt.instructions.len() <= usize::MAX,
    ensures
        forall|k: int|
            0 <= k < spec_operations(src, tgt).len() ==> {
                let o = #[trigger] spec_operations(src, tgt)[k];
                &&& (o.source_index is Some || o.target_index is Some)
                &&& (o.source_index matches Some(x) ==> x < src.instructions.len())
                &&& (o.target_index matches Some(y) ==> y < tgt.instructions.len())
                &&& (o.source_index is Some && o.target_index is None ==> o.kind == DiffKind::Removed)
                &&& (o.source_index is None && o.target_index is Some ==> o.kind == DiffKind::Inserted)
                &&& (o.kind == DiffKind::Unchanged ==> o.source_index is Some && o.target_index is Some
                    && src.instructions[o.source_index->0 as int].normalized
                    == tgt.instructions[o.target_index->0 as int].normalized)
                &&& (o.source_index is Some && o.target_index is Some && o.kind != DiffKind::Unchanged ==> {
                    let sm = src.instructions[o.source_index->0 as int].normalized.mnemonic;
                    let tm = tgt.instructions[o.target_index->0 as int].normalized.mnemonic;
                    &&& (sm == "call"@ || tm == "call"@) ==> o.kind == DiffKind::ChangedCall
                    &&& (sm != "call"@ && tm != "call"@ && sm != tm) ==> o.kind == DiffKind::ChangedInstruction
                    &&& o.kind == DiffKind::ChangedConstant ==> sm == tm && sm != "call"@ && (has_constant(
                        src.instructions[o.source_index->0 as int],
                    ) || has_constant(tgt.instructions[o.target_index->0 as int]))
                    &&& (sm != "call"@ && tm != "call"@ && sm == tm && !has_constant(
                        src.instructions[o.source_index->0 as int],
                    ) && !has_constant(tgt.instructions[o.target_index->0 as int])) ==> o.kind
                        == DiffKind::ChangedInstruction
                })
            },
{
    let a = normalized_seq(src);
    let b = normalized_seq(tgt);
    let al = traceback(a, b, src.instructions.len(), tgt.instructions.len());
    lemma_traceback(a, b, src.instructions.len(), tgt.instructions.len());
    lemma_indexes_listed(al);
    assert forall|k: int|
        0 <= k < al.len() && (#[trigger] al[k]).0 is Some && al[k].1 is Some implies src.instructions[al[k].0->0 as int].normalized
            == tgt.instructions[al[k].1->0 as int].normalized by {
        let x = al[k].0->0;
        let y = al[k].1->0;
        assert(source_indexes(al).contains(x));
        assert(target_indexes(al).contains(y));
        let w = choose|w: int| 0 <= w < source_indexes(al).len() && source_indexes(al)[w] == x;
        assert(indexes_below(src.instructions.len())[w] == x);
        let v = choose|v: int| 0 <= v < target_indexes(al).len() && target_indexes(al)[v] == y;
        assert(indexes_below(tgt.instructions.len())[v] == y);
        assert(a[x as int] == b[y as int]);
    }
    lemma_ops_from_shaped(src, tgt, al, 0, seq![], seq![]);
    let ops = spec_operations(src, tgt);
    lemma_diff_covers(src, tgt);
    lemma_op_indexes_listed(ops);
    assert forall|k: int| 0 <= k < ops.len() implies {
        let o = #[trigger] ops[k];
        &&& (o.source_index is Some || o.target_index is Some)
        &&& (o.source_index matches Some(x) ==> x < src.instructions.len())
        &&& (o.target_index matches Some(y) ==> y < tgt.instructions.len())
        &&& (o.source_index is Some && o.target_index is None ==> o.kind == DiffKind::Removed)
        &&& (o.source_index is None && o.target_index is Some ==> o.kind == DiffKind::Inserted)
        &&& (o.kind == DiffKind::Unchanged ==> o.source_index is Some && o.target_index is Some
            && src.instructions[o.source_index->0 as int].normalized
            == tgt.instructions[o.target_index->0 as int].normalized)
        &&& (o.source_index is Some && o.target_index is Some && o.kind != DiffKind::Unchanged ==> {
            let sm = src.instructions[o.source_index->0 as int].normalized.mnemonic;
            let tm = tgt.instructions[o.target_index->0 as int].normalized.mnemonic;
            &&& (sm == "call"@ || tm == "call"@) ==> o.kind == DiffKind::ChangedCall
            &&& (sm != "call"@ && tm != "call"@ && sm != tm) ==> o.kind == DiffKind::ChangedInstruction
            &&& o.kind == DiffKind::ChangedConstant ==> sm == tm && sm != "call"@ && (has_constant(
                src.instructions[o.source_index->0 as int],
            ) || has_constant(tgt.instructions[o.target_index->0 as int]))
            &&& (sm != "call"@ && tm != "call"@ && sm == tm && !has_constant(
                src.instructions[o.source_index->0 as int],
            ) && !has_constant(tgt.instructions[o.target_index->0 as int])) ==> o.kind
                == DiffKind::ChangedInstruction
        })
    } by {
        let o = ops[k];
        assert(op_shaped(src, tgt, o));
        if o.source_index is Some {
            let x = o.source_index->0;
            assert(op_sources(ops).contains(x));
            let w = choose|w: int| 0 <= w < op_sources(ops).len() && op_sources(ops)[w] == x;
            assert(indexes_below(src.instructions.len())[w] == x);
        }
        if o.target_index is Some {
            let y = o.target_index->0;
            assert(op_targets(ops).contains(y));
            let w = choose|w: int| 0 <= w < op_targets(ops).len() && op_targets(ops)[w] == y;
            assert(indexes_below(tgt.instructions.len())[w] == y);
        }
    }
}

} // verus!
