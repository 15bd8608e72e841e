use crate::disasm::{Instruction, NormalizedInstruction, NormalizedModel};
use crate::pe::{Function, FunctionModel};
use vstd::prelude::*;
use vstd::utf8::encode_utf8;

verus! {

/// The normalized instructions of a function, in order.
pub open spec fn normalized_seq(f: FunctionModel) -> Seq<NormalizedModel> {
    f.instructions.map_values(|i: crate::disasm::InstructionModel| i.normalized)
}

/// Whether two normalized instructions are equal.
pub fn same_normalized(a: &NormalizedInstruction, b: &NormalizedInstruction) -> (r: bool)
    ensures
        r == (a@ == b@),
{
    if !(a.mnemonic == b.mnemonic) {
        return false;
    }
    if a.operands.len() != b.operands.len() {
        assert(a@.operands.len() != b@.operands.len());
        return false;
    }
    let mut i: usize = 0;
    while i < a.operands.len()
        invariant
            a.operands@.len() == b.operands@.len(),
            i <= a.operands@.len(),
            forall|k: int| 0 <= k < i ==> a.operands@[k]@ == b.operands@[k]@,
        decreases a.operands@.len() - i,
    {
        if !(a.operands[i] == b.operands[i]) {
            assert(a@.operands[i as int] != b@.operands[i as int]);
            return false;
        }
        i = i + 1;
    }
    assert(a@.operands =~= b@.operands);
    true
}

/// The length of a longest common subsequence of `a` and `b`.
pub open spec fn lcs(a: Seq<NormalizedModel>, b: Seq<NormalizedModel>) -> nat
    decreases a.len() + b.len(),
{
    if a.len() == 0 || b.len() == 0 {
        0
    } else if a.last() == b.last() {
        lcs(a.drop_last(), b.drop_last()) + 1
    } else {
        let x = lcs(a.drop_last(), b);
        let y = lcs(a, b.drop_last());
        if x >= y {
            x
        } else {
            y
        }
    }
}

/// A common subsequence is no longer than either sequence.
pub proof fn lemma_lcs_bound(a: Seq<NormalizedModel>, b: Seq<NormalizedModel>)
    ensures
        lcs(a, b) <= a.len(),
        lcs(a, b) <= b.len(),
    decreases a.len() + b.len(),
{
    if a.len() > 0 && b.len() > 0 {
        lemma_lcs_bound(a.drop_last(), b.drop_last());
        lemma_lcs_bound(a.drop_last(), b);
        lemma_lcs_bound(a, b.drop_last());
    }
}

/// The length of a longest common subsequence of the normalized
/// instructions of two functions.
pub fn lcs_length(source: &Function, candidate: &Function) -> (r: usize)
    ensures
        r == lcs(normalized_seq(source@), normalized_seq(candidate@)),
{
    let ghost a = normalized_seq(source@);
    let ghost b = normalized_seq(candidate@);
    let mut previous: Vec<usize> = Vec::new();
    previous.push(0);
    let mut j: usize = 0;
    while j < candidate.instructions.len()
        invariant
            j <= candidate.instructions@.len(),
            previous@.len() == j + 1,
            forall|k: int| 0 <= k <= j ==> previous@[k] == 0,
        decreases candidate.instructions@.len() - j,
    {
        previous.push(0);
        j = j + 1;
    }
    proof {
        assert forall|k: int| 0 <= k <= candidate.instructions@.len() implies #[trigger] previous@[k] == lcs(
            a.take(0),
            b.take(k),
        ) by {
            assert(a.take(0).len() == 0);
        }
    }
    let mut i: usize = 0;
    while i < source.instructions.len()
        invariant
            a == normalized_seq(source@),
            b == normalized_seq(candidate@),
            a.len() == source.instructions@.len(),
            b.len() == candidate.instructions@.len(),
            i <= source.instructions@.len(),
            previous@.len() == candidate.instructions@.len() + 1,
            forall|k: int| 0 <= k <= candidate.instructions@.len() ==> #[trigger] previous@[k] == lcs(a.take(i as int), b.take(k)),
        decreases source.instructions@.len() - i,
    {
        let mut current: Vec<usize> = Vec::new();
        current.push(0);
        assert(lcs(a.take(i + 1), b.take(0)) == 0);
        let mut index: usize = 0;
        while index < candidate.instructions.len()
            invariant
                a == normalized_seq(source@),
                b == normalized_seq(candidate@),
                a.len() == source.instructions@.len(),
                b.len() == candidate.instructions@.len(),
                i < source.instructions@.len(),
                index <= candidate.instructions@.len(),
                previous@.len() == candidate.instructions@.len() + 1,
                forall|k: int| 0 <= k <= candidate.instructions@.len() ==> #[trigger] previous@[k] == lcs(a.take(i as int), b.take(k)),
                current@.len() == index + 1,
                forall|k: int| 0 <= k <= index ==> #[trigger] current@[k] == lcs(a.take(i + 1), b.take(k)),
            decreases candidate.instructions@.len() - index,
        {
            let ghost aa = a.take(i + 1);
            let ghost bb = b.take(index + 1);
            proof {
                assert(aa.drop_last() =~= a.take(i as int));
                assert(bb.drop_last() =~= b.take(index as int));
                assert(source@.instructions[i as int] == source.instructions@[i as int]@);
                assert(candidate@.instructions[index as int] == candidate.instructions@[index as int]@);
                assert(aa.last() == a[i as int]);
                assert(a[i as int] == source@.instructions[i as int].normalized);
                assert(bb.last() == b[index as int]);
                assert(b[index as int] == candidate@.instructions[index as int].normalized);
                assert(aa.last() == source.instructions@[i as int]@.normalized);
                assert(bb.last() == candidate.instructions@[index as int]@.normalized);
                lemma_lcs_bound(a.take(i as int), b.take(index as int));
            }
            let value = if same_normalized(&source.instructions[i].normalized, &candidate.instructions[index].normalized) {
                previous[index] + 1
            } else if current[index] >= previous[index + 1] {
                current[index]
            } else {
                previous[index + 1]
            };
            current.push(value);
            index = index + 1;
        }
        previous = current;
        i = i + 1;
    }
    proof {
        assert(a.take(i as int) =~= a);
        assert(b.take(candidate.instructions@.len() as int) =~= b);
    }
    previous[candidate.instructions.len()]
}

/// The number of positions at which two sequences hold equal items, over
/// the length of the shorter one.
pub open spec fn positional_matches_upto(a: Seq<NormalizedModel>, b: Seq<NormalizedModel>, k: nat) -> nat
    decreases k,
{
    if k == 0 {
        0
    } else {
        positional_matches_upto(a, b, (k - 1) as nat) + if a[k - 1] == b[k - 1] {
            1nat
        } else {
            0nat
        }
    }
}

/// The number of positions at which two sequences hold equal items.
pub open spec fn positional_matches(a: Seq<NormalizedModel>, b: Seq<NormalizedModel>) -> nat {
    positional_matches_upto(a, b, if a.len() <= b.len() {
        a.len()
    } else {
        b.len()
    })
}

/// The number of positions at which the normalized instructions of two
/// functions are equal.
pub fn positional_match_count(source: &Function, candidate: &Function) -> (r: usize)
    ensures
        r == positional_matches(normalized_seq(source@), normalized_seq(candidate@)),
        r <= source@.instructions.len(),
        r <= candidate@.instructions.len(),
{
    let n = if source.instructions.len() <= candidate.instructions.len() {
        source.instructions.len()
    } else {
        candidate.instructions.len()
    };
    let ghost a = normalized_seq(source@);
    let ghost b = normalized_seq(candidate@);
    let mut count: usize = 0;
    let mut i: usize = 0;
    while i < n
        invariant
            a == normalized_seq(source@),
            b == normalized_seq(candidate@),
            n <= source.instructions@.len(),
            n <= candidate.instructions@.len(),
            i <= n,
            count <= i,
            count == positional_matches_upto(a, b, i as nat),
        decreases n - i,
    {
        if same_normalized(&source.instructions[i].normalized, &candidate.instructions[i].normalized) {
            count = count + 1;
        }
        i = i + 1;
    }
    count
}

/// The approximate number of changed instructions: the longer length less
/// the positions that hold equal normalized instructions.
pub fn changed_instructions(source: &Function, candidate: &Function) -> (r: usize)
    ensures
        r == (if source@.instructions.len() >= candidate@.instructions.len() {
            source@.instructions.len()
        } else {
            candidate@.instructions.len()
        }) - positional_matches(normalized_seq(source@), normalized_seq(candidate@)),
{
    let common = positional_match_count(source, candidate);
    let longest = if source.instructions.len() >= candidate.instructions.len() {
        source.instructions.len()
    } else {
        candidate.instructions.len()
    };
    longest - common
}

/// `ratio(a, b) >= 1/4` for the similarity ratio `min / max` (which is 1 for
/// two zeros).
pub open spec fn quarter_ratio(a: nat, b: nat) -> bool {
    (a == 0 && b == 0) || 4 * (if a <= b {
        a
    } else {
        b
    }) >= (if a >= b {
        a
    } else {
        b
    })
}

/// Whether the ratio of the smaller to the larger of two sizes is at least
/// one quarter (two zeros count as equal).
pub fn ratio_at_least_quarter(a: usize, b: usize) -> (r: bool)
    ensures
        r == quarter_ratio(a as nat, b as nat),
{
    if a == 0 && b == 0 {
        return true;
    }
    let smaller = if a <= b {
        a
    } else {
        b
    };
    let larger = if a >= b {
        a
    } else {
        b
    };
    smaller as u128 * 4 >= larger as u128
}

/// A candidate is worth scoring: its instruction count, byte size and
/// block count are each within a factor of four of the source's.
pub open spec fn spec_candidate_filter(source: FunctionModel, candidate: FunctionModel) -> bool {
    quarter_ratio(source.instructions.len(), candidate.instructions.len()) && quarter_ratio(
        source.byte_size as nat,
        candidate.byte_size as nat,
    ) && quarter_ratio(source.blocks.len(), candidate.blocks.len())
}

/// Whether a candidate is worth scoring against the source.
pub fn candidate_filter(source: &Function, candidate: &Function) -> (r: bool)
    ensures
        r == spec_candidate_filter(source@, candidate@),
{
    ratio_at_least_quarter(source.instructions.len(), candidate.instructions.len())
        && ratio_at_least_quarter(source.byte_size as usize, candidate.byte_size as usize)
        && ratio_at_least_quarter(source.blocks.len(), candidate.blocks.len())
}

/// The cheap pre-filter of whole-binary mapping: instruction counts differ
/// by at most half the source's count (and at least 4 are allowed), and
/// byte sizes and block counts are within a factor of four.
pub open spec fn spec_cheap_map_filter(source: FunctionModel, candidate: FunctionModel) -> bool {
    let a = source.instructions.len();
    let b = candidate.instructions.len();
    let delta = if a >= b {
        a - b
    } else {
        b - a
    };
    let allowed = if a / 2 >= 4 {
        a / 2
    } else {
        4
    };
    delta <= allowed && quarter_ratio(source.byte_size as nat, candidate.byte_size as nat)
        && quarter_ratio(source.blocks.len(), candidate.blocks.len())
}

/// Whether a candidate passes the cheap pre-filter of whole-binary mapping.
pub fn cheap_map_filter(source: &Function, candidate: &Function) -> (r: bool)
    ensures
        r == spec_cheap_map_filter(source@, candidate@),
{
    let a = source.instructions.len();
    let b = candidate.instructions.len();
    let delta = if a >= b {
        a - b
    } else {
        b - a
    };
    let allowed = if a / 2 >= 4 {
        a / 2
    } else {
        4
    };
    delta <= allowed && ratio_at_least_quarter(source.byte_size as usize, candidate.byte_size as usize)
        && ratio_at_least_quarter(source.blocks.len(), candidate.blocks.len())
}

/// The FNV-1a 64-bit offset basis.
pub const FNV_OFFSET: u64 = 0xcbf29ce484222325;

/// The FNV-1a 64-bit prime.
pub const FNV_PRIME: u64 = 0x100000001b3;

/// One FNV-1a step.
pub open spec fn fnv_step(h: u64, byte: u8) -> u64 {
    (h ^ (byte as u64)).wrapping_mul(FNV_PRIME)
}

/// FNV-1a over `bytes`, from the state `h`.
pub open spec fn fnv(h: u64, bytes: Seq<u8>) -> u64
    decreases bytes.len(),
{
    if bytes.len() == 0 {
        h
    } else {
        fnv_step(fnv(h, bytes.drop_last()), bytes.last())
    }
}

/// The bytes hashed for a list of operands: each operand's UTF-8 bytes
/// followed by `0xff`.
pub open spec fn operand_stream(operands: Seq<Seq<char>>) -> Seq<u8>
    decreases operands.len(),
{
    if operands.len() == 0 {
        seq![]
    } else {
        operand_stream(operands.drop_last()) + encode_utf8(operands.last()) + seq![0xffu8]
    }
}

/// The bytes hashed for one instruction: its mnemonic's UTF-8 bytes, a zero
/// byte, then its operands.
pub open spec fn instruction_stream(n: NormalizedModel) -> Seq<u8> {
    encode_utf8(n.mnemonic) + seq![0u8] + operand_stream(n.operands)
}

/// The bytes hashed for a sequence of instructions.
pub open spec fn function_stream(ins: Seq<NormalizedModel>) -> Seq<u8>
    decreases ins.len(),
{
    if ins.len() == 0 {
        seq![]
    } else {
        function_stream(ins.drop_last()) + instruction_stream(ins.last())
    }
}

/// The fingerprint of a normalized instruction sequence: FNV-1a over its
/// byte stream.
pub open spec fn spec_fingerprint(ins: Seq<NormalizedModel>) -> u64 {
    fnv(FNV_OFFSET, function_stream(ins))
}

/// Hashes `bytes` into the FNV state `h`.
fn hash_bytes(h: u64, bytes: &[u8]) -> (r: u64)
    ensures
        forall|done: Seq<u8>| fnv(FNV_OFFSET, done) == h ==> #[trigger] fnv(FNV_OFFSET, done + bytes@) == r,
{
    let mut state = h;
    let mut i: usize = 0;
    while i < bytes.len()
        invariant
            i <= bytes@.len(),
            forall|done: Seq<u8>|
                fnv(FNV_OFFSET, done) == h ==> #[trigger] fnv(FNV_OFFSET, done + bytes@.take(i as int))
                    == state,
        decreases bytes@.len() - i,
    {
        let byte = bytes[i];
        proof {
            assert forall|done: Seq<u8>| fnv(FNV_OFFSET, done) == h implies #[trigger] fnv(
                FNV_OFFSET,
                done + bytes@.take(i + 1),
            ) == (state ^ (byte as u64)).wrapping_mul(FNV_PRIME) by {
                assert((done + bytes@.take(i + 1)).drop_last() =~= done + bytes@.take(i as int));
                assert(fnv(FNV_OFFSET, done + bytes@.take(i as int)) == state);
            }
        }
        state = (state ^ (byte as u64)).wrapping_mul(FNV_PRIME);
        i = i + 1;
    }
    proof {
        assert(bytes@.take(i as int) =~= bytes@);
    }
    state
}

/// The fingerprint of a function's normalized instructions.
pub fn fingerprint(function: &Function) -> (r: u64)
    ensures
        r == spec_fingerprint(normalized_seq(function@)),
{
    let ghost ins = normalized_seq(function@);
    let mut hash = FNV_OFFSET;
    let mut i: usize = 0;
    let ghost done: Seq<u8> = seq![];
    while i < function.instructions.len()
        invariant
            ins == normalized_seq(function@),
            i <= function.instructions@.len(),
            done == function_stream(ins.take(i as int)),
            hash == fnv(FNV_OFFSET, done),
        decreases function.instructions@.len() - i,
    {
        let normalized = &function.instructions[i].normalized;
        assert(normalized@ == ins[i as int]);
        let bytes = normalized.mnemonic.as_str().as_bytes();
        hash = hash_bytes(hash, bytes);
        let zero: [u8; 1] = [0u8];
        let ghost d1 = done + bytes@;
        assert(fnv(FNV_OFFSET, d1) == hash);
        hash = hash_bytes(hash, zero.as_slice());
        let ghost d2 = d1 + seq![0u8];
        assert(zero@ =~= seq![0u8]);
        assert(fnv(FNV_OFFSET, d2) == hash);
        let mut k: usize = 0;
        let ghost mut d3 = d2;
        while k < normalized.operands.len()
            invariant
                k <= normalized@.operands.len(),
                normalized@.operands.len() == normalized.operands@.len(),
                d3 == d2 + operand_stream(normalized@.operands.take(k as int)),
                hash == fnv(FNV_OFFSET, d3),
            decreases normalized.operands@.len() - k,
        {
            let operand_bytes = normalized.operands[k].as_str().as_bytes();
            hash = hash_bytes(hash, operand_bytes);
            let ghost e1 = d3 + operand_bytes@;
            assert(fnv(FNV_OFFSET, e1) == hash);
            let marker: [u8; 1] = [0xffu8];
            hash = hash_bytes(hash, marker.as_slice());
            proof {
                assert(marker@ =~= seq![0xffu8]);
                assert(fnv(FNV_OFFSET, e1 + seq![0xffu8]) == hash);
                assert(normalized@.operands.take(k + 1).drop_last() =~= normalized@.operands.take(
                    k as int,
                ));
                assert(normalized@.operands[k as int] == normalized.operands@[k as int]@);
                d3 = e1 + seq![0xffu8];
                assert(d3 =~= d2 + operand_stream(normalized@.operands.take(k + 1)));
            }
            k = k + 1;
        }
        proof {
            assert(normalized@.operands.take(k as int) =~= normalized@.operands);
            assert(ins.take(i + 1).drop_last() =~= ins.take(i as int));
            assert(d3 =~= function_stream(ins.take(i + 1)));
            done = d3;
        }
        i = i + 1;
    }
    proof {
        assert(ins.take(i as int) =~= ins);
    }
    hash
}


/// A sequence shares all of itself with itself.
pub proof fn lemma_lcs_self(a: Seq<NormalizedModel>)
    ensures
        lcs(a, a) == a.len(),
    decreases a.len(),
{
    if a.len() > 0 {
        lemma_lcs_self(a.drop_last());
    }
}

/// The longest common subsequence does not depend on the order of the two
/// sequences.
pub proof fn lemma_lcs_symmetric(a: Seq<NormalizedModel>, b: Seq<NormalizedModel>)
    ensures
        lcs(a, b) == lcs(b, a),
    decreases a.len() + b.len(),
{
    if a.len() > 0 && b.len() > 0 {
        lemma_lcs_symmetric(a.drop_last(), b.drop_last());
        lemma_lcs_symmetric(a.drop_last(), b);
        lemma_lcs_symmetric(a, b.drop_last());
    }
}

/// The positions that hold equal items do not depend on the order of the
/// two sequences.
pub proof fn lemma_positional_symmetric(a: Seq<NormalizedModel>, b: Seq<NormalizedModel>)
    ensures
        positional_matches(a, b) == positional_matches(b, a),
{
    lemma_positional_symmetric_at(a, b, if a.len() <= b.len() {
        a.len()
    } else {
        b.len()
    });
}

proof fn lemma_positional_symmetric_at(a: Seq<NormalizedModel>, b: Seq<NormalizedModel>, k: nat)
    ensures
        positional_matches_upto(a, b, k) == positional_matches_upto(b, a, k),
    decreases k,
{
    if k > 0 {
        lemma_positional_symmetric_at(a, b, (k - 1) as nat);
    }
}

/// Every position of a sequence matches itself.
proof fn lemma_positional_self(a: Seq<NormalizedModel>, k: nat)
    ensures
        positional_matches_upto(a, a, k) == k,
    decreases k,
{
    if k > 0 {
        lemma_positional_self(a, (k - 1) as nat);
    }
}

/// A function compared with itself: it passes both candidate filters, all
/// its normalized instructions match position by position and as a common
/// subsequence, and no instruction counts as changed.
pub proof fn lemma_compare_self(f: FunctionModel)
    ensures
        spec_candidate_filter(f, f),
        spec_cheap_map_filter(f, f),
        positional_matches(normalized_seq(f), normalized_seq(f)) == f.instructions.len(),
        lcs(normalized_seq(f), normalized_seq(f)) == f.instructions.len(),
{
    lemma_positional_self(normalized_seq(f), f.instructions.len());
    lemma_lcs_self(normalized_seq(f));
}

/// The candidate filter does not depend on which function is the source.
pub proof fn lemma_candidate_filter_symmetric(a: FunctionModel, b: FunctionModel)
    ensures
        spec_candidate_filter(a, b) == spec_candidate_filter(b, a),
{
}


proof fn lemma_positional_upto_full(a: Seq<NormalizedModel>, b: Seq<NormalizedModel>, k: nat)
    requires
        k <= a.len(),
        k <= b.len(),
    ensures
        positional_matches_upto(a, b, k) <= k,
        positional_matches_upto(a, b, k) == k <==> forall|i: int| 0 <= i < k ==> a[i] == b[i],
    decreases k,
{
    if k > 0 {
        lemma_positional_upto_full(a, b, (k - 1) as nat);
        if positional_matches_upto(a, b, k) == k {
            assert forall|i: int| 0 <= i < k implies a[i] == b[i] by {
                if i < k - 1 {
                    assert(positional_matches_upto(a, b, (k - 1) as nat) == k - 1);
                }
            }
        }
    }
}

/// Positions match only when the whole normalized instructions (mnemonic
/// and operands) are equal: the count is at most the shorter length, and
/// reaches it exactly when the shorter sequence is a prefix of the longer.
/// So a single position whose instructions differ in anything, the
/// mnemonic included, keeps the count below the shorter length.
pub proof fn lemma_positional_counts_equal_instructions(a: Seq<NormalizedModel>, b: Seq<NormalizedModel>)
    ensures
        positional_matches(a, b) <= a.len(),
        positional_matches(a, b) <= b.len(),
        a.len() <= b.len() ==> (positional_matches(a, b) == a.len() <==> b.take(a.len() as int) == a),
        b.len() <= a.len() ==> (positional_matches(a, b) == b.len() <==> a.take(b.len() as int) == b),
        forall|i: int|
            0 <= i < a.len() && i < b.len() && a[i] != b[i] ==> positional_matches(a, b) + 1 <= (if a.len()
                <= b.len() {
                a.len()
            } else {
                b.len()
            }),
{
    let m = if a.len() <= b.len() {
        a.len()
    } else {
        b.len()
    };
    lemma_positional_upto_full(a, b, m);
    if a.len() <= b.len() {
        if positional_matches(a, b) == a.len() {
            assert(b.take(a.len() as int) =~= a);
        }
        if b.take(a.len() as int) == a {
            assert forall|i: int| 0 <= i < m implies a[i] == b[i] by {
                assert(b.take(a.len() as int)[i] == b[i]);
            }
        }
    }
    if b.len() <= a.len() {
        if positional_matches(a, b) == b.len() {
            assert(a.take(b.len() as int) =~= b);
        }
        if a.take(b.len() as int) == b {
            assert forall|i: int| 0 <= i < m implies a[i] == b[i] by {
                assert(a.take(b.len() as int)[i] == a[i]);
            }
        }
    }
}

/// Two functions show no changed instruction exactly when their normalized
/// instruction sequences are equal.
pub proof fn lemma_no_changes_iff_same_instructions(f: FunctionModel, g: FunctionModel)
    ensures
        (if f.instructions.len() >= g.instructions.len() {
            f.instructions.len()
        } else {
            g.instructions.len()
        }) - positional_matches(normalized_seq(f), normalized_seq(g)) == 0 <==> normalized_seq(f)
            == normalized_seq(g),
{
    let a = normalized_seq(f);
    let b = normalized_seq(g);
    lemma_positional_counts_equal_instructions(a, b);
    if a == b {
        assert(b.take(a.len() as int) =~= a);
    }
    if a.len() <= b.len() && b.take(a.len() as int) == a && a.len() == b.len() {
        assert(b.take(a.len() as int) =~= b);
    }
    if b.len() <= a.len() && a.take(b.len() as int) == b && a.len() == b.len() {
        assert(a.take(b.len() as int) =~= a);
    }
}

} // verus!
