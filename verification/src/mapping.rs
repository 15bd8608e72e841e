use crate::matcher::{fingerprint, normalized_seq, spec_fingerprint};
use crate::pe::{call_targets_upto, Function, FunctionModel};
use vstd::prelude::*;

verus! {

/// The relationship between a source and target function.
#[derive(Clone, Copy, Debug, Eq, PartialEq, Structural)]
pub enum MapState {
    /// A high-confidence match.
    Matched,
    /// A lower-confidence accepted match.
    Changed,
    /// No target passed the threshold.
    Removed,
    /// More than one target has nearly the same score.
    Ambiguous,
    /// A target has no source mapping.
    New,
}

/// The fingerprint of a function model.
pub open spec fn fingerprint_of(f: FunctionModel) -> u64 {
    spec_fingerprint(normalized_seq(f))
}

/// The fingerprints of functions, in order.
pub fn fingerprints(functions: &[Function]) -> (r: Vec<u64>)
    ensures
        r@.len() == functions@.len(),
        forall|i: int| 0 <= i < functions@.len() ==> #[trigger] r@[i] == fingerprint_of(functions@[i]@),
{
    let mut out: Vec<u64> = Vec::new();
    let mut i: usize = 0;
    while i < functions.len()
        invariant
            i <= functions@.len(),
            out@.len() == i,
            forall|k: int| 0 <= k < i ==> #[trigger] out@[k] == fingerprint_of(functions@[k]@),
        decreases functions@.len() - i,
    {
        out.push(fingerprint(&functions[i]));
        i = i + 1;
    }
    out
}

/// Target `t` is an exact candidate for source `s`: the same fingerprint
/// and the same number of instructions.
pub open spec fn exact_match(s: FunctionModel, t: FunctionModel) -> bool {
    fingerprint_of(s) == fingerprint_of(t) && s.instructions.len() == t.instructions.len()
}

/// The indexes of the first `k` targets that are exact candidates for `s`,
/// in order.
pub open spec fn exact_indexes(s: FunctionModel, targets: Seq<FunctionModel>, k: nat) -> Seq<usize>
    decreases k,
{
    if k == 0 || k > targets.len() {
        seq![]
    } else {
        exact_indexes(s, targets, (k - 1) as nat) + if exact_match(s, targets[k - 1]) {
            seq![(k - 1) as usize]
        } else {
            seq![]
        }
    }
}

/// The view of a slice of functions.
pub open spec fn models(functions: Seq<Function>) -> Seq<FunctionModel> {
    functions.map_values(|f: Function| f@)
}

/// The indexes of the targets that are exact candidates for the source (the
/// same fingerprint and instruction count), in order; `target_fingerprints`
/// holds the targets' fingerprints.
pub fn exact_candidates(source: &Function, targets: &[Function], target_fingerprints: &[u64]) -> (r:
    Vec<usize>)
    requires
        target_fingerprints@.len() == targets@.len(),
        forall|i: int|
            0 <= i < targets@.len() ==> #[trigger] target_fingerprints@[i] == fingerprint_of(targets@[i]@),
    ensures
        r@ == exact_indexes(source@, models(targets@), targets@.len()),
{
    let source_fingerprint = fingerprint(source);
    let mut out: Vec<usize> = Vec::new();
    let mut i: usize = 0;
    while i < targets.len()
        invariant
            target_fingerprints@.len() == targets@.len(),
            forall|i: int|
                0 <= i < targets@.len() ==> #[trigger] target_fingerprints@[i] == fingerprint_of(targets@[i]@),
            source_fingerprint == fingerprint_of(source@),
            i <= targets@.len(),
            out@ == exact_indexes(source@, models(targets@), i as nat),
        decreases targets@.len() - i,
    {
        assert(models(targets@)[i as int] == targets@[i as int]@);
        if target_fingerprints[i] == source_fingerprint && targets[i].instructions.len()
            == source.instructions.len() {
            out.push(i);
        }
        i = i + 1;
    }
    out
}

/// The anchor candidates from the first `k` sources: for each source with
/// exactly one exact candidate, the pair of its address and that
/// candidate's address.
pub open spec fn raw_anchors(sources: Seq<FunctionModel>, targets: Seq<FunctionModel>, k: nat) -> Seq<
    (u64, u64),
>
    decreases k,
{
    if k == 0 || k > sources.len() {
        seq![]
    } else {
        let e = exact_indexes(sources[k - 1], targets, targets.len());
        raw_anchors(sources, targets, (k - 1) as nat) + if e.len() == 1 {
            seq![(sources[k - 1].address, targets[e[0] as int].address)]
        } else {
            seq![]
        }
    }
}

/// The number of pairs among the first `k` whose target address is `t`.
pub open spec fn target_uses(pairs: Seq<(u64, u64)>, t: u64, k: nat) -> nat
    decreases k,
{
    if k == 0 || k > pairs.len() {
        0
    } else {
        target_uses(pairs, t, (k - 1) as nat) + if pairs[k - 1].1 == t {
            1nat
        } else {
            0nat
        }
    }
}

/// The pairs among the first `k` whose target address no other pair uses.
pub open spec fn unique_pairs(pairs: Seq<(u64, u64)>, k: nat) -> Seq<(u64, u64)>
    decreases k,
{
    if k == 0 || k > pairs.len() {
        seq![]
    } else {
        unique_pairs(pairs, (k - 1) as nat) + if target_uses(pairs, pairs[k - 1].1, pairs.len()) == 1 {
            seq![pairs[k - 1]]
        } else {
            seq![]
        }
    }
}

/// The anchors of a whole-binary mapping: the pairs (source address, target
/// address) of sources with exactly one exact candidate, where no other
/// such source has the same candidate.
pub open spec fn spec_anchors(sources: Seq<FunctionModel>, targets: Seq<FunctionModel>) -> Seq<(u64, u64)> {
    let raw = raw_anchors(sources, targets, sources.len());
    unique_pairs(raw, raw.len())
}

/// The number of pairs of `pairs` whose target address is `t`.
fn count_target(pairs: &Vec<(u64, u64)>, t: u64) -> (r: usize)
    ensures
        r == target_uses(pairs@, t, pairs@.len()),
{
    let mut count: usize = 0;
    let mut i: usize = 0;
    while i < pairs.len()
        invariant
            i <= pairs@.len(),
            count <= i,
            count == target_uses(pairs@, t, i as nat),
        decreases pairs@.len() - i,
    {
        if pairs[i].1 == t {
            count = count + 1;
        }
        i = i + 1;
    }
    count
}

/// The anchors of a whole-binary mapping between source and target
/// functions.
pub fn anchors(sources: &[Function], targets: &[Function]) -> (r: Vec<(u64, u64)>)
    ensures
        r@ == spec_anchors(models(sources@), models(targets@)),
{
    let target_fingerprints = fingerprints(targets);
    let mut raw: Vec<(u64, u64)> = Vec::new();
    let mut i: usize = 0;
    while i < sources.len()
        invariant
            target_fingerprints@.len() == targets@.len(),
            forall|i: int|
                0 <= i < targets@.len() ==> #[trigger] target_fingerprints@[i] == fingerprint_of(targets@[i]@),
            i <= sources@.len(),
            raw@ == raw_anchors(models(sources@), models(targets@), i as nat),
        decreases sources@.len() - i,
    {
        let candidates = exact_candidates(&sources[i], targets, &target_fingerprints);
        assert(models(sources@)[i as int] == sources@[i as int]@);
        if candidates.len() == 1 {
            proof {
                let e = exact_indexes(sources@[i as int]@, models(targets@), targets@.len());
                lemma_exact_indexes_bound(sources@[i as int]@, models(targets@), targets@.len());
                assert(e[0] < targets@.len());
                assert(models(targets@)[e[0] as int] == targets@[e[0] as int]@);
            }
            raw.push((sources[i].address, targets[candidates[0]].address));
        }
        i = i + 1;
    }
    let mut result: Vec<(u64, u64)> = Vec::new();
    let mut k: usize = 0;
    while k < raw.len()
        invariant
            k <= raw@.len(),
            result@ == unique_pairs(raw@, k as nat),
        decreases raw@.len() - k,
    {
        if count_target(&raw, raw[k].1) == 1 {
            result.push(raw[k]);
        }
        k = k + 1;
    }
    result
}

/// The exact candidate indexes are indexes of targets.
proof fn lemma_exact_indexes_bound(s: FunctionModel, targets: Seq<FunctionModel>, k: nat)
    ensures
        forall|j: int| 0 <= j < exact_indexes(s, targets, k).len() ==> #[trigger] exact_indexes(s, targets, k)[j] < targets.len(),
    decreases k,
{
    if k > 0 && k <= targets.len() {
        lemma_exact_indexes_bound(s, targets, (k - 1) as nat);
        let a = exact_indexes(s, targets, (k - 1) as nat);
        let b = if exact_match(s, targets[k - 1]) {
            seq![(k - 1) as usize]
        } else {
            Seq::<usize>::empty()
        };
        assert forall|j: int| 0 <= j < (a + b).len() implies #[trigger] (a + b)[j] < targets.len() by {
            if j >= a.len() {
                assert((a + b)[j] == b[j - a.len()]);
            }
        }
    }
}

/// The anchored target of `t`: the target address of the last anchor whose
/// source address is `t`, among the first `k`.
pub open spec fn anchored(anchors: Seq<(u64, u64)>, t: u64, k: nat) -> Option<u64>
    decreases k,
{
    if k == 0 || k > anchors.len() {
        None
    } else if anchors[k - 1].0 == t {
        Some(anchors[k - 1].1)
    } else {
        anchored(anchors, t, (k - 1) as nat)
    }
}

/// The values among the first `k` of `s`, each once, in order of first
/// appearance.
pub open spec fn distinct_upto(s: Seq<u64>, k: nat) -> Seq<u64>
    decreases k,
{
    if k == 0 || k > s.len() {
        seq![]
    } else {
        let d = distinct_upto(s, (k - 1) as nat);
        if d.contains(s[k - 1]) {
            d
        } else {
            d.push(s[k - 1])
        }
    }
}

/// The anchored targets of the first `k` call targets, in order.
pub open spec fn anchored_calls(calls: Seq<u64>, anchors: Seq<(u64, u64)>, k: nat) -> Seq<u64>
    decreases k,
{
    if k == 0 || k > calls.len() {
        seq![]
    } else {
        anchored_calls(calls, anchors, (k - 1) as nat) + match anchored(anchors, calls[k - 1], anchors.len()) {
            Some(t) => seq![t],
            None => seq![],
        }
    }
}

/// The number of the first `k` values of `known` that `targets` holds.
pub open spec fn present_count(known: Seq<u64>, targets: Seq<u64>, k: nat) -> nat
    decreases k,
{
    if k == 0 || k > known.len() {
        0
    } else {
        present_count(known, targets, (k - 1) as nat) + if targets.contains(known[k - 1]) {
            1nat
        } else {
            0nat
        }
    }
}

/// The known targets of a source function: the distinct anchored targets
/// of its direct calls.
pub open spec fn known_targets(source: FunctionModel, anchors: Seq<(u64, u64)>) -> Seq<u64> {
    let calls = call_targets_upto(source.instructions, source.instructions.len());
    let a = anchored_calls(calls, anchors, calls.len());
    distinct_upto(a, a.len())
}

/// Whether `v` holds `x`.
fn holds_u64(v: &Vec<u64>, x: u64) -> (r: bool)
    ensures
        r == v@.contains(x),
{
    let mut i: usize = 0;
    while i < v.len()
        invariant
            i <= v@.len(),
            forall|k: int| 0 <= k < i ==> v@[k] != x,
        decreases v@.len() - i,
    {
        if v[i] == x {
            return true;
        }
        i = i + 1;
    }
    false
}

/// The target address of the last anchor whose source address is `t`.
fn lookup_anchor(anchors: &Vec<(u64, u64)>, t: u64) -> (r: Option<u64>)
    ensures
        r == anchored(anchors@, t, anchors@.len()),
{
    let mut k = anchors.len();
    while k > 0
        invariant
            k <= anchors@.len(),
            anchored(anchors@, t, anchors@.len()) == anchored(anchors@, t, k as nat),
        decreases k,
    {
        if anchors[k - 1].0 == t {
            return Some(anchors[k - 1].1);
        }
        k = k - 1;
    }
    None
}

/// The counts behind the relationship similarity of a candidate: how many
/// of the source's known targets (the distinct anchored targets of its
/// direct calls) the candidate calls directly, and how many known targets
/// there are.
pub fn relationship_counts(source: &Function, candidate: &Function, anchors: &Vec<(u64, u64)>) -> (r: (
    usize,
    usize,
))
    ensures
        r.1 == known_targets(source@, anchors@).len(),
        r.0 == present_count(
            known_targets(source@, anchors@),
            call_targets_upto(candidate@.instructions, candidate@.instructions.len()),
            known_targets(source@, anchors@).len(),
        ),
{
    let calls = source.direct_call_targets();
    let mut anchored_targets: Vec<u64> = Vec::new();
    let mut i: usize = 0;
    while i < calls.len()
        invariant
            i <= calls@.len(),
            anchored_targets@ == anchored_calls(calls@, anchors@, i as nat),
        decreases calls@.len() - i,
    {
        let found = lookup_anchor(anchors, calls[i]);
        match found {
            Some(t) => {
                anchored_targets.push(t);
            },
            None => {},
        }
        i = i + 1;
    }
    let mut known: Vec<u64> = Vec::new();
    let mut j: usize = 0;
    while j < anchored_targets.len()
        invariant
            j <= anchored_targets@.len(),
            known@ == distinct_upto(anchored_targets@, j as nat),
        decreases anchored_targets@.len() - j,
    {
        if !holds_u64(&known, anchored_targets[j]) {
            known.push(anchored_targets[j]);
        }
        j = j + 1;
    }
    let candidate_targets = candidate.direct_call_targets();
    let mut matched: usize = 0;
    let mut m: usize = 0;
    while m < known.len()
        invariant
            m <= known@.len(),
            matched <= m,
            matched == present_count(known@, candidate_targets@, m as nat),
        decreases known@.len() - m,
    {
        if holds_u64(&candidate_targets, known[m]) {
            matched = matched + 1;
        }
        m = m + 1;
    }
    (matched, known.len())
}


/// Counting uses of a target address over more pairs counts no fewer.
proof fn lemma_target_uses_monotone(pairs: Seq<(u64, u64)>, t: u64, j: nat, k: nat)
    requires
        j <= k <= pairs.len(),
    ensures
        target_uses(pairs, t, j) <= target_uses(pairs, t, k),
    decreases k - j,
{
    if j < k {
        lemma_target_uses_monotone(pairs, t, j, (k - 1) as nat);
    }
}

/// The kept pairs among the first `k` have distinct target addresses, and
/// each one's target address is used among the first `k` pairs.
proof fn lemma_unique_pairs_distinct(pairs: Seq<(u64, u64)>, k: nat)
    requires
        k <= pairs.len(),
    ensures
        forall|i: int, j: int|
            0 <= i < j < unique_pairs(pairs, k).len() ==> (#[trigger] unique_pairs(pairs, k)[i]).1
                != (#[trigger] unique_pairs(pairs, k)[j]).1,
        forall|i: int|
            0 <= i < unique_pairs(pairs, k).len() ==> target_uses(pairs, (#[trigger] unique_pairs(pairs, k)[i]).1, k) >= 1,
    decreases k,
{
    if k > 0 {
        let prev = unique_pairs(pairs, (k - 1) as nat);
        lemma_unique_pairs_distinct(pairs, (k - 1) as nat);
        let cur = unique_pairs(pairs, k);
        let t = pairs[k - 1].1;
        assert forall|i: int| 0 <= i < prev.len() implies target_uses(pairs, (#[trigger] prev[i]).1, k) >= 1 by {
            lemma_target_uses_monotone(pairs, prev[i].1, (k - 1) as nat, k);
        }
        if target_uses(pairs, t, pairs.len()) == 1 {
            assert(cur == prev.push(pairs[k - 1]));
            assert forall|i: int| 0 <= i < prev.len() implies (#[trigger] prev[i]).1 != t by {
                if prev[i].1 == t {
                    assert(target_uses(pairs, t, (k - 1) as nat) >= 1);
                    assert(target_uses(pairs, t, k) >= 2);
                    lemma_target_uses_monotone(pairs, t, k, pairs.len());
                }
            }
            assert forall|i: int, j: int| 0 <= i < j < cur.len() implies (#[trigger] cur[i]).1 != (#[trigger] cur[j]).1 by {
                assert(cur[i] == prev[i]);
                if j < prev.len() {
                    assert(cur[j] == prev[j]);
                } else {
                    assert(cur[j] == pairs[k - 1]);
                }
            }
            assert forall|i: int| 0 <= i < cur.len() implies target_uses(pairs, (#[trigger] cur[i]).1, k) >= 1 by {
                if i < prev.len() {
                    assert(cur[i] == prev[i]);
                }
            }
        } else {
            assert(cur =~= prev);
        }
    }
}

/// No two anchors of a whole-binary mapping share a target address.
pub proof fn lemma_anchors_one_to_one(sources: Seq<FunctionModel>, targets: Seq<FunctionModel>)
    ensures
        forall|i: int, j: int|
            0 <= i < j < spec_anchors(sources, targets).len() ==> (#[trigger] spec_anchors(sources, targets)[i]).1
                != (#[trigger] spec_anchors(sources, targets)[j]).1,
{
    let raw = raw_anchors(sources, targets, sources.len());
    lemma_unique_pairs_distinct(raw, raw.len());
}


proof fn lemma_distinct_upto(s: Seq<u64>, k: nat)
    requires
        k <= s.len(),
    ensures
        forall|i: int, j: int|
            0 <= i < j < distinct_upto(s, k).len() ==> (#[trigger] distinct_upto(s, k)[i]) != (#[trigger] distinct_upto(s, k)[j]),
        forall|x: u64| distinct_upto(s, k).contains(x) <==> exists|i: int| 0 <= i < k && (#[trigger] s[i]) == x,
    decreases k,
{
    if k > 0 {
        lemma_distinct_upto(s, (k - 1) as nat);
        let d = distinct_upto(s, (k - 1) as nat);
        let v = s[k - 1];
        if d.contains(v) {
            assert forall|x: u64| d.contains(x) <==> exists|i: int| 0 <= i < k && (#[trigger] s[i]) == x by {
                if exists|i: int| 0 <= i < k && (#[trigger] s[i]) == x {
                    let i = choose|i: int| 0 <= i < k && (#[trigger] s[i]) == x;
                    if i == k - 1 {
                    } else {
                        assert(exists|i: int| 0 <= i < k - 1 && (#[trigger] s[i]) == x);
                    }
                }
            }
        } else {
            let e = d.push(v);
            assert forall|i: int, j: int| 0 <= i < j < e.len() implies (#[trigger] e[i]) != (#[trigger] e[j]) by {
                assert(e[i] == d[i]);
                if j < d.len() {
                    assert(e[j] == d[j]);
                } else {
                    assert(e[j] == v);
                    assert(d.contains(d[i]));
                }
            }
            assert forall|x: u64| e.contains(x) <==> exists|i: int| 0 <= i < k && (#[trigger] s[i]) == x by {
                if e.contains(x) {
                    let w = choose|w: int| 0 <= w < e.len() && e[w] == x;
                    if w < d.len() {
                        assert(e[w] == d[w]);
                        assert(d.contains(x));
                        let i = choose|i: int| 0 <= i < k - 1 && (#[trigger] s[i]) == x;
                        assert(0 <= i < k && s[i] == x);
                    } else {
                        assert(s[k - 1] == x);
                    }
                }
                if exists|i: int| 0 <= i < k && (#[trigger] s[i]) == x {
                    let i = choose|i: int| 0 <= i < k && (#[trigger] s[i]) == x;
                    if i == k - 1 {
                        assert(e[d.len() as int] == x);
                    } else {
                        assert(0 <= i < k - 1 && s[i] == x);
                        assert(d.contains(x));
                        let w = choose|w: int| 0 <= w < d.len() && d[w] == x;
                        assert(e[w] == x);
                    }
                }
            }
        }
    }
}

proof fn lemma_anchored_calls(calls: Seq<u64>, anchors: Seq<(u64, u64)>, k: nat)
    requires
        k <= calls.len(),
    ensures
        forall|x: u64|
            anchored_calls(calls, anchors, k).contains(x) <==> exists|i: int|
                0 <= i < k && anchored(anchors, #[trigger] calls[i], anchors.len()) == Some(x),
    decreases k,
{
    if k > 0 {
        lemma_anchored_calls(calls, anchors, (k - 1) as nat);
        let p = anchored_calls(calls, anchors, (k - 1) as nat);
        let extra = match anchored(anchors, calls[k - 1], anchors.len()) {
            Some(t) => seq![t],
            None => Seq::<u64>::empty(),
        };
        let c = anchored_calls(calls, anchors, k);
        assert(c == p + extra);
        assert forall|x: u64| c.contains(x) <==> exists|i: int|
            0 <= i < k && anchored(anchors, #[trigger] calls[i], anchors.len()) == Some(x) by {
            if c.contains(x) {
                let w = choose|w: int| 0 <= w < c.len() && c[w] == x;
                if w < p.len() {
                    assert(c[w] == p[w]);
                    assert(p.contains(x));
                    let i = choose|i: int| 0 <= i < k - 1 && anchored(anchors, #[trigger] calls[i], anchors.len()) == Some(x);
                    assert(0 <= i < k);
                } else {
                    assert(c[w] == extra[w - p.len()]);
                }
            }
            if exists|i: int| 0 <= i < k && anchored(anchors, #[trigger] calls[i], anchors.len()) == Some(x) {
                let i = choose|i: int| 0 <= i < k && anchored(anchors, #[trigger] calls[i], anchors.len()) == Some(x);
                if i == k - 1 {
                    assert(c[p.len() as int] == x);
                } else {
                    assert(0 <= i < k - 1 && anchored(anchors, calls[i], anchors.len()) == Some(x));
                    assert(p.contains(x));
                    let w = choose|w: int| 0 <= w < p.len() && p[w] == x;
                    assert(c[w] == x);
                }
            }
        }
    }
}

/// The known targets of a source function are distinct, and they are
/// exactly the anchored targets of its direct calls: calling the same
/// anchored callee twice makes one known target, so the second count of
/// `relationship_counts` is the number of distinct anchored callees.
pub proof fn lemma_known_targets_distinct(source: FunctionModel, anchors: Seq<(u64, u64)>)
    ensures
        forall|i: int, j: int|
            0 <= i < j < known_targets(source, anchors).len() ==> (#[trigger] known_targets(source, anchors)[i])
                != (#[trigger] known_targets(source, anchors)[j]),
        forall|x: u64|
            known_targets(source, anchors).contains(x) <==> exists|i: int|
                0 <= i < call_targets_upto(source.instructions, source.instructions.len()).len() && anchored(
                    anchors,
                    #[trigger] call_targets_upto(source.instructions, source.instructions.len())[i],
                    anchors.len(),
                ) == Some(x),
{
    let calls = call_targets_upto(source.instructions, source.instructions.len());
    let a = anchored_calls(calls, anchors, calls.len());
    lemma_distinct_upto(a, a.len());
    lemma_anchored_calls(calls, anchors, calls.len());
    assert forall|x: u64| known_targets(source, anchors).contains(x) <==> exists|i: int|
        0 <= i < calls.len() && anchored(anchors, #[trigger] calls[i], anchors.len()) == Some(x) by {
        if known_targets(source, anchors).contains(x) {
            let i = choose|i: int| 0 <= i < a.len() && (#[trigger] a[i]) == x;
            assert(a.contains(x));
        }
        if exists|i: int| 0 <= i < calls.len() && anchored(anchors, #[trigger] calls[i], anchors.len()) == Some(x) {
            assert(a.contains(x));
            let w = choose|w: int| 0 <= w < a.len() && a[w] == x;
            assert(exists|i: int| 0 <= i < a.len() && (#[trigger] a[i]) == x);
        }
    }
}

} // verus!
