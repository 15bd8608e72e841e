use crate::disasm::NormalizedModel;
use crate::matcher::{lcs, lemma_lcs_bound, normalized_seq, same_normalized};
use crate::pe::Function;
use vstd::prelude::*;

verus! {

/// The length of a longest common subsequence of the first `i` items of
/// `a` and the first `j` items of `b`.
pub open spec fn lcs_at(a: Seq<NormalizedModel>, b: Seq<NormalizedModel>, i: int, j: int) -> nat {
    lcs(a.take(i), b.take(j))
}

/// The alignment of the first `i` items of `a` with the first `j` items of
/// `b` read back from the longest-common-subsequence table: equal last
/// items pair up; otherwise the source item is dropped when that keeps the
/// longest common subsequence at least as long as dropping the target item,
/// and the target item is dropped else.
pub open spec fn traceback(a: Seq<NormalizedModel>, b: Seq<NormalizedModel>, i: nat, j: nat) -> Seq<
    (Option<usize>, Option<usize>),
>
    decreases i + j,
{
    if i == 0 && j == 0 {
        seq![]
    } else if i > 0 && j > 0 && a[i - 1] == b[j - 1] {
        traceback(a, b, (i - 1) as nat, (j - 1) as nat).push(
            (Some((i - 1) as usize), Some((j - 1) as usize)),
        )
    } else if j == 0 || (i > 0 && lcs_at(a, b, i - 1, j as int) >= lcs_at(a, b, i as int, j - 1)) {
        traceback(a, b, (i - 1) as nat, j).push((Some((i - 1) as usize), None))
    } else {
        traceback(a, b, i, (j - 1) as nat).push((None, Some((j - 1) as usize)))
    }
}

/// The source indexes of an alignment, in order.
pub open spec fn source_indexes(t: Seq<(Option<usize>, Option<usize>)>) -> Seq<usize>
    decreases t.len(),
{
    if t.len() == 0 {
        seq![]
    } else {
        source_indexes(t.drop_last()) + match t.last().0 {
            Some(x) => seq![x],
            None => seq![],
        }
    }
}

/// The target indexes of an alignment, in order.
pub open spec fn target_indexes(t: Seq<(Option<usize>, Option<usize>)>) -> Seq<usize>
    decreases t.len(),
{
    if t.len() == 0 {
        seq![]
    } else {
        target_indexes(t.drop_last()) + match t.last().1 {
            Some(y) => seq![y],
            None => seq![],
        }
    }
}

/// The number of pairs of an alignment that hold both indexes.
pub open spec fn matched_pairs(t: Seq<(Option<usize>, Option<usize>)>) -> nat
    decreases t.len(),
{
    if t.len() == 0 {
        0
    } else {
        matched_pairs(t.drop_last()) + if t.last().0 is Some && t.last().1 is Some {
            1nat
        } else {
            0nat
        }
    }
}

/// The sequence `0, 1, ..., n - 1`.
pub open spec fn indexes_below(n: nat) -> Seq<usize> {
    Seq::new(n, |k: int| k as usize)
}

/// The laws of the alignment: every pair holds an index; the source
/// indexes are `0..i` in order and the target indexes `0..j` in order; a
/// pair that holds both indexes holds equal items; and there are as many
/// such pairs as the longest common subsequence is long.
pub proof fn lemma_traceback(a: Seq<NormalizedModel>, b: Seq<NormalizedModel>, i: nat, j: nat)
    requires
        i <= a.len(),
        j <= b.len(),
        a.len() <= usize::MAX,
        b.len() <= usize::MAX,
    ensures
        forall|k: int|
            0 <= k < traceback(a, b, i, j).len() ==> (#[trigger] traceback(a, b, i, j)[k]).0 is Some
                || traceback(a, b, i, j)[k].1 is Some,
        forall|k: int|
            0 <= k < traceback(a, b, i, j).len() && (#[trigger] traceback(a, b, i, j)[k]).0 is Some
                && traceback(a, b, i, j)[k].1 is Some ==> a[traceback(a, b, i, j)[k].0->0 as int]
                == b[traceback(a, b, i, j)[k].1->0 as int],
        source_indexes(traceback(a, b, i, j)) == indexes_below(i),
        target_indexes(traceback(a, b, i, j)) == indexes_below(j),
        matched_pairs(traceback(a, b, i, j)) == lcs_at(a, b, i as int, j as int),
    decreases i + j,
{
    let t = traceback(a, b, i, j);
    if i == 0 && j == 0 {
        assert(indexes_below(0) =~= Seq::<usize>::empty());
        assert(a.take(0).len() == 0);
    } else {
        let (pi, pj) = if i > 0 && j > 0 && a[i - 1] == b[j - 1] {
            ((i - 1) as nat, (j - 1) as nat)
        } else if j == 0 || (i > 0 && lcs_at(a, b, i - 1, j as int) >= lcs_at(
            a,
            b,
            i as int,
            j - 1,
        )) {
            ((i - 1) as nat, j)
        } else {
            (i, (j - 1) as nat)
        };
        lemma_traceback(a, b, pi, pj);
        let p = traceback(a, b, pi, pj);
        assert(t.drop_last() == p);
        assert(indexes_below(i) =~= if pi < i {
            indexes_below(pi).push((i - 1) as usize)
        } else {
            indexes_below(pi)
        });
        assert(indexes_below(j) =~= if pj < j {
            indexes_below(pj).push((j - 1) as usize)
        } else {
            indexes_below(pj)
        });
        assert forall|k: int| 0 <= k < t.len() implies (#[trigger] t[k]).0 is Some || t[k].1 is Some by {
            if k < p.len() {
                assert(t[k] == p[k]);
            }
        }
        assert forall|k: int|
            0 <= k < t.len() && (#[trigger] t[k]).0 is Some && t[k].1 is Some implies a[t[k].0->0 as int]
                == b[t[k].1->0 as int] by {
            if k < p.len() {
                assert(t[k] == p[k]);
            }
        }
        let aa = a.take(i as int);
        let bb = b.take(j as int);
        if i > 0 {
            assert(aa.drop_last() =~= a.take(i - 1));
        }
        if j > 0 {
            assert(bb.drop_last() =~= b.take(j - 1));
        }
        if i == 0 {
            assert(aa.len() == 0);
            assert(a.take(0).len() == 0);
        }
        if j == 0 {
            assert(bb.len() == 0);
            assert(b.take(0).len() == 0);
        }
        if i > 0 && j > 0 {
            assert(aa.last() == a[i - 1]);
            assert(bb.last() == b[j - 1]);
        }
    }
}

/// The alignment of the normalized instructions of two functions, by a
/// longest common subsequence.
pub fn align(source: &Function, target: &Function) -> (r: Vec<(Option<usize>, Option<usize>)>)
    ensures
        r@ == traceback(
            normalized_seq(source@),
            normalized_seq(target@),
            source@.instructions.len(),
            target@.instructions.len(),
        ),
{
    let ghost a = normalized_seq(source@);
    let ghost b = normalized_seq(target@);
    let n = source.instructions.len();
    let m = target.instructions.len();
    let mut first: Vec<usize> = Vec::new();
    first.push(0);
    let mut j: usize = 0;
    while j < m
        invariant
            m == target.instructions@.len(),
            j <= m,
            first@.len() == j + 1,
            forall|k: int| 0 <= k <= j ==> first@[k] == 0,
        decreases m - j,
    {
        first.push(0);
        j = j + 1;
    }
    let mut table: Vec<Vec<usize>> = Vec::new();
    proof {
        assert forall|k: int| 0 <= k <= m implies #[trigger] first@[k] == lcs_at(a, b, 0, k) by {
            assert(a.take(0).len() == 0);
        }
    }
    table.push(first);
    let mut i: usize = 0;
    while i < n
        invariant
            a == normalized_seq(source@),
            b == normalized_seq(target@),
            n == source.instructions@.len(),
            m == target.instructions@.len(),
            a.len() == n,
            b.len() == m,
            i <= n,
            table@.len() == i + 1,
            forall|r: int|
                0 <= r <= i ==> (#[trigger] table@[r])@.len() == m + 1 && forall|k: int|
                    0 <= k <= m ==> #[trigger] table@[r]@[k] == lcs_at(a, b, r, k),
        decreases n - i,
    {
        let mut current: Vec<usize> = Vec::new();
        current.push(0);
        assert(lcs_at(a, b, i + 1, 0) == 0) by {
            assert(b.take(0).len() == 0);
        }
        let mut index: usize = 0;
        while index < m
            invariant
                a == normalized_seq(source@),
                b == normalized_seq(target@),
                n == source.instructions@.len(),
                m == target.instructions@.len(),
                a.len() == n,
                b.len() == m,
                i < n,
                index <= m,
                table@.len() == i + 1,
                forall|r: int|
                    0 <= r <= i ==> (#[trigger] table@[r])@.len() == m + 1 && forall|k: int|
                        0 <= k <= m ==> #[trigger] table@[r]@[k] == lcs_at(a, b, r, k),
                current@.len() == index + 1,
                forall|k: int| 0 <= k <= index ==> #[trigger] current@[k] == lcs_at(a, b, i + 1, k),
            decreases m - index,
        {
            let ghost aa = a.take(i + 1);
            let ghost bb = b.take(index + 1);
            proof {
                assert(aa.drop_last() =~= a.take(i as int));
                assert(bb.drop_last() =~= b.take(index as int));
                assert(aa.last() == a[i as int]);
                assert(a[i as int] == source@.instructions[i as int].normalized);
                assert(source@.instructions[i as int] == source.instructions@[i as int]@);
                assert(bb.last() == b[index as int]);
                assert(b[index as int] == target@.instructions[index as int].normalized);
                assert(target@.instructions[index as int] == target.instructions@[index as int]@);
                lemma_lcs_bound(a.take(i as int), b.take(index as int));
            }
            let above = &table[i];
            let value = if same_normalized(
                &source.instructions[i].normalized,
                &target.instructions[index].normalized,
            ) {
                above[index] + 1
            } else if above[index + 1] >= current[index] {
                above[index + 1]
            } else {
                current[index]
            };
            current.push(value);
            index = index + 1;
        }
        table.push(current);
        i = i + 1;
    }
    let mut reversed: Vec<(Option<usize>, Option<usize>)> = Vec::new();
    let mut si = n;
    let mut ti = m;
    while si > 0 || ti > 0
        invariant
            a == normalized_seq(source@),
            b == normalized_seq(target@),
            n == source.instructions@.len(),
            m == target.instructions@.len(),
            a.len() == n,
            b.len() == m,
            si <= n,
            ti <= m,
            table@.len() == n + 1,
            forall|r: int|
                0 <= r <= n ==> (#[trigger] table@[r])@.len() == m + 1 && forall|k: int|
                    0 <= k <= m ==> #[trigger] table@[r]@[k] == lcs_at(a, b, r, k),
            traceback(a, b, n as nat, m as nat) == traceback(a, b, si as nat, ti as nat)
                + reversed@.reverse(),
        decreases si + ti,
    {
        let ghost before = reversed@;
        if si > 0 && ti > 0 && same_normalized(
            &source.instructions[si - 1].normalized,
            &target.instructions[ti - 1].normalized,
        ) {
            proof {
                assert(a[si - 1] == source.instructions@[si - 1]@.normalized);
                assert(b[ti - 1] == target.instructions@[ti - 1]@.normalized);
            }
            reversed.push((Some(si - 1), Some(ti - 1)));
            si = si - 1;
            ti = ti - 1;
        } else if ti == 0 || (si > 0 && table[si - 1][ti] >= table[si][ti - 1]) {
            proof {
                if si > 0 && ti > 0 {
                    assert(a[si - 1] == source.instructions@[si - 1]@.normalized);
                    assert(b[ti - 1] == target.instructions@[ti - 1]@.normalized);
                }
            }
            reversed.push((Some(si - 1), None));
            si = si - 1;
        } else {
            proof {
                if si > 0 && ti > 0 {
                    assert(a[si - 1] == source.instructions@[si - 1]@.normalized);
                    assert(b[ti - 1] == target.instructions@[ti - 1]@.normalized);
                }
            }
            reversed.push((None, Some(ti - 1)));
            ti = ti - 1;
        }
        proof {
            let step = reversed@.last();
            assert(reversed@.reverse() =~= seq![step] + before.reverse());
            assert(traceback(a, b, si as nat, ti as nat).push(step) + before.reverse()
                =~= traceback(a, b, si as nat, ti as nat) + reversed@.reverse());
        }
    }
    let mut aligned: Vec<(Option<usize>, Option<usize>)> = Vec::new();
    let mut k = reversed.len();
    while k > 0
        invariant
            k <= reversed@.len(),
            aligned@ == reversed@.reverse().take(reversed@.len() - k),
        decreases k,
    {
        k = k - 1;
        aligned.push(reversed[k]);
        proof {
            assert(reversed@.reverse().take(reversed@.len() - k) =~= reversed@.reverse().take(
                reversed@.len() - k - 1,
            ).push(reversed@[k as int]));
        }
    }
    proof {
        assert(reversed@.reverse().take(reversed@.len() as int) =~= reversed@.reverse());
        assert(traceback(a, b, 0, 0) + reversed@.reverse() =~= reversed@.reverse());
    }
    aligned
}

} // verus!
