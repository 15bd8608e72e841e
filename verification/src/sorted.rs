use crate::pe::FunctionSource;
use vstd::prelude::*;

verus! {

/// The values strictly increase.
pub open spec fn strictly_increasing(s: Seq<u32>) -> bool {
    forall|i: int, j: int| 0 <= i < j < s.len() ==> s[i] < s[j]
}

/// The ranges' starts strictly increase.
pub open spec fn starts_increasing(r: Seq<(u32, u32, FunctionSource)>) -> bool {
    forall|i: int, j: int| 0 <= i < j < r.len() ==> r[i].0 < r[j].0
}

/// Some range of `r` starts at `start`.
pub open spec fn has_start(r: Seq<(u32, u32, FunctionSource)>, start: u32) -> bool {
    exists|k: int| 0 <= k < r.len() && (#[trigger] r[k]).0 == start
}

/// The number of values of `v` below `key`, where `v` strictly increases.
fn lower_bound(v: &Vec<u32>, key: u32) -> (p: usize)
    requires
        strictly_increasing(v@),
    ensures
        p <= v@.len(),
        forall|k: int| 0 <= k < p ==> v@[k] < key,
        forall|k: int| p <= k < v@.len() ==> v@[k] >= key,
{
    let mut low: usize = 0;
    let mut high: usize = v.len();
    while low < high
        invariant
            low <= high <= v@.len(),
            strictly_increasing(v@),
            forall|k: int| 0 <= k < low ==> v@[k] < key,
            forall|k: int| high <= k < v@.len() ==> v@[k] >= key,
        decreases high - low,
    {
        let mid = low + (high - low) / 2;
        if v[mid] < key {
            low = mid + 1;
        } else {
            high = mid;
        }
    }
    low
}

/// Adds `x` to the strictly increasing values of `v`, where it is not yet.
pub fn insert_value(v: &mut Vec<u32>, x: u32)
    requires
        strictly_increasing(old(v)@),
    ensures
        strictly_increasing(final(v)@),
        forall|y: u32| final(v)@.contains(y) <==> (old(v)@.contains(y) || y == x),
{
    let p = lower_bound(v, x);
    if p < v.len() && v[p] == x {
        return;
    }
    let ghost before = v@;
    v.insert(p, x);
    proof {
        before.insert_ensures(p as int, x);
        assert forall|y: u32| v@.contains(y) <==> (before.contains(y) || y == x) by {
            if v@.contains(y) {
                let k = choose|k: int| 0 <= k < v@.len() && v@[k] == y;
                if k < p {
                    assert(before[k] == y);
                } else if k > p {
                    assert(before[k - 1] == y);
                }
            }
            if before.contains(y) {
                let k = choose|k: int| 0 <= k < before.len() && before[k] == y;
                if k < p {
                    assert(v@[k] == y);
                } else {
                    assert(v@[k + 1] == y);
                }
            }
            if y == x {
                assert(v@[p as int] == y);
            }
        }
    }
}

/// The number of ranges of `r` that start below `key`, where the starts
/// strictly increase.
fn lower_bound_start(r: &Vec<(u32, u32, FunctionSource)>, key: u32) -> (p: usize)
    requires
        starts_increasing(r@),
    ensures
        p <= r@.len(),
        forall|k: int| 0 <= k < p ==> r@[k].0 < key,
        forall|k: int| p <= k < r@.len() ==> r@[k].0 >= key,
{
    let mut low: usize = 0;
    let mut high: usize = r.len();
    while low < high
        invariant
            low <= high <= r@.len(),
            starts_increasing(r@),
            forall|k: int| 0 <= k < low ==> r@[k].0 < key,
            forall|k: int| high <= k < r@.len() ==> r@[k].0 >= key,
        decreases high - low,
    {
        let mid = low + (high - low) / 2;
        if r[mid].0 < key {
            low = mid + 1;
        } else {
            high = mid;
        }
    }
    low
}

/// Adds `range` in order of start to `r`, unless a range of `r` already
/// starts where it does.
pub fn insert_range(r: &mut Vec<(u32, u32, FunctionSource)>, range: (u32, u32, FunctionSource))
    requires
        starts_increasing(old(r)@),
    ensures
        starts_increasing(final(r)@),
        has_start(old(r)@, range.0) ==> final(r)@ == old(r)@,
        !has_start(old(r)@, range.0) ==> exists|p: int|
            0 <= p <= old(r)@.len() && final(r)@ == old(r)@.insert(p, range),
{
    let p = lower_bound_start(r, range.0);
    if p < r.len() && r[p].0 == range.0 {
        return;
    }
    let ghost before = r@;
    proof {
        assert(!has_start(before, range.0)) by {
            if has_start(before, range.0) {
                let k = choose|k: int| 0 <= k < before.len() && (#[trigger] before[k]).0 == range.0;
                assert(k >= p);
                if k > p {
                    assert(before[p as int].0 < before[k].0);
                }
            }
        }
    }
    r.insert(p, range);
    proof {
        before.insert_ensures(p as int, range);
        assert forall|i: int, j: int| 0 <= i < j < r@.len() implies r@[i].0 < r@[j].0 by {
            if j < p {
            } else if j == p {
            } else if i < p {
                assert(r@[j] == before[j - 1]);
            } else if i == p {
                assert(r@[j] == before[j - 1]);
            } else {
                assert(r@[j] == before[j - 1]);
                assert(r@[i] == before[i - 1]);
            }
        }
    }
}

} // verus!
