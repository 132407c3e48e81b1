//! Intervals that are evenly spaced in logarithm.
use vstd::prelude::*;
use crate::float::double::F64;
use crate::sorting::{ascending_keys, sort_keys};

verus! {

/// The exponent, to the base two, of point `i` of `count` between two.
pub open spec fn spacing_exponent(log_min: F64, log_max: F64, count: int, i: int) -> F64 {
    log_min.plus(
        F64::nearest_to(i).over(F64::nearest_to(count - 1)).times(log_max.minus(log_min)),
    )
}

/// The exponents of `count` points between the two logarithms, ends included.
pub fn spacing_exponents(log_min: F64, log_max: F64, count: usize) -> (r: Vec<F64>)
    requires
        count >= 2,
    ensures
        r@ == Seq::new(count as nat, |i: int| spacing_exponent(log_min, log_max, count as int, i)),
{
    let mut out: Vec<F64> = Vec::new();
    let mut i: usize = 0;
    while i < count
        invariant
            i <= count,
            count >= 2,
            out@ == Seq::new(
                i as nat,
                |k: int| spacing_exponent(log_min, log_max, count as int, k),
            ),
        decreases count - i,
    {
        let t: F64 = F64::of_usize(i).over(F64::of_usize(count - 1));
        out.push(log_min.plus(t.times(log_max.minus(log_min))));
        i = i + 1;
    }
    out
}

/// The whole number of frames nearest to an interval.
pub open spec fn rounded_interval(x: F64) -> i32 {
    x.round().integer_part(i32::MIN as int, i32::MAX as int) as i32
}

/// The whole numbers of frames nearest to the intervals.
pub open spec fn rounded_intervals(points: Seq<F64>) -> Seq<i32> {
    points.map_values(|x: F64| rounded_interval(x))
}

/// Each interval is longer than the ones before.
pub open spec fn strictly_ascending(v: Seq<i32>) -> bool {
    forall|i: int, j: int| 0 <= i < j < v.len() ==> v[i] < v[j]
}

/// `v` holds the elements of `s`, each once, in ascending order.
pub open spec fn distinct_of(v: Seq<i32>, s: Seq<i32>) -> bool {
    &&& strictly_ascending(v)
    &&& forall|x: i32| v.contains(x) <==> s.contains(x)
}

/// The elements of `s`, each once, in ascending order.
pub open spec fn distinct(s: Seq<i32>) -> Seq<i32> {
    choose|v: Seq<i32>| distinct_of(v, s)
}

/// There is only one such order.
pub proof fn lemma_distinct_is_unique(v: Seq<i32>, s: Seq<i32>)
    requires
        distinct_of(v, s),
    ensures
        distinct(s) == v,
{
    let w = distinct(s);
    let leq = |a: i32, b: i32| a <= b;
    assert(vstd::relations::sorted_by(v, leq));
    assert(vstd::relations::sorted_by(w, leq));
    v.lemma_multiset_has_no_duplicates();
    w.lemma_multiset_has_no_duplicates();
    v.to_multiset_ensures();
    w.to_multiset_ensures();
    assert forall|x: i32| v.to_multiset().count(x) == w.to_multiset().count(x) by {
        assert(v.contains(x) <==> v.to_multiset().count(x) > 0);
        assert(w.contains(x) <==> w.to_multiset().count(x) > 0);
        assert(v.contains(x) <==> s.contains(x));
        assert(w.contains(x) <==> s.contains(x));
    }
    assert(v.to_multiset() =~= w.to_multiset());
    vstd::seq_lib::lemma_sorted_unique(v, w, leq);
}

/// The distinct rounded intervals, ascending, if there are as many as wanted.
pub fn settle_intervals(points: &Vec<F64>, wanted: usize) -> (r: Option<Vec<i32>>)
    ensures
        match r {
            Some(v) => v@ == distinct(rounded_intervals(points@)) && distinct_of(
                v@,
                rounded_intervals(points@),
            ) && v@.len() >= wanted,
            None => distinct(rounded_intervals(points@)).len() < wanted
                && rounded_intervals(points@).to_set().len() < wanted,
        },
{
    let ghost s = rounded_intervals(points@);
    let mut keys: Vec<u128> = Vec::new();
    let mut i: usize = 0;
    while i < points.len()
        invariant
            i <= points@.len(),
            s == rounded_intervals(points@),
            keys@ == s.take(i as int).map_values(|x: i32| interval_key(x)),
        decreases points@.len() - i,
    {
        let x: i32 = points[i].round().to_i32();
        keys.push((x as i64 + 0x8000_0000) as u128);
        assert(s.take(i + 1) =~= s.take(i as int).push(x));
        i = i + 1;
    }
    assert(s.take(i as int) =~= s);
    let order: Vec<u128> = sort_keys(&keys);
    let mut v: Vec<i32> = Vec::new();
    proof {
        assert forall|k: int| 0 <= k < order@.len() implies #[trigger] order@[k] < 0x1_0000_0000
            && s.contains((order@[k] - 0x8000_0000) as i32) by {
            assert(order@.contains(order@[k]));
            assert(keys@.contains(order@[k]));
            let j = choose|j: int| 0 <= j < keys@.len() && keys@[j] == order@[k];
            assert(keys@[j] == interval_key(s[j]));
            assert((order@[k] - 0x8000_0000) as i32 == s[j]);
        }
    }
    let mut k: usize = 0;
    while k < order.len()
        invariant
            k <= order@.len(),
            ascending_keys(order@),
            forall|j: int|
                0 <= j < order@.len() ==> #[trigger] order@[j] < 0x1_0000_0000 && s.contains(
                    (order@[j] - 0x8000_0000) as i32,
                ),
            strictly_ascending(v@),
            v@.len() <= k,
            k > 0 ==> v@.len() > 0 && interval_key(v@.last()) == order@[k - 1],
            forall|j: int| 0 <= j < v@.len() ==> s.contains(#[trigger] v@[j]),
            forall|j: int|
                0 <= j < k ==> #[trigger] v@.contains((order@[j] - 0x8000_0000) as i32),
        decreases order@.len() - k,
    {
        let x: i32 = (order[k] as i64 - 0x8000_0000) as i32;
        let n: usize = v.len();
        let ghost before = v@;
        if n == 0 || v[n - 1] != x {
            proof {
                if k > 0 {
                    assert(order@[k - 1] <= order@[k as int]);
                    assert forall|j: int| 0 <= j < n implies before[j] < x by {
                        assert(before[j] <= before.last());
                    }
                }
            }
            v.push(x);
            assert forall|j: int| 0 <= j < k implies #[trigger] v@.contains(
                (order@[j] - 0x8000_0000) as i32,
            ) by {
                let y = (order@[j] - 0x8000_0000) as i32;
                assert(before.contains(y));
                let m = before.index_of(y);
                assert(v@[m] == y);
            }
            assert(v@[n as int] == x);
        } else {
            assert(v@[n - 1] == x);
        }
        k = k + 1;
    }
    proof {
        assert forall|x: i32| v@.contains(x) <==> s.contains(x) by {
            if s.contains(x) {
                let j = s.index_of(x);
                assert(keys@[j] == interval_key(x));
                assert(keys@.contains(keys@[j]));
                assert(order@.contains(keys@[j]));
                let k = choose|k: int| 0 <= k < order@.len() && order@[k] == keys@[j];
                assert(v@.contains((order@[k] - 0x8000_0000) as i32));
            }
        }
        lemma_distinct_count(v@, s);
        lemma_distinct_is_unique(v@, s);
    }
    if v.len() >= wanted {
        Some(v)
    } else {
        None
    }
}

spec fn interval_key(x: i32) -> u128 {
    (x + 0x8000_0000) as u128
}

/// A list of distinct elements is as long as there are different ones.
pub proof fn lemma_distinct_count(v: Seq<i32>, s: Seq<i32>)
    requires
        distinct_of(v, s),
    ensures
        v.len() == s.to_set().len(),
{
    assert(v.no_duplicates());
    v.unique_seq_to_set();
    assert(v.to_set() =~= s.to_set());
}

} // verus!
