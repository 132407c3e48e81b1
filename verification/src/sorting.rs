//! Sorting by a key.
use vstd::prelude::*;
use vstd::multiset::Multiset;

verus! {

/// Each element is at most the next ones.
pub open spec fn ascending(s: Seq<usize>) -> bool {
    forall|i: int, j: int| 0 <= i <= j < s.len() ==> s[i] <= s[j]
}

/// The elements of `s` in ascending order.
pub open spec fn sorted(s: Seq<usize>) -> Seq<usize> {
    choose|t: Seq<usize>| ascending(t) && t.to_multiset() == s.to_multiset()
}

pub proof fn lemma_sorted(s: Seq<usize>, t: Seq<usize>)
    requires
        ascending(t),
        t.to_multiset() == s.to_multiset(),
    ensures
        sorted(s) == t,
{
    let u = sorted(s);
    let leq = |a: usize, b: usize| a <= b;
    assert(vstd::relations::sorted_by(t, leq));
    assert(vstd::relations::sorted_by(u, leq));
    vstd::seq_lib::lemma_sorted_unique(t, u, leq);
}

/// Every list can be put in ascending order, and holds the same elements then.
pub proof fn lemma_sorted_holds(s: Seq<usize>)
    ensures
        ascending(sorted(s)),
        sorted(s).to_multiset() == s.to_multiset(),
        sorted(s).len() == s.len(),
        forall|k: int| 0 <= k < s.len() ==> s.contains(#[trigger] sorted(s)[k]),
{
    let leq = |a: usize, b: usize| a <= b;
    let t = s.sort_by(leq);
    s.lemma_sort_by_ensures(leq);
    assert(vstd::relations::sorted_by(t, leq));
    assert(ascending(t)) by {
        assert forall|i: int, j: int| 0 <= i <= j < t.len() implies t[i] <= t[j] by {
            if i < j {
                assert(leq(t[i], t[j]));
            }
        }
    }
    lemma_sorted(s, t);
    t.to_multiset_ensures();
    s.to_multiset_ensures();
    assert forall|k: int| 0 <= k < s.len() implies s.contains(#[trigger] sorted(s)[k]) by {
        assert(t.contains(t[k]));
        assert(t.to_multiset().count(t[k]) > 0);
    }
}

/// Sorts in ascending order.
pub fn sort_ascending(v: &mut Vec<usize>)
    ensures
        final(v)@ == sorted(old(v)@),
        ascending(final(v)@),
        final(v)@.to_multiset() == old(v)@.to_multiset(),
{
    let ghost start = v@;
    let n: usize = v.len();
    let mut i: usize = 0;
    while i < n
        invariant
            i <= n,
            n == v@.len(),
            v@.to_multiset() == start.to_multiset(),
            forall|a: int, b: int| 0 <= a <= b < i ==> v@[a] <= v@[b],
        decreases n - i,
    {
        let mut j: usize = i;
        while j > 0 && v[j - 1] > v[j]
            invariant
                j <= i < n,
                n == v@.len(),
                v@.to_multiset() == start.to_multiset(),
                forall|a: int, b: int|
                    0 <= a <= b <= i && a != j && b != j ==> v@[a] <= v@[b],
                forall|b: int| j < b <= i ==> v@[j as int] <= v@[b],
            decreases j,
        {
            let low: usize = v[j];
            let high: usize = v[j - 1];
            let ghost before = v@;
            v.set(j, high);
            v.set(j - 1, low);
            proof {
                broadcast use vstd::seq_lib::group_to_multiset_ensures;
                vstd::seq_lib::to_multiset_update(before, j as int, high);
                vstd::seq_lib::to_multiset_update(before.update(j as int, high), j - 1, low);
                assert(v@.to_multiset() =~= before.to_multiset());
            }
            j = j - 1;
        }
        i = i + 1;
    }
    proof {
        lemma_sorted(start, v@);
    }
}

/// Each key is at most the next ones.
pub open spec fn ascending_keys(s: Seq<u128>) -> bool {
    forall|i: int, j: int| 0 <= i <= j < s.len() ==> s[i] <= s[j]
}

/// The keys of `s` in ascending order.
pub open spec fn sorted_keys(s: Seq<u128>) -> Seq<u128> {
    choose|t: Seq<u128>| ascending_keys(t) && t.to_multiset() == s.to_multiset()
}

pub proof fn lemma_sorted_keys(s: Seq<u128>, t: Seq<u128>)
    requires
        ascending_keys(t),
        t.to_multiset() == s.to_multiset(),
    ensures
        sorted_keys(s) == t,
{
    let u = sorted_keys(s);
    let leq = |a: u128, b: u128| a <= b;
    assert(vstd::relations::sorted_by(t, leq));
    assert(vstd::relations::sorted_by(u, leq));
    vstd::seq_lib::lemma_sorted_unique(t, u, leq);
}

/// Every list of keys can be put in ascending order.
pub proof fn lemma_sort_exists(s: Seq<u128>)
    ensures
        ascending_keys(sorted_keys(s)),
        sorted_keys(s).to_multiset() == s.to_multiset(),
{
    let leq = |a: u128, b: u128| a <= b;
    let t = s.sort_by(leq);
    s.lemma_sort_by_ensures(leq);
    assert(vstd::relations::sorted_by(t, leq));
    assert(ascending_keys(t)) by {
        assert forall|i: int, j: int| 0 <= i <= j < t.len() implies t[i] <= t[j] by {
            if i < j {
                assert(leq(t[i], t[j]));
            }
        }
    }
    lemma_sorted_keys(s, t);
}

/// Merges two ascending runs.
fn merge_keys(a: &Vec<u128>, b: &Vec<u128>) -> (r: Vec<u128>)
    requires
        ascending_keys(a@),
        ascending_keys(b@),
    ensures
        ascending_keys(r@),
        r@.to_multiset() == a@.to_multiset().add(b@.to_multiset()),
{
    let mut out: Vec<u128> = Vec::new();
    let mut i: usize = 0;
    let mut j: usize = 0;
    proof {
        broadcast use vstd::seq_lib::group_to_multiset_ensures;
        assert(a@.take(0).to_multiset() =~= Multiset::<u128>::empty());
        assert(b@.take(0).to_multiset() =~= Multiset::<u128>::empty());
        assert(out@.to_multiset() =~= a@.take(0).to_multiset().add(b@.take(0).to_multiset()));
    }
    while i < a.len() || j < b.len()
        invariant
            i <= a@.len(),
            j <= b@.len(),
            ascending_keys(a@),
            ascending_keys(b@),
            ascending_keys(out@),
            forall|k: int, l: int| 0 <= k < out@.len() && i <= l < a@.len() ==> out@[k] <= a@[l],
            forall|k: int, l: int| 0 <= k < out@.len() && j <= l < b@.len() ==> out@[k] <= b@[l],
            out@.to_multiset() == a@.take(i as int).to_multiset().add(
                b@.take(j as int).to_multiset(),
            ),
        decreases a@.len() - i + b@.len() - j,
    {
        let ghost before = out@;
        if j >= b.len() || (i < a.len() && a[i] <= b[j]) {
            out.push(a[i]);
            proof {
                broadcast use vstd::seq_lib::group_to_multiset_ensures;
                assert(a@.take(i + 1) =~= a@.take(i as int).push(a@[i as int]));
                assert(out@.to_multiset() =~= a@.take(i + 1).to_multiset().add(
                    b@.take(j as int).to_multiset(),
                ));
            }
            i = i + 1;
        } else {
            out.push(b[j]);
            proof {
                broadcast use vstd::seq_lib::group_to_multiset_ensures;
                assert(b@.take(j + 1) =~= b@.take(j as int).push(b@[j as int]));
                assert(out@.to_multiset() =~= a@.take(i as int).to_multiset().add(
                    b@.take(j + 1).to_multiset(),
                ));
            }
            j = j + 1;
        }
    }
    proof {
        assert(a@.take(i as int) =~= a@);
        assert(b@.take(j as int) =~= b@);
    }
    out
}

/// Sorts the keys of `v[lo..hi]`.
fn sort_range(v: &Vec<u128>, lo: usize, hi: usize) -> (r: Vec<u128>)
    requires
        lo <= hi <= v@.len(),
    ensures
        ascending_keys(r@),
        r@.to_multiset() == v@.subrange(lo as int, hi as int).to_multiset(),
    decreases hi - lo,
{
    if hi - lo <= 1 {
        let mut out: Vec<u128> = Vec::new();
        if lo < hi {
            out.push(v[lo]);
        }
        proof {
            assert(out@ =~= v@.subrange(lo as int, hi as int));
        }
        out
    } else {
        let mid: usize = lo + (hi - lo) / 2;
        let low: Vec<u128> = sort_range(v, lo, mid);
        let high: Vec<u128> = sort_range(v, mid, hi);
        proof {
            let a = v@.subrange(lo as int, mid as int);
            let b = v@.subrange(mid as int, hi as int);
            assert(a + b =~= v@.subrange(lo as int, hi as int));
            vstd::seq_lib::lemma_multiset_commutative(a, b);
        }
        merge_keys(&low, &high)
    }
}

/// The keys in ascending order.
pub fn sort_keys(v: &Vec<u128>) -> (r: Vec<u128>)
    ensures
        r@ == sorted_keys(v@),
        ascending_keys(r@),
        r@.to_multiset() == v@.to_multiset(),
        r@.len() == v@.len(),
        forall|x: u128| r@.contains(x) <==> v@.contains(x),
{
    let r: Vec<u128> = sort_range(v, 0, v.len());
    proof {
        assert(v@.subrange(0, v@.len() as int) =~= v@);
        lemma_sorted_keys(v@, r@);
        r@.to_multiset_ensures();
        v@.to_multiset_ensures();
        assert forall|x: u128| r@.contains(x) <==> v@.contains(x) by {
            assert(r@.contains(x) <==> r@.to_multiset().count(x) > 0);
            assert(v@.contains(x) <==> v@.to_multiset().count(x) > 0);
        }
    }
    r
}

} // verus!
