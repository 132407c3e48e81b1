//! Sparse transitions between the states of a hidden Markov model.
use vstd::prelude::*;
use crate::float::double::F64;
use crate::sorting::{lemma_sort_exists, sort_keys, sorted_keys};

verus! {

/// The transitions of a model, gathered by the state that they lead to: those
/// into `s` come from `states[pointers[s]..pointers[s + 1]]`.
pub struct TransitionModel {
    pub states: Vec<u32>,
    pub pointers: Vec<u32>,
    pub log_probabilities: Vec<F64>,
}

/// The key by which a transition is sorted: where it leads, then where it
/// comes from, then its place in the list.
pub open spec fn edge_key(dest: u32, prev: u32, i: int) -> int {
    dest * 0x1_0000_0000_0000_0000 + prev * 0x1_0000_0000 + i
}

/// The keys of all transitions.
pub open spec fn edge_keys(dest: Seq<u32>, prev: Seq<u32>) -> Seq<u128> {
    Seq::new(dest.len(), |i: int| edge_key(dest[i], prev[i], i) as u128)
}

/// The place in the list of the transition with rank `k`.
pub open spec fn edge_at(dest: Seq<u32>, prev: Seq<u32>, k: int) -> int {
    sorted_keys(edge_keys(dest, prev))[k] as int % 0x1_0000_0000
}

/// Some rank among `lo..hi` is that of transition `i`.
pub open spec fn ranked(dest: Seq<u32>, prev: Seq<u32>, lo: int, hi: int, i: int) -> bool {
    exists|k: int| lo <= k < hi && #[trigger] edge_at(dest, prev, k) == i
}

/// The largest of the first `n` states; zero if there are none.
pub open spec fn highest(states: Seq<u32>, n: int) -> u32
    decreases n,
{
    if n <= 0 {
        0
    } else if states[n - 1] > highest(states, n - 1) {
        states[n - 1]
    } else {
        highest(states, n - 1)
    }
}

/// The number of states in a model whose transitions leave `prev`.
pub open spec fn state_count(prev: Seq<u32>) -> int {
    highest(prev, prev.len() as int) + 1
}

impl TransitionModel {
    /// Each state has its stretch of transitions, and they come from states.
    pub open spec fn wf(self) -> bool {
        &&& self.pointers@.len() >= 1
        &&& self.states@.len() == self.log_probabilities@.len()
        &&& forall|s: int, t: int|
            0 <= s <= t < self.pointers@.len() ==> self.pointers@[s] <= self.pointers@[t]
        &&& forall|s: int|
            0 <= s < self.pointers@.len() ==> self.pointers@[s] <= self.states@.len()
        &&& forall|k: int|
            0 <= k < self.states@.len() ==> self.states@[k] < self.pointers@.len() - 1
    }

    /// The model lists the given transitions by destination, then by source,
    /// equals in the order given.
    pub open spec fn lists(self, dest: Seq<u32>, prev: Seq<u32>, logs: Seq<F64>) -> bool {
        &&& self.pointers@.len() == state_count(prev) + 1
        &&& self.states@ == Seq::new(dest.len(), |k: int| prev[edge_at(dest, prev, k)])
        &&& self.log_probabilities@ == Seq::new(dest.len(), |k: int| logs[edge_at(dest, prev, k)])
        &&& forall|s: int, k: int|
            0 <= s < self.pointers@.len() && 0 <= k < dest.len() ==> (k < #[trigger] self.pointers@[s]
                <==> #[trigger] dest[edge_at(dest, prev, k)] < s)
        &&& forall|s: int| 0 <= s < self.pointers@.len() ==> self.pointers@[s] <= dest.len()
    }

    /// The number of states.
    pub fn num_states(&self) -> (n: usize)
        ensures
            n == if self.pointers@.len() == 0 {
                0
            } else {
                self.pointers@.len() - 1
            },
    {
        if self.pointers.len() == 0 {
            0
        } else {
            self.pointers.len() - 1
        }
    }

    /// Gathers the transitions by destination. Each is given by where it
    /// leads, where it comes from, and the logarithm of its probability.
    pub fn make_sparse(dest: &Vec<u32>, prev: &Vec<u32>, logs: &Vec<F64>) -> (r: TransitionModel)
        requires
            dest@.len() == prev@.len() == logs@.len(),
            dest@.len() <= u32::MAX,
            state_count(prev@) <= u32::MAX,
            state_count(prev@) < usize::MAX,
            forall|i: int| 0 <= i < dest@.len() ==> dest@[i] <= state_count(prev@),
        ensures
            r.lists(dest@, prev@, logs@),
            r.wf(),
    {
        let order: Vec<u128> = order_edges(dest, prev);
        let count: usize = highest_of(prev) as usize + 1;
        let mut states: Vec<u32> = Vec::new();
        let mut log_probabilities: Vec<F64> = Vec::new();
        let mut pointers: Vec<u32> = Vec::new();
        pointers.push(0);
        let mut k: usize = 0;
        while k < order.len()
            invariant
                order@ == sorted_keys(edge_keys(dest@, prev@)),
                order@.len() == dest@.len() == prev@.len() == logs@.len(),
                dest@.len() <= u32::MAX,
                count == state_count(prev@) <= u32::MAX,
                count < usize::MAX,
                forall|i: int| 0 <= i < dest@.len() ==> dest@[i] <= state_count(prev@),
                k <= order@.len(),
                1 <= pointers@.len() <= count + 1,
                states@ == Seq::new(k as nat, |j: int| prev@[edge_at(dest@, prev@, j)]),
                log_probabilities@ == Seq::new(k as nat, |j: int| logs@[edge_at(dest@, prev@, j)]),
                forall|j: int|
                    0 <= j < k ==> (#[trigger] dest@[edge_at(dest@, prev@, j)]) < pointers@.len(),
                forall|s: int| 0 <= s < pointers@.len() ==> pointers@[s] <= k,
                forall|s: int, j: int|
                    0 <= s < pointers@.len() && 0 <= j < order@.len() ==> (j
                        < #[trigger] pointers@[s] <==> #[trigger] dest@[edge_at(dest@, prev@, j)]
                        < s),
            decreases order@.len() - k,
        {
            proof {
                lemma_ordered(dest@, prev@);
                assert(0 <= edge_at(dest@, prev@, k as int) < dest@.len());
            }
            let i: usize = (order[k] % 0x1_0000_0000) as usize;
            let d: u32 = dest[i];
            assert(i == edge_at(dest@, prev@, k as int));
            while pointers.len() <= d as usize
                invariant
                    i == edge_at(dest@, prev@, k as int),
                    i < dest@.len(),
                    d == dest@[i as int],
                    d <= count,
                    k < order@.len() == dest@.len(),
                    dest@.len() <= u32::MAX,
                    1 <= pointers@.len() <= count + 1,
                    count < usize::MAX,
                    forall|j: int|
                        0 <= j < k ==> (#[trigger] dest@[edge_at(dest@, prev@, j)])
                            < pointers@.len(),
                    forall|a: int, b: int|
                        0 <= a <= b < dest@.len() ==> #[trigger] dest@[edge_at(dest@, prev@, a)]
                            <= #[trigger] dest@[edge_at(dest@, prev@, b)],
                    forall|s: int| 0 <= s < pointers@.len() ==> pointers@[s] <= k,
                    forall|s: int, j: int|
                        0 <= s < pointers@.len() && 0 <= j < order@.len() ==> (j
                            < #[trigger] pointers@[s] <==> #[trigger] dest@[edge_at(
                            dest@,
                            prev@,
                            j,
                        )] < s),
                decreases count + 1 - pointers@.len(),
            {
                pointers.push(k as u32);
            }
            states.push(prev[i]);
            log_probabilities.push(logs[i]);
            k = k + 1;
        }
        while pointers.len() <= count
            invariant
                k == order@.len() == dest@.len(),
                dest@.len() <= u32::MAX,
                count < usize::MAX,
                1 <= pointers@.len() <= count + 1,
                forall|j: int|
                    0 <= j < k ==> (#[trigger] dest@[edge_at(dest@, prev@, j)]) < pointers@.len(),
                forall|s: int| 0 <= s < pointers@.len() ==> pointers@[s] <= k,
                forall|s: int, j: int|
                    0 <= s < pointers@.len() && 0 <= j < order@.len() ==> (j
                        < #[trigger] pointers@[s] <==> #[trigger] dest@[edge_at(dest@, prev@, j)]
                        < s),
            decreases count + 1 - pointers@.len(),
        {
            pointers.push(k as u32);
        }
        let r = TransitionModel { states, pointers, log_probabilities };
        proof {
            assert(r.lists(dest@, prev@, logs@));
            lemma_lists_wf(r, dest@, prev@, logs@);
        }
        r
    }
}

/// The largest state in the list.
pub(crate) fn highest_of(states: &Vec<u32>) -> (r: u32)
    ensures
        r == highest(states@, states@.len() as int),
{
    let mut best: u32 = 0;
    let mut i: usize = 0;
    while i < states.len()
        invariant
            i <= states@.len(),
            best == highest(states@, i as int),
        decreases states@.len() - i,
    {
        if states[i] > best {
            best = states[i];
        }
        i = i + 1;
    }
    best
}

/// The keys of the transitions in ascending order.
fn order_edges(dest: &Vec<u32>, prev: &Vec<u32>) -> (r: Vec<u128>)
    requires
        dest@.len() == prev@.len(),
        dest@.len() <= u32::MAX,
    ensures
        r@ == sorted_keys(edge_keys(dest@, prev@)),
        r@.len() == dest@.len(),
{
    let mut keys: Vec<u128> = Vec::new();
    let mut i: usize = 0;
    while i < dest.len()
        invariant
            i <= dest@.len() == prev@.len(),
            dest@.len() <= u32::MAX,
            keys@ == edge_keys(dest@, prev@).take(i as int),
        decreases dest@.len() - i,
    {
        let key: u128 = dest[i] as u128 * 0x1_0000_0000_0000_0000 + prev[i] as u128 * 0x1_0000_0000
            + i as u128;
        keys.push(key);
        assert(edge_keys(dest@, prev@).take(i + 1) =~= edge_keys(dest@, prev@).take(i as int).push(
            key,
        ));
        i = i + 1;
    }
    assert(keys@ =~= edge_keys(dest@, prev@));
    sort_keys(&keys)
}

/// The ranks name each transition once, and their destinations ascend.
pub proof fn lemma_ordered(dest: Seq<u32>, prev: Seq<u32>)
    requires
        dest.len() == prev.len(),
        dest.len() <= u32::MAX,
    ensures
        sorted_keys(edge_keys(dest, prev)).len() == dest.len(),
        forall|k: int|
            0 <= k < dest.len() ==> 0 <= #[trigger] edge_at(dest, prev, k) < dest.len(),
        forall|a: int, b: int|
            0 <= a <= b < dest.len() ==> #[trigger] dest[edge_at(dest, prev, a)]
                <= #[trigger] dest[edge_at(dest, prev, b)],
        forall|i: int|
            0 <= i < dest.len() ==> #[trigger] ranked(dest, prev, 0, dest.len() as int, i),
{
    let keys = edge_keys(dest, prev);
    let order = sorted_keys(keys);
    lemma_sort_exists(keys);
    keys.to_multiset_ensures();
    order.to_multiset_ensures();
    assert forall|k: int| 0 <= k < dest.len() implies 0 <= #[trigger] edge_at(dest, prev, k)
        < dest.len() && order[k] == edge_key(
        dest[edge_at(dest, prev, k)],
        prev[edge_at(dest, prev, k)],
        edge_at(dest, prev, k),
    ) by {
        assert(order.contains(order[k]));
        assert(order.to_multiset().count(order[k]) > 0);
        assert(keys.to_multiset().count(order[k]) > 0);
        assert(keys.contains(order[k]));
        let i = choose|i: int| 0 <= i < keys.len() && keys[i] == order[k];
        lemma_key_parts(dest[i], prev[i], i);
    }
    assert forall|a: int, b: int| 0 <= a <= b < dest.len() implies #[trigger] dest[edge_at(
        dest,
        prev,
        a,
    )] <= #[trigger] dest[edge_at(dest, prev, b)] by {
        assert(order[a] <= order[b]);
        let i = edge_at(dest, prev, a);
        let j = edge_at(dest, prev, b);
        lemma_key_parts(dest[i], prev[i], i);
        lemma_key_parts(dest[j], prev[j], j);
    }
    assert forall|i: int| 0 <= i < dest.len() implies #[trigger] ranked(
        dest,
        prev,
        0,
        dest.len() as int,
        i,
    ) by {
        assert(keys.contains(keys[i]));
        assert(keys.to_multiset().count(keys[i]) > 0);
        assert(order.contains(keys[i]));
        let k = choose|k: int| 0 <= k < order.len() && order[k] == keys[i];
        lemma_key_parts(dest[i], prev[i], i);
        assert(edge_at(dest, prev, k) == i);
    }
}

proof fn lemma_key_parts(d: u32, p: u32, i: int)
    requires
        0 <= i < 0x1_0000_0000,
    ensures
        0 <= edge_key(d, p, i) <= u128::MAX,
        edge_key(d, p, i) % 0x1_0000_0000 == i,
        edge_key(d, p, i) / 0x1_0000_0000_0000_0000 == d,
{
}

/// The transitions into a state are exactly those that the model lists for it.
pub proof fn lemma_lists_predecessors(
    m: TransitionModel,
    dest: Seq<u32>,
    prev: Seq<u32>,
    logs: Seq<F64>,
    s: int,
)
    requires
        dest.len() == prev.len() == logs.len(),
        dest.len() <= u32::MAX,
        m.lists(dest, prev, logs),
        0 <= s < m.pointers@.len() - 1,
    ensures
        forall|k: int|
            m.pointers@[s] <= k < m.pointers@[s + 1] ==> {
                let i = #[trigger] edge_at(dest, prev, k);
                &&& 0 <= i < dest.len()
                &&& dest[i] == s
                &&& m.states@[k] == prev[i]
                &&& m.log_probabilities@[k] == logs[i]
            },
        forall|i: int|
            0 <= i < dest.len() && dest[i] == s ==> #[trigger] ranked(
                dest,
                prev,
                m.pointers@[s] as int,
                m.pointers@[s + 1] as int,
                i,
            ),
{
    lemma_ordered(dest, prev);
    assert forall|k: int| m.pointers@[s] <= k < m.pointers@[s + 1] implies {
        let i = #[trigger] edge_at(dest, prev, k);
        &&& 0 <= i < dest.len()
        &&& dest[i] == s
        &&& m.states@[k] == prev[i]
        &&& m.log_probabilities@[k] == logs[i]
    } by {
        let d = dest[edge_at(dest, prev, k)];
        assert(k < m.pointers@[s] <==> d < s);
        assert(k < m.pointers@[s + 1] <==> d < s + 1);
    }
    assert forall|i: int| 0 <= i < dest.len() && dest[i] == s implies #[trigger] ranked(
        dest,
        prev,
        m.pointers@[s] as int,
        m.pointers@[s + 1] as int,
        i,
    ) by {
        assert(ranked(dest, prev, 0, dest.len() as int, i));
        let k = choose|k: int| 0 <= k < dest.len() && #[trigger] edge_at(dest, prev, k) == i;
        let d = dest[edge_at(dest, prev, k)];
        assert(k < m.pointers@[s] <==> d < s);
        assert(k < m.pointers@[s + 1] <==> d < s + 1);
    }
}

proof fn lemma_highest(states: Seq<u32>, n: int)
    requires
        0 <= n <= states.len(),
    ensures
        forall|i: int| 0 <= i < n ==> states[i] <= highest(states, n),
    decreases n,
{
    if n > 0 {
        lemma_highest(states, n - 1);
    }
}

proof fn lemma_lists_wf(m: TransitionModel, dest: Seq<u32>, prev: Seq<u32>, logs: Seq<F64>)
    requires
        dest.len() == prev.len() == logs.len(),
        dest.len() <= u32::MAX,
        m.lists(dest, prev, logs),
    ensures
        m.wf(),
{
    lemma_ordered(dest, prev);
    lemma_highest(prev, prev.len() as int);
    assert forall|s: int, t: int| 0 <= s <= t < m.pointers@.len() implies m.pointers@[s]
        <= m.pointers@[t] by {
        if m.pointers@[s] > m.pointers@[t] {
            let k = m.pointers@[t] as int;
            let d = dest[edge_at(dest, prev, k)];
            assert(k < m.pointers@[s] <==> d < s);
            assert(k < m.pointers@[t] <==> d < t);
        }
    }
}

} // verus!
