//! The Nakamoto coefficient: how many of the largest actors of a subnet together control more
//! than a third of its nodes.
use vstd::prelude::*;
use vstd::relations::{sorted_by, total_ordering};

verus! {

broadcast use vstd::seq_lib::group_to_multiset_ensures, vstd::multiset::group_multiset_axioms;

/// The order "not smaller than", which sorts from the largest to the smallest.
pub open spec fn geq() -> spec_fn(usize, usize) -> bool {
    |a: usize, b: usize| a >= b
}

/// The counts, from the largest to the smallest.
pub open spec fn sorted_desc(values: Seq<usize>) -> Seq<usize> {
    values.sort_by(geq())
}

/// The sum of the counts.
pub open spec fn seq_sum(s: Seq<usize>) -> int
    decreases s.len(),
{
    if s.len() == 0 {
        0
    } else {
        seq_sum(s.drop_last()) + s.last()
    }
}

/// The number of leading counts of `s`, from position `k` on, needed for their sum to exceed
/// `threshold`; all of them when it never does.
pub open spec fn count_to_exceed(s: Seq<usize>, threshold: int, k: int) -> int
    decreases s.len() - k,
{
    if k >= s.len() {
        s.len() as int
    } else if seq_sum(s.take(k + 1)) > threshold {
        k + 1
    } else {
        count_to_exceed(s, threshold, k + 1)
    }
}

/// The Nakamoto coefficient of actors controlling `values` nodes each: the number of the largest
/// actors that together control more than a third (rounded down) of all nodes, and the number of
/// nodes they control. When no such group exists (no nodes at all), all actors and all nodes.
pub open spec fn spec_nakamoto(values: Seq<usize>) -> (int, int) {
    let s = sorted_desc(values);
    let k = count_to_exceed(s, seq_sum(values) / 3, 0);
    (k, seq_sum(s.take(k)))
}

proof fn lemma_geq_total()
    ensures
        total_ordering(geq()),
{
}

pub proof fn lemma_seq_sum_nonneg_prefix(s: Seq<usize>, i: int)
    requires
        0 <= i <= s.len(),
    ensures
        0 <= seq_sum(s.take(i)) <= seq_sum(s),
    decreases s.len(),
{
    if s.len() > 0 {
        if i < s.len() {
            assert(s.drop_last().take(i) =~= s.take(i));
            lemma_seq_sum_nonneg_prefix(s.drop_last(), i);
        } else {
            assert(s.take(i) =~= s);
            lemma_seq_sum_nonneg_prefix(s.drop_last(), i - 1);
            assert(s.drop_last().take(i - 1) =~= s.drop_last());
        }
    } else {
        assert(s.take(i) =~= s);
    }
}

proof fn lemma_seq_sum_push(s: Seq<usize>, x: usize)
    ensures
        seq_sum(s.push(x)) == seq_sum(s) + x,
{
    assert(s.push(x).drop_last() =~= s);
}

proof fn lemma_seq_sum_front(s: Seq<usize>)
    requires
        s.len() > 0,
    ensures
        seq_sum(s) == s[0] + seq_sum(s.drop_first()),
    decreases s.len(),
{
    if s.len() > 1 {
        lemma_seq_sum_front(s.drop_last());
        assert(s.drop_last().drop_first() =~= s.drop_first().drop_last());
    } else {
        assert(s.drop_first() =~= Seq::<usize>::empty());
        assert(s.drop_last() =~= Seq::<usize>::empty());
    }
}

pub proof fn lemma_seq_sum_remove(s: Seq<usize>, i: int)
    requires
        0 <= i < s.len(),
    ensures
        seq_sum(s) == seq_sum(s.remove(i)) + s[i],
    decreases s.len(),
{
    if i == s.len() - 1 {
        assert(s.remove(i) =~= s.drop_last());
    } else {
        lemma_seq_sum_remove(s.drop_last(), i);
        assert(s.remove(i).drop_last() =~= s.drop_last().remove(i));
        assert(s.remove(i).last() == s.last());
    }
}

/// The sum of counts depends only on which counts there are, not on their order.
pub proof fn lemma_seq_sum_multiset(a: Seq<usize>, b: Seq<usize>)
    requires
        a.to_multiset() == b.to_multiset(),
    ensures
        seq_sum(a) == seq_sum(b),
    decreases a.len(),
{
    if a.len() == 0 {
        assert(b.to_multiset().len() == 0);
        assert(b.len() == 0);
    } else {
        let x = a.last();
        assert(a.to_multiset().count(x) > 0) by {
            assert(a.contains(x)) by {
                assert(a[a.len() - 1] == x);
            }
        }
        assert(b.contains(x));
        let i = choose|i: int| 0 <= i < b.len() && b[i] == x;
        assert(a.drop_last().to_multiset() =~= a.to_multiset().remove(x)) by {
            assert(a.drop_last() =~= a.remove(a.len() - 1));
        }
        assert(b.remove(i).to_multiset() =~= b.to_multiset().remove(x));
        lemma_seq_sum_multiset(a.drop_last(), b.remove(i));
        lemma_seq_sum_remove(b, i);
    }
}

/// Index of a largest count.
fn index_of_max(v: &Vec<usize>) -> (r: usize)
    requires
        v@.len() > 0,
    ensures
        r < v@.len(),
        forall|j: int| 0 <= j < v@.len() ==> v@[j] <= v@[r as int],
{
    let mut best: usize = 0;
    let mut i: usize = 1;
    while i < v.len()
        invariant
            1 <= i <= v@.len(),
            best < i,
            forall|j: int| 0 <= j < i ==> v@[j] <= v@[best as int],
        decreases v.len() - i,
    {
        if v[i] > v[best] {
            best = i;
        }
        i = i + 1;
    }
    best
}

/// The counts, from the largest to the smallest.
pub fn sort_desc(values: &Vec<usize>) -> (r: Vec<usize>)
    ensures
        r@ == sorted_desc(values@),
        seq_sum(r@) == seq_sum(values@),
{
    let mut rest: Vec<usize> = values.clone();
    let mut out: Vec<usize> = Vec::new();
    assert(rest@ =~= values@);
    while rest.len() > 0
        invariant
            out@.to_multiset().add(rest@.to_multiset()) == values@.to_multiset(),
            sorted_by(out@, geq()),
            forall|i: int, j: int| 0 <= i < out@.len() && 0 <= j < rest@.len() ==> out@[i] >= rest@[j],
            seq_sum(out@) + seq_sum(rest@) == seq_sum(values@),
        decreases rest.len(),
    {
        let m = index_of_max(&rest);
        let ghost before = rest@;
        let x = rest.remove(m);
        proof {
            lemma_seq_sum_remove(before, m as int);
            lemma_seq_sum_push(out@, x);
            assert(rest@ =~= before.remove(m as int));
            assert(rest@.to_multiset() =~= before.to_multiset().remove(x));
            assert(out@.push(x).to_multiset() =~= out@.to_multiset().insert(x));
            assert forall|j: int| 0 <= j < rest@.len() implies x >= rest@[j] by {
                if j < m {
                    assert(rest@[j] == before[j]);
                } else {
                    assert(rest@[j] == before[j + 1]);
                }
            }
        }
        out.push(x);
        proof {
            assert forall|i: int, j: int| 0 <= i < out@.len() && 0 <= j < rest@.len() implies out@[i] >= rest@[j] by {
                if i < out@.len() - 1 {
                    if j < m {
                        assert(rest@[j] == before[j]);
                    } else {
                        assert(rest@[j] == before[j + 1]);
                    }
                }
            }
        }
    }
    proof {
        assert(rest@.to_multiset() =~= vstd::multiset::Multiset::empty());
        assert(out@.to_multiset() =~= values@.to_multiset());
        lemma_geq_total();
        values@.lemma_sort_by_ensures(geq());
        vstd::seq_lib::lemma_sorted_unique(out@, sorted_desc(values@), geq());
    }
    out
}

/// The sum of all counts.
fn total_of(values: &Vec<usize>) -> (r: usize)
    requires
        seq_sum(values@) <= usize::MAX,
    ensures
        r == seq_sum(values@),
{
    let mut total: usize = 0;
    let mut i: usize = 0;
    while i < values.len()
        invariant
            i <= values@.len(),
            seq_sum(values@) <= usize::MAX,
            total == seq_sum(values@.take(i as int)),
        decreases values.len() - i,
    {
        proof {
            lemma_seq_sum_nonneg_prefix(values@, i as int + 1);
            assert(values@.take(i as int + 1).drop_last() =~= values@.take(i as int));
        }
        total = total + values[i];
        i = i + 1;
    }
    assert(values@.take(values@.len() as int) =~= values@);
    total
}

/// The Nakamoto coefficient of actors that control `values` nodes each (see [`spec_nakamoto`]):
/// the number of the largest actors that together control more than a third of the nodes, and
/// the number of nodes they control.
pub fn nakamoto(values: &Vec<usize>) -> (r: (usize, usize))
    requires
        seq_sum(values@) <= usize::MAX,
    ensures
        (r.0 as int, r.1 as int) == spec_nakamoto(values@),
        r.1 <= seq_sum(values@),
{
    let total_subnet_nodes = total_of(values);
    // The consensus tolerates at most a third of the nodes being malicious.
    let max_malicious_nodes = total_subnet_nodes / 3;
    let sorted = sort_desc(values);
    let ghost s = sorted@;
    let mut sum_actors: usize = 0;
    let mut sum_nodes: usize = 0;
    while sum_actors < sorted.len()
        invariant
            s == sorted@,
            s == sorted_desc(values@),
            seq_sum(s) == seq_sum(values@),
            seq_sum(values@) <= usize::MAX,
            max_malicious_nodes == seq_sum(values@) / 3,
            sum_actors <= s.len(),
            sum_nodes == seq_sum(s.take(sum_actors as int)),
            count_to_exceed(s, max_malicious_nodes as int, 0) == count_to_exceed(s, max_malicious_nodes as int, sum_actors as int),
        decreases sorted.len() - sum_actors,
    {
        proof {
            lemma_seq_sum_nonneg_prefix(s, sum_actors as int + 1);
            assert(s.take(sum_actors as int + 1).drop_last() =~= s.take(sum_actors as int));
        }
        sum_nodes = sum_nodes + sorted[sum_actors];
        sum_actors = sum_actors + 1;
        if sum_nodes > max_malicious_nodes {
            proof {
                lemma_seq_sum_nonneg_prefix(s, sum_actors as int);
            }
            return (sum_actors, sum_nodes);
        }
    }
    assert(s.take(s.len() as int) =~= s);
    (sum_actors, sum_nodes)
}

/// The largest `k` actors, with `k` the Nakamoto coefficient, control more than a third of the
/// nodes whenever there are nodes at all, and for no `j < k` do the largest `j` do so: `k` is the
/// least such number, and no smaller group of actors can halt the subnet. The coefficient is between 1 and the number of actors when there
/// are nodes, and 0 exactly when there are no actors.
pub proof fn lemma_nakamoto_threshold(values: Seq<usize>)
    ensures
        ({
            let (k, controlled) = spec_nakamoto(values);
            let s = sorted_desc(values);
            &&& 0 <= k <= values.len()
            &&& (k == 0 <==> values.len() == 0)
            &&& controlled == seq_sum(s.take(k))
            &&& seq_sum(values) > 0 ==> controlled > seq_sum(values) / 3
            &&& k > 0 ==> seq_sum(s.take(k - 1)) <= seq_sum(values) / 3
            &&& forall|j: int| 0 <= j < k ==> #[trigger] seq_sum(s.take(j)) <= seq_sum(values) / 3
        }),
{
    let s = sorted_desc(values);
    lemma_geq_total();
    values.lemma_sort_by_ensures(geq());
    assert(s.len() == values.len()) by {
        assert(s.to_multiset().len() == values.to_multiset().len());
    }
    lemma_seq_sum_multiset(s, values);
    lemma_seq_sum_nonneg_prefix(values, values.len() as int);
    assert(values.take(values.len() as int) =~= values);
    let t = seq_sum(values) / 3;
    lemma_count_to_exceed(s, t, 0);
    assert(s.take(s.len() as int) =~= s);
    let k = count_to_exceed(s, t, 0);
    assert forall|j: int| 0 <= j < k implies #[trigger] seq_sum(s.take(j)) <= t by {
        lemma_seq_sum_nonneg_prefix(s.take(k - 1), j);
        assert(s.take(k - 1).take(j) =~= s.take(j));
    }
}

proof fn lemma_count_to_exceed(s: Seq<usize>, t: int, k: int)
    requires
        0 <= k <= s.len(),
        k == 0 || seq_sum(s.take(k)) <= t,
        t >= 0,
    ensures
        k <= count_to_exceed(s, t, k) <= s.len(),
        count_to_exceed(s, t, k) > 0 || s.len() == 0,
        count_to_exceed(s, t, k) > 0 ==> seq_sum(s.take(count_to_exceed(s, t, k) - 1)) <= t,
        count_to_exceed(s, t, k) < s.len() ==> seq_sum(s.take(count_to_exceed(s, t, k))) > t,
        seq_sum(s) > t && count_to_exceed(s, t, k) == s.len() ==> seq_sum(s.take(count_to_exceed(s, t, k))) > t,
    decreases s.len() - k,
{
    assert(s.take(0) =~= Seq::<usize>::empty());
    assert(s.take(s.len() as int) =~= s);
    if k < s.len() {
        if seq_sum(s.take(k + 1)) > t {
        } else {
            lemma_count_to_exceed(s, t, k + 1);
        }
    }
}

/// The Nakamoto coefficient does not depend on the order in which the actors are listed.
pub proof fn lemma_nakamoto_ignores_order(a: Seq<usize>, b: Seq<usize>)
    requires
        a.to_multiset() == b.to_multiset(),
    ensures
        spec_nakamoto(a) == spec_nakamoto(b),
{
    lemma_geq_total();
    a.lemma_sort_by_ensures(geq());
    b.lemma_sort_by_ensures(geq());
    vstd::seq_lib::lemma_sorted_unique(sorted_desc(a), sorted_desc(b), geq());
    lemma_seq_sum_multiset(a, b);
}

} // verus!
