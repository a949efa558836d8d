//! Choosing the node to add to or remove from a subnet among candidates: the candidates are
//! ordered by penalty, then by Nakamoto score, and one of the best is picked deterministically.
use vstd::prelude::*;
use std::cmp::Ordering;
use rand::seq::SliceRandom;
use rand::SeedableRng;
use crate::compare::{score_difference, sign};
use crate::score::NakamotoScore;
use crate::subnet::{str_eq, Node};
use crate::features::{str_le, str_less_eq, str_order, lemma_str_order_total};
use crate::rules::texts;
use crate::network::principals;
use vstd::relations::{sorted_by, total_ordering};

verus! {

/// A candidate change: the node added or removed, with the score and the business-rule
/// penalty of the subnet it gives, and the messages of the broken rules.
#[derive(Debug, Clone)]
pub struct ReplacementCandidate {
    pub node: Node,
    pub score: NakamotoScore,
    pub penalty: usize,
    pub business_rules_log: Vec<String>,
}

/// The score of a candidate can be compared with others.
pub open spec fn comparable(c: ReplacementCandidate) -> bool {
    c.score.wf() && c.score.bounded()
}

/// How candidate `a` compares with `b`, as a sign: a lower penalty comes later (is better), and
/// at equal penalties the higher score comes later.
pub open spec fn cand_order(a: ReplacementCandidate, b: ReplacementCandidate) -> int {
    if a.penalty != b.penalty {
        sign(b.penalty - a.penalty)
    } else {
        score_difference(a.score, b.score).0
    }
}

/// How candidate `a` compares with `b` (see [`cand_order`]).
pub fn compare_candidates(a: &ReplacementCandidate, b: &ReplacementCandidate) -> (r: i8)
    requires
        comparable(*a),
        comparable(*b),
    ensures
        r == cand_order(*a, *b),
{
    if a.penalty != b.penalty {
        if b.penalty < a.penalty {
            -1
        } else {
            1
        }
    } else {
        let (ord, _) = a.score.describe_difference_from(&b.score);
        match ord {
            Ordering::Less => -1,
            Ordering::Equal => 0,
            Ordering::Greater => 1,
        }
    }
}


/// Where candidate `x` goes among the candidates ordered as `o`, looking from position `pos`
/// backwards: after the last one that does not compare greater than it.
pub open spec fn insert_pos(cands: Seq<ReplacementCandidate>, o: Seq<usize>, x: usize, pos: int) -> int
    decreases pos,
{
    if pos <= 0 {
        0
    } else if cand_order(cands[o[pos - 1] as int], cands[x as int]) > 0 {
        insert_pos(cands, o, x, pos - 1)
    } else {
        pos
    }
}

/// The order of the first `n` candidates, inserting each in turn (a stable insertion sort by
/// [`cand_order`]): positions of candidates, best last.
pub open spec fn insertion_order(cands: Seq<ReplacementCandidate>, n: int) -> Seq<usize>
    decreases n,
{
    if n <= 0 {
        Seq::empty()
    } else {
        let o = insertion_order(cands, n - 1);
        o.insert(insert_pos(cands, o, (n - 1) as usize, o.len() as int), (n - 1) as usize)
    }
}

proof fn lemma_insert_pos_bounds(cands: Seq<ReplacementCandidate>, o: Seq<usize>, x: usize, pos: int)
    requires
        0 <= pos <= o.len(),
    ensures
        0 <= insert_pos(cands, o, x, pos) <= pos,
    decreases pos,
{
    if pos > 0 {
        lemma_insert_pos_bounds(cands, o, x, pos - 1);
    }
}

proof fn lemma_insertion_order_bounds(cands: Seq<ReplacementCandidate>, n: int)
    requires
        0 <= n,
    ensures
        insertion_order(cands, n).len() == n,
        forall|j: int| 0 <= j < n ==> #[trigger] insertion_order(cands, n)[j] < n,
    decreases n,
{
    if n > 0 {
        let o = insertion_order(cands, n - 1);
        lemma_insertion_order_bounds(cands, n - 1);
        let p = insert_pos(cands, o, (n - 1) as usize, o.len() as int);
        lemma_insert_pos_bounds(cands, o, (n - 1) as usize, o.len() as int);
        o.insert_ensures(p, (n - 1) as usize);
        assert forall|j: int| 0 <= j < n implies #[trigger] insertion_order(cands, n)[j] < n by {
            if j < p {
                assert(insertion_order(cands, n)[j] == o[j]);
            } else if j > p {
                assert(insertion_order(cands, n)[j] == o[j - 1]);
            }
        }
    }
}

/// The positions of the candidates, ordered from the worst to the best (see
/// [`insertion_order`]).
pub fn sort_candidates(cands: &Vec<ReplacementCandidate>) -> (r: Vec<usize>)
    requires
        forall|i: int| 0 <= i < cands@.len() ==> comparable(#[trigger] cands@[i]),
    ensures
        r@ == insertion_order(cands@, cands@.len() as int),
        forall|j: int| 0 <= j < r@.len() ==> #[trigger] r@[j] < cands@.len(),
{
    let mut order: Vec<usize> = Vec::new();
    let mut i: usize = 0;
    while i < cands.len()
        invariant
            i <= cands@.len(),
            forall|k: int| 0 <= k < cands@.len() ==> comparable(#[trigger] cands@[k]),
            order@ == insertion_order(cands@, i as int),
            order@.len() == i,
            forall|j: int| 0 <= j < order@.len() ==> #[trigger] order@[j] < i,
        decreases cands.len() - i,
    {
        let mut pos = order.len();
        while pos > 0 && compare_candidates(&cands[order[pos - 1]], &cands[i]) > 0
            invariant
                pos <= order@.len(),
                i < cands@.len(),
                order@.len() == i,
                forall|k: int| 0 <= k < cands@.len() ==> comparable(#[trigger] cands@[k]),
                forall|j: int| 0 <= j < order@.len() ==> #[trigger] order@[j] < i,
                insert_pos(cands@, order@, i, order@.len() as int) == insert_pos(cands@, order@, i, pos as int),
            decreases pos,
        {
            pos = pos - 1;
        }
        proof {
            lemma_insertion_order_bounds(cands@, i as int + 1);
        }
        order.insert(pos, i);
        i = i + 1;
    }
    proof {
        lemma_insertion_order_bounds(cands@, cands@.len() as int);
    }
    order
}


broadcast use vstd::seq_lib::group_to_multiset_ensures, vstd::multiset::group_multiset_axioms;

/// Candidate `c` is as good as `last`: the same score and no higher penalty.
pub open spec fn as_good_as(c: ReplacementCandidate, last: ReplacementCandidate) -> bool {
    c.score.same_as(last.score) && c.penalty <= last.penalty
}

/// The number of candidates at the end of order `o`, from the `k`-th last on, that are as good
/// as the last one, without interruption.
pub open spec fn best_len(cands: Seq<ReplacementCandidate>, o: Seq<usize>, k: int) -> int
    decreases o.len() - k,
{
    if k < 0 || k >= o.len() || !as_good_as(cands[o[o.len() - 1 - k] as int], cands[o[o.len() - 1] as int]) {
        if k < 0 { 0 } else { k }
    } else {
        best_len(cands, o, k + 1)
    }
}

/// The best candidates: the last of order `o` and those before it that are as good, without
/// interruption, from the best one backwards.
pub open spec fn best_results(cands: Seq<ReplacementCandidate>, o: Seq<usize>) -> Seq<usize> {
    Seq::new(best_len(cands, o, 0) as nat, |j: int| o[o.len() - 1 - j])
}

proof fn lemma_best_len_bounds(cands: Seq<ReplacementCandidate>, o: Seq<usize>, k: int)
    requires
        0 <= k <= o.len(),
    ensures
        k <= best_len(cands, o, k) <= o.len(),
    decreases o.len() - k,
{
    if k < o.len() && as_good_as(cands[o[o.len() - 1 - k] as int], cands[o[o.len() - 1] as int]) {
        lemma_best_len_bounds(cands, o, k + 1);
    }
}

/// The best candidates of order `order` (see [`best_results`]).
pub fn best_of(cands: &Vec<ReplacementCandidate>, order: &Vec<usize>) -> (r: Vec<usize>)
    requires
        forall|j: int| 0 <= j < order@.len() ==> #[trigger] order@[j] < cands@.len(),
        forall|i: int| 0 <= i < cands@.len() ==> comparable(#[trigger] cands@[i]),
    ensures
        r@ == best_results(cands@, order@),
{
    let n = order.len();
    let mut r: Vec<usize> = Vec::new();
    if n == 0 {
        assert(r@ =~= best_results(cands@, order@));
        return r;
    }
    let last = &cands[order[n - 1]];
    let mut k: usize = 0;
    let mut done = false;
    while k < n && !done
        invariant
            k <= n,
            done ==> best_len(cands@, order@, 0) == k,
            n == order@.len(),
            n > 0,
            *last == cands@[order@[n - 1] as int],
            forall|j: int| 0 <= j < order@.len() ==> #[trigger] order@[j] < cands@.len(),
            forall|i: int| 0 <= i < cands@.len() ==> comparable(#[trigger] cands@[i]),
            best_len(cands@, order@, 0) == best_len(cands@, order@, k as int),
            r@.len() == k,
            forall|j: int| 0 <= j < k ==> #[trigger] r@[j] == order@[n - 1 - j],
        decreases n - k + (if done { 0int } else { 1int }),
    {
        let c = &cands[order[n - 1 - k]];
        if !(c.score.eq(&last.score) && c.penalty <= last.penalty) {
            done = true;
        } else {
            r.push(order[n - 1 - k]);
            k = k + 1;
        }
    }
    assert(r@ =~= best_results(cands@, order@));
    r
}


/// The first of the best candidates, from position `j` on, whose node is already among
/// `current`; -1 if none is.
pub open spec fn first_current(cands: Seq<ReplacementCandidate>, best: Seq<usize>, current: Seq<Node>, j: int) -> int
    decreases best.len() - j,
{
    if j < 0 || j >= best.len() {
        -1
    } else if principals(current).contains(cands[best[j] as int].node.principal@) {
        j
    } else {
        first_current(cands, best, current, j + 1)
    }
}

/// The number of nodes of operator `op`.
pub open spec fn op_total(all: Seq<Node>, op: Seq<char>) -> int
    decreases all.len(),
{
    if all.len() == 0 {
        0
    } else {
        op_total(all.drop_last(), op) + (if all.last().operator@ == op { 1int } else { 0int })
    }
}

/// The number of nodes of operator `op` that are in a subnet.
pub open spec fn op_assigned(all: Seq<Node>, op: Seq<char>) -> int
    decreases all.len(),
{
    if all.len() == 0 {
        0
    } else {
        op_assigned(all.drop_last(), op) + (if all.last().operator@ == op && all.last().subnet_id is Some {
            1int
        } else {
            0int
        })
    }
}

/// The preference for the operator of candidate `i`: its nodes not in a subnet, then all its
/// nodes.
pub open spec fn op_key(cands: Seq<ReplacementCandidate>, all: Seq<Node>, i: usize) -> (int, int) {
    let op = cands[i as int].node.operator@;
    (op_total(all, op) - op_assigned(all, op), op_total(all, op))
}

/// Whether preference `a` is below `b`, lexicographically.
pub open spec fn key_lt(a: (int, int), b: (int, int)) -> bool {
    a.0 < b.0 || (a.0 == b.0 && a.1 < b.1)
}

/// The highest preference among the operators of candidates `best`.
pub open spec fn max_key(cands: Seq<ReplacementCandidate>, all: Seq<Node>, best: Seq<usize>) -> (int, int)
    decreases best.len(),
{
    if best.len() <= 1 {
        op_key(cands, all, best[0])
    } else {
        let m = max_key(cands, all, best.drop_last());
        let k = op_key(cands, all, best.last());
        if key_lt(m, k) {
            k
        } else {
            m
        }
    }
}

/// The candidates of `best` whose operator has the highest preference, in order.
pub open spec fn top_group(cands: Seq<ReplacementCandidate>, all: Seq<Node>, best: Seq<usize>) -> Seq<usize> {
    best.filter(|i: usize| op_key(cands, all, i) == max_key(cands, all, best))
}

/// The texts joined by `sep`.
pub open spec fn join_sep(s: Seq<Seq<char>>, sep: Seq<char>) -> Seq<char>
    decreases s.len(),
{
    if s.len() == 0 {
        Seq::empty()
    } else if s.len() == 1 {
        s[0]
    } else {
        join_sep(s.drop_last(), sep) + sep + s.last()
    }
}

/// The text that seeds the choice: the principals of the current nodes in order, joined by "_".
pub open spec fn seed_text(current: Seq<Node>) -> Seq<char> {
    join_sep(principals(current).sort_by(str_order()), "_"@)
}

/// The principals of the nodes of candidates `g`.
pub open spec fn group_principals(cands: Seq<ReplacementCandidate>, g: Seq<usize>) -> Seq<Seq<char>> {
    g.map_values(|i: usize| cands[i as int].node.principal@)
}

/// The seed that a seed generator makes from text `text` (hashing it).
pub uninterp spec fn text_seed(text: Seq<char>) -> Seq<u8>;

/// The item of `items` that a random generator seeded with `seed` picks.
pub uninterp spec fn seeded_choice(seed: Seq<u8>, items: Seq<usize>) -> usize;

/// `rand_seeder::Seeder::from(text).make_seed()`: the 32-byte seed that the seeder makes from
/// the text, named [`text_seed`]; nothing is stated of its bytes.
#[verifier::external_body]
fn seed_of_text(text: &String) -> (r: [u8; 32])
    ensures
        r@ == text_seed(text@),
{
    rand_seeder::Seeder::from(text).make_seed()
}

/// `SliceRandom::choose` on `items` (not empty) with a `StdRng` seeded by `seed`: the item it
/// picks, named [`seeded_choice`]; it is one of the items (the crate returns the item at a
/// position it draws below the length). Which one, the generator decides.
#[verifier::external_body]
fn choose_in(seed: [u8; 32], items: &Vec<usize>) -> (r: usize)
    requires
        items@.len() > 0,
    ensures
        r == seeded_choice(seed@, items@),
        items@.contains(r),
{
    let mut rng = rand::rngs::StdRng::from_seed(seed);
    *items.choose(&mut rng).unwrap()
}

/// The number of nodes of operator `op`, and of those in a subnet.
fn operator_counts(all: &Vec<Node>, op: &str) -> (r: (usize, usize))
    ensures
        r.0 == op_total(all@, op@),
        r.1 == op_assigned(all@, op@),
        r.1 <= r.0,
{
    let mut t: usize = 0;
    let mut a: usize = 0;
    let mut i: usize = 0;
    while i < all.len()
        invariant
            i <= all@.len(),
            t == op_total(all@.take(i as int), op@),
            a == op_assigned(all@.take(i as int), op@),
            a <= t <= i,
        decreases all.len() - i,
    {
        assert(all@.take(i as int + 1).drop_last() =~= all@.take(i as int));
        if str_eq(all[i].operator.as_str(), op) {
            t = t + 1;
            if all[i].subnet_id.is_some() {
                a = a + 1;
            }
        }
        i = i + 1;
    }
    assert(all@.take(all@.len() as int) =~= all@);
    (t, a)
}

/// The texts joined by `sep`.
pub fn join_texts(v: &Vec<String>, sep: &str) -> (r: String)
    ensures
        r@ == join_sep(texts(v@), sep@),
{
    let mut s = String::new();
    let mut i: usize = 0;
    assert(texts(v@).take(0) =~= Seq::<Seq<char>>::empty());
    while i < v.len()
        invariant
            i <= v@.len(),
            s@ == join_sep(texts(v@).take(i as int), sep@),
        decreases v.len() - i,
    {
        let ghost t = texts(v@).take(i as int + 1);
        assert(t.drop_last() =~= texts(v@).take(i as int));
        assert(t.last() == v@[i as int]@);
        if i > 0 {
            crate::text::push_str(&mut s, sep);
        }
        crate::text::push_str(&mut s, v[i].as_str());
        proof {
            if i == 0 {
                assert(t[0] == t.last());
            }
            assert(s@ =~= join_sep(t, sep@));
        }
        i = i + 1;
    }
    assert(texts(v@).take(v@.len() as int) =~= texts(v@));
    s
}



/// The texts in order.
pub fn sort_texts(v: Vec<String>) -> (r: Vec<String>)
    ensures
        texts(r@) == texts(v@).sort_by(str_order()),
{
    proof {
        lemma_str_order_total();
    }
    let ghost orig = texts(v@);
    let mut rest = v;
    let mut out: Vec<String> = Vec::new();
    assert(texts(out@) =~= Seq::<Seq<char>>::empty());
    while rest.len() > 0
        invariant
            total_ordering(str_order()),
            texts(out@).to_multiset().add(texts(rest@).to_multiset()) == orig.to_multiset(),
            sorted_by(texts(out@), str_order()),
            forall|i: int, j: int| 0 <= i < out@.len() && 0 <= j < rest@.len() ==> #[trigger] str_order()(texts(out@)[i], texts(rest@)[j]),
        decreases rest.len(),
    {
        let mut m: usize = 0;
        let mut k: usize = 1;
        while k < rest.len()
            invariant
                1 <= k <= rest@.len(),
                m < k,
                total_ordering(str_order()),
                forall|j: int| 0 <= j < k ==> #[trigger] str_order()(texts(rest@)[m as int], texts(rest@)[j]),
            decreases rest.len() - k,
        {
            if !str_less_eq(rest[m].as_str(), rest[k].as_str()) {
                proof {
                    let w = texts(rest@);
                    assert(w[m as int] == rest@[m as int]@);
                    assert(w[k as int] == rest@[k as int]@);
                    assert(!str_order()(w[m as int], w[k as int]));
                    assert(str_order()(w[m as int], w[k as int]) || str_order()(w[k as int], w[m as int]));
                    assert(str_order()(w[k as int], w[m as int]));
                    assert forall|j: int| 0 <= j < k + 1 implies #[trigger] str_order()(w[k as int], w[j]) by {
                        if j < k {
                            assert(str_order()(w[m as int], w[j]));
                        }
                    }
                }
                m = k;
            }
            k = k + 1;
        }
        let ghost before = texts(rest@);
        let ghost out_before = texts(out@);
        let x = rest.remove(m);
        let ghost xv = x@;
        proof {
            assert(texts(rest@) =~= before.remove(m as int));
            assert(before[m as int] == xv);
            assert(texts(rest@).to_multiset() =~= before.to_multiset().remove(xv));
        }
        out.push(x);
        proof {
            assert(texts(out@) =~= out_before.push(xv));
            assert(out_before.push(xv).to_multiset() =~= out_before.to_multiset().insert(xv));
            assert forall|i: int, j: int| 0 <= i < j < texts(out@).len() implies #[trigger] str_order()(texts(out@)[i], texts(out@)[j]) by {
                if j == texts(out@).len() - 1 {
                    assert(str_order()(out_before[i], before[m as int]));
                } else {
                    assert(str_order()(out_before[i], out_before[j]));
                }
            }
            assert forall|i: int, j: int| 0 <= i < out@.len() && 0 <= j < rest@.len() implies #[trigger] str_order()(texts(out@)[i], texts(rest@)[j]) by {
                let jj = if j < m { j } else { j + 1 };
                assert(texts(rest@)[j] == before[jj]);
                if i < out@.len() - 1 {
                    assert(str_order()(out_before[i], before[jj]));
                } else {
                    assert(str_order()(before[m as int], before[jj]));
                }
            }
        }
    }
    proof {
        assert(texts(rest@).to_multiset() =~= vstd::multiset::Multiset::empty());
        assert(texts(out@).to_multiset() =~= orig.to_multiset());
        orig.lemma_sort_by_ensures(str_order());
        vstd::seq_lib::lemma_sorted_unique(texts(out@), orig.sort_by(str_order()), str_order());
    }
    out
}


/// The candidates of `s` whose operator has preference `key`, in order.
pub open spec fn with_key(cands: Seq<ReplacementCandidate>, all: Seq<Node>, s: Seq<usize>, key: (int, int)) -> Seq<usize> {
    s.filter(|i: usize| op_key(cands, all, i) == key)
}

/// The positions `0..n`.
pub open spec fn positions(n: int) -> Seq<usize> {
    Seq::new(n as nat, |i: int| i as usize)
}

/// The principal that the deterministic choice picks among the best candidates `best`, none of
/// which is already among `current`: the best operators' candidates are ordered by principal, and
/// one position among them is drawn with a generator seeded by the current nodes' principals.
pub open spec fn chosen_principal(
    cands: Seq<ReplacementCandidate>,
    best: Seq<usize>,
    current: Seq<Node>,
    all: Seq<Node>,
) -> Seq<char> {
    let g = top_group(cands, all, best);
    group_principals(cands, g).sort_by(str_order())[seeded_choice(text_seed(seed_text(current)), positions(g.len() as int)) as int]
}

/// One of the best candidates `best` (positions in `cands`), chosen deterministically: the first
/// whose node is already among `current`, if any; else, among those whose operator has the most
/// nodes outside subnets (then the most nodes), the one whose principal is
/// [`chosen_principal`]. `None` when there are no best candidates.
#[verifier::loop_isolation(false)]
pub fn choose_one_result(
    cands: &Vec<ReplacementCandidate>,
    best: &Vec<usize>,
    current: &Vec<Node>,
    all: &Vec<Node>,
) -> (r: Option<usize>)
    requires
        forall|j: int| 0 <= j < best@.len() ==> #[trigger] best@[j] < cands@.len(),
    ensures
        best@.len() == 0 ==> r is None,
        best@.len() > 0 && first_current(cands@, best@, current@, 0) >= 0 ==> r == Some(
            best@[first_current(cands@, best@, current@, 0)],
        ),
        best@.len() > 0 && first_current(cands@, best@, current@, 0) < 0 ==> (r matches Some(k) && top_group(
            cands@,
            all@,
            best@,
        ).contains(k) && cands@[k as int].node.principal@ == chosen_principal(cands@, best@, current@, all@)),
        r matches Some(k) ==> k < cands@.len(),
{
    let n = best.len();
    if n == 0 {
        return None;
    }
    let mut j: usize = 0;
    while j < n
        invariant
            j <= n,
            n == best@.len(),
            forall|i: int| 0 <= i < best@.len() ==> #[trigger] best@[i] < cands@.len(),
            first_current(cands@, best@, current@, 0) == first_current(cands@, best@, current@, j as int),
        decreases n - j,
    {
        if crate::network::has_principal_pub(current, cands[best[j]].node.principal.as_str()) {
            return Some(best[j]);
        }
        j = j + 1;
    }
    // The highest preference among the operators of the best candidates.
    let (t0, a0) = operator_counts(all, cands[best[0]].node.operator.as_str());
    let mut mk: (usize, usize) = (t0 - a0, t0);
    assert(best@.take(1).len() == 1);
    assert(max_key(cands@, all@, best@.take(1)) == op_key(cands@, all@, best@[0]));
    let mut j: usize = 1;
    while j < n
        invariant
            1 <= j <= n,
            n == best@.len(),
            forall|i: int| 0 <= i < best@.len() ==> #[trigger] best@[i] < cands@.len(),
            (mk.0 as int, mk.1 as int) == max_key(cands@, all@, best@.take(j as int)),
        decreases n - j,
    {
        let ghost t = best@.take(j as int + 1);
        assert(t.drop_last() =~= best@.take(j as int));
        assert(t.last() == best@[j as int]);
        let (t1, a1) = operator_counts(all, cands[best[j]].node.operator.as_str());
        let k = (t1 - a1, t1);
        if mk.0 < k.0 || (mk.0 == k.0 && mk.1 < k.1) {
            mk = k;
        }
        j = j + 1;
    }
    assert(best@.take(n as int) =~= best@);
    let ghost key = (mk.0 as int, mk.1 as int);
    // The best candidates of the operators with that preference, in order.
    let mut group: Vec<usize> = Vec::new();
    let mut group_names: Vec<String> = Vec::new();
    let mut j: usize = 0;
    assert(with_key(cands@, all@, best@.take(0), key) =~= Seq::<usize>::empty()) by {
        reveal(Seq::filter);
    }
    while j < n
        invariant
            j <= n,
            n == best@.len(),
            forall|i: int| 0 <= i < best@.len() ==> #[trigger] best@[i] < cands@.len(),
            group@ == with_key(cands@, all@, best@.take(j as int), key),
            texts(group_names@) == group_principals(cands@, group@),
            forall|i: int| 0 <= i < group@.len() ==> #[trigger] group@[i] < cands@.len(),
        decreases n - j,
    {
        let ghost t = best@.take(j as int + 1);
        assert(t.drop_last() =~= best@.take(j as int));
        assert(t.last() == best@[j as int]);
        let (t1, a1) = operator_counts(all, cands[best[j]].node.operator.as_str());
        let keep = t1 - a1 == mk.0 && t1 == mk.1;
        assert(with_key(cands@, all@, t, key) == if keep {
            with_key(cands@, all@, best@.take(j as int), key).push(best@[j as int])
        } else {
            with_key(cands@, all@, best@.take(j as int), key)
        }) by {
            reveal(Seq::filter);
        }
        if keep {
            let ghost gb = group@;
            let ghost nb = group_names@;
            group.push(best[j]);
            group_names.push(cands[best[j]].node.principal.clone());
            assert(texts(group_names@) =~= texts(nb).push(cands@[best@[j as int] as int].node.principal@));
            assert(group_principals(cands@, group@) =~= group_principals(cands@, gb).push(
                cands@[best@[j as int] as int].node.principal@,
            ));
        }
        j = j + 1;
    }
    assert(best@.take(n as int) =~= best@);
    assert(group@ == top_group(cands@, all@, best@));
    proof {
        broadcast use vstd::seq_lib::group_filter_ensures;
        // The best candidate's own operator has the highest preference or a lower one; some
        // candidate has the highest.
        lemma_max_key_attained(cands@, all@, best@);
        let w = choose|w: int| 0 <= w < best@.len() && op_key(cands@, all@, best@[w]) == max_key(cands@, all@, best@);
        assert(top_group(cands@, all@, best@).contains(best@[w]));
    }
    let gl = group.len();
    // The order of the group's principals, and the seed from the current nodes' principals.
    let sorted_names = sort_texts(group_names);
    let current_names = sort_texts(crate::network::principals_of(current));
    let seed_source = join_texts(&current_names, "_");
    let seed = seed_of_text(&seed_source);
    let mut pos: Vec<usize> = Vec::new();
    let mut i: usize = 0;
    while i < gl
        invariant
            i <= gl,
            pos@ == positions(i as int),
        decreases gl - i,
    {
        pos.push(i);
        i = i + 1;
        assert(pos@ =~= positions(i as int));
    }
    let p = choose_in(seed, &pos);
    proof {
        let g = group@;
        let gp = group_principals(cands@, g);
        lemma_str_order_total();
        gp.lemma_sort_by_ensures(str_order());
        assert(seed_source@ == seed_text(current@));
        assert(p < gl);
        assert(gp.len() == gl);
        assert(gp.sort_by(str_order()).len() == gl) by {
            assert(gp.sort_by(str_order()).to_multiset().len() == gp.to_multiset().len());
        }
        assert(texts(sorted_names@).len() == sorted_names@.len());
        assert(texts(sorted_names@)[p as int] == sorted_names@[p as int]@);
        assert(gp.sort_by(str_order()).to_multiset().count(texts(sorted_names@)[p as int]) > 0);
        assert(gp.contains(texts(sorted_names@)[p as int]));
    }
    let target = &sorted_names[p];
    let mut k: usize = 0;
    while k < gl
        invariant
            k <= gl,
            gl == group@.len(),
            texts(group_names@) == group_principals(cands@, group@),
            group_principals(cands@, group@).contains(target@),
            forall|i: int| 0 <= i < k ==> #[trigger] group_principals(cands@, group@)[i] != target@,
            forall|i: int| 0 <= i < group@.len() ==> #[trigger] group@[i] < cands@.len(),
        decreases gl - k,
    {
        if str_eq(cands[group[k]].node.principal.as_str(), target.as_str()) {
            assert(group@.contains(group@[k as int]));
            return Some(group[k]);
        }
        assert(group_principals(cands@, group@)[k as int] == cands@[group@[k as int] as int].node.principal@);
        k = k + 1;
    }
    None
}

proof fn lemma_max_key_attained(cands: Seq<ReplacementCandidate>, all: Seq<Node>, best: Seq<usize>)
    requires
        best.len() > 0,
    ensures
        exists|w: int| 0 <= w < best.len() && op_key(cands, all, best[w]) == max_key(cands, all, best),
    decreases best.len(),
{
    if best.len() > 1 {
        lemma_max_key_attained(cands, all, best.drop_last());
        let w = choose|w: int| 0 <= w < best.drop_last().len() && op_key(cands, all, best.drop_last()[w]) == max_key(cands, all, best.drop_last());
        assert(best[w] == best.drop_last()[w]);
        if key_lt(max_key(cands, all, best.drop_last()), op_key(cands, all, best.last())) {
            assert(best[best.len() - 1] == best.last());
        }
    } else {
        assert(op_key(cands, all, best[0]) == max_key(cands, all, best));
    }
}


/// `r` is the choice among the best candidates `best` that [`choose_one_result`] makes.
pub open spec fn is_choice(
    cands: Seq<ReplacementCandidate>,
    best: Seq<usize>,
    current: Seq<Node>,
    all: Seq<Node>,
    r: Option<usize>,
) -> bool {
    &&& best.len() == 0 ==> r is None
    &&& best.len() > 0 && first_current(cands, best, current, 0) >= 0 ==> r == Some(best[first_current(cands, best, current, 0)])
    &&& best.len() > 0 && first_current(cands, best, current, 0) < 0 ==> (r matches Some(k) && top_group(cands, all, best).contains(k)
        && cands[k as int].node.principal@ == chosen_principal(cands, best, current, all))
}

/// The choice does not depend on the order of the subnet's nodes: two subnets whose nodes have the
/// same principals, counted with repetition, seed the generator with the same text, so the same
/// principal is chosen among the same best candidates.
pub proof fn lemma_choice_ignores_node_order(
    cands: Seq<ReplacementCandidate>,
    best: Seq<usize>,
    a: Seq<Node>,
    b: Seq<Node>,
    all: Seq<Node>,
)
    requires
        principals(a).to_multiset() == principals(b).to_multiset(),
    ensures
        seed_text(a) == seed_text(b),
        chosen_principal(cands, best, a, all) == chosen_principal(cands, best, b, all),
{
    lemma_str_order_total();
    principals(a).lemma_sort_by_ensures(str_order());
    principals(b).lemma_sort_by_ensures(str_order());
    vstd::seq_lib::lemma_sorted_unique(
        principals(a).sort_by(str_order()),
        principals(b).sort_by(str_order()),
        str_order(),
    );
    assert(principals(a).sort_by(str_order()) == principals(b).sort_by(str_order()));
}

proof fn lemma_best_nonempty(cands: Seq<ReplacementCandidate>, o: Seq<usize>)
    requires
        o.len() > 0,
        forall|j: int| 0 <= j < o.len() ==> #[trigger] o[j] < cands.len(),
    ensures
        best_results(cands, o).len() > 0,
        forall|j: int| 0 <= j < best_results(cands, o).len() ==> #[trigger] best_results(cands, o)[j] < cands.len(),
{
    let last = cands[o[o.len() - 1] as int];
    assert(last.score.same_as(last.score));
    assert(as_good_as(last, last));
    lemma_best_len_bounds(cands, o, 1);
    lemma_best_len_bounds(cands, o, 0);
}

/// The best candidate (a position in `cands`): the candidates are ordered by
/// [`insertion_order`], the best of them taken by [`best_results`], and one of those chosen by
/// [`choose_one_result`] for a subnet with nodes `current`. `None` when there are no candidates.
pub fn choose_best_candidate(
    cands: &Vec<ReplacementCandidate>,
    current: &Vec<Node>,
    all: &Vec<Node>,
) -> (r: Option<usize>)
    requires
        forall|i: int| 0 <= i < cands@.len() ==> comparable(#[trigger] cands@[i]),
    ensures
        is_choice(cands@, best_results(cands@, insertion_order(cands@, cands@.len() as int)), current@, all@, r),
        (r is None) == (cands@.len() == 0),
        r matches Some(k) ==> k < cands@.len(),
{
    let order = sort_candidates(cands);
    let best = best_of(cands, &order);
    proof {
        if cands@.len() > 0 {
            lemma_best_nonempty(cands@, order@);
        } else {
            assert(best@.len() == 0);
        }
        assert forall|j: int| 0 <= j < best@.len() implies #[trigger] best@[j] < cands@.len() by {
            lemma_best_len_bounds(cands@, order@, 0);
        }
    }
    let r = choose_one_result(cands, &best, current, all);
    r
}

proof fn lemma_first_current_bounds(cands: Seq<ReplacementCandidate>, best: Seq<usize>, current: Seq<Node>, j: int)
    requires
        0 <= j,
    ensures
        first_current(cands, best, current, j) < best.len(),
        first_current(cands, best, current, j) >= 0 ==> first_current(cands, best, current, j) >= j,
    decreases best.len() - j,
{
    if j < best.len() && !principals(current).contains(cands[best[j] as int].node.principal@) {
        lemma_first_current_bounds(cands, best, current, j + 1);
    }
}

} // verus!
