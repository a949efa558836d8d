//! Growing and shrinking a subnet one node at a time, each time with the best candidate.
use vstd::prelude::*;
use crate::network::{before_dash, principals, DecentralizedSubnet};
use crate::features::opt_view;
use crate::rules::{business_rules, check_business_rules_for_subnet_with_nodes, texts};
use crate::score::MAX_COEFFICIENT;
use crate::selection::{best_results, choose_best_candidate, comparable, insertion_order, is_choice, ReplacementCandidate};
use crate::subnet::{copy_nodes, nakamoto_score_of, node_feature_seq, str_eq, Node};
use crate::text::{dec, push_decimal, push_decimal_wide, push_str};
use crate::features::NUM_FEATURES;

verus! {

/// The candidate of touching `node`, which gives a subnet with `subnet_nodes`.
fn candidate_for(id: &str, subnet_nodes: &Vec<Node>, node: &Node) -> (r: ReplacementCandidate)
    requires
        subnet_nodes@.len() * 100000 <= usize::MAX,
        subnet_nodes@.len() <= MAX_COEFFICIENT,
    ensures
        r.node == *node,
        comparable(r),
        r.score.is_score_of(node_feature_seq(subnet_nodes@)),
        (r.penalty as int, texts(r.business_rules_log@)) == business_rules(id@, subnet_nodes@),
        r.penalty <= 20000 * (subnet_nodes@.len() + 1),
        candidate_of(r, id@, subnet_nodes@, *node),
{
    let (penalty, business_rules_log) = check_business_rules_for_subnet_with_nodes(id, subnet_nodes);
    let score = nakamoto_score_of(subnet_nodes);
    assert(score.bounded()) by {
        assert forall|i: int| 0 <= i < NUM_FEATURES implies #[trigger] score.coef(i) <= MAX_COEFFICIENT by {
            assert(score.controlled(i) <= crate::nakamoto::seq_sum(crate::features::counts_of(score.counts(i))));
            assert(score.coef(i) <= subnet_nodes@.len());
        }
    }
    ReplacementCandidate { node: node.copied(), score, penalty, business_rules_log }
}

/// The nodes of `nodes` whose principal is not `p`.
pub open spec fn drop_principal(nodes: Seq<Node>, p: Seq<char>) -> Seq<Node> {
    nodes.filter(|n: Node| n.principal@ != p)
}

/// Whether `c` is the candidate of touching `node`, which gives a subnet with the nodes
/// `subnet_nodes` (see [`candidate_for`]).
pub open spec fn candidate_of(c: ReplacementCandidate, id: Seq<char>, subnet_nodes: Seq<Node>, node: Node) -> bool {
    &&& c.node == node
    &&& comparable(c)
    &&& c.score.is_score_of(node_feature_seq(subnet_nodes))
    &&& (c.penalty as int, texts(c.business_rules_log@)) == business_rules(id, subnet_nodes)
}

/// Whether [`choose_best_candidate`] may choose the candidate of node `x` among `cands`, for a
/// subnet with the nodes `current`.
pub open spec fn chosen_among(cands: Seq<ReplacementCandidate>, current: Seq<Node>, all: Seq<Node>, x: Node) -> bool {
    exists|k: usize|
        k < cands.len() && cands[k as int].node == x && #[trigger] is_choice(
            cands,
            best_results(cands, insertion_order(cands, cands.len() as int)),
            current,
            all,
            Some(k),
        )
}

/// Whether `x` is the node that one step of an extension of subnet `id` adds to the nodes
/// `nodes`: every node of `avail` is a candidate (the nodes plus it), and `x` is the best of
/// them, chosen relative to the subnet's original nodes `current`.
pub open spec fn extension_step(
    id: Seq<char>,
    nodes: Seq<Node>,
    current: Seq<Node>,
    avail: Seq<Node>,
    all: Seq<Node>,
    x: Node,
) -> bool {
    exists|cands: Seq<ReplacementCandidate>|
        #[trigger] chosen_among(cands, current, all, x) && cands.len() == avail.len() && forall|i: int|
            0 <= i < avail.len() ==> candidate_of(#[trigger] cands[i], id, nodes.push(avail[i]), avail[i])
}

/// Whether `added` are the nodes that an extension of subnet `id`, with the nodes `base`, adds
/// from `avail`, in order: each is the best (see [`extension_step`]) of the available nodes
/// whose principal is not among those added before it.
pub open spec fn greedy_added(id: Seq<char>, base: Seq<Node>, avail: Seq<Node>, all: Seq<Node>, added: Seq<Node>) -> bool
    decreases added.len(),
{
    if added.len() == 0 {
        true
    } else {
        let prev = added.drop_last();
        &&& greedy_added(id, base, avail, all, prev)
        &&& extension_step(id, base + prev, base, remaining(avail, prev), all, added.last())
    }
}

/// Whether `x` is the node that one step of a removal from subnet `id` takes out of the nodes
/// `nodes`: every node is a candidate (the nodes without those of its principal), and `x` is
/// the best of them, chosen relative to `nodes`.
pub open spec fn removal_step(id: Seq<char>, nodes: Seq<Node>, all: Seq<Node>, x: Node) -> bool {
    exists|cands: Seq<ReplacementCandidate>|
        #[trigger] chosen_among(cands, nodes, all, x) && cands.len() == nodes.len() && forall|i: int|
            0 <= i < nodes.len() ==> candidate_of(
                #[trigger] cands[i],
                id,
                drop_principal(nodes, nodes[i].principal@),
                nodes[i],
            )
}

/// Whether `removed` are the nodes that a removal from subnet `id`, with the nodes `base`,
/// takes out, in order: each is the best (see [`removal_step`]) of the nodes left before it.
pub open spec fn greedy_removed(id: Seq<char>, base: Seq<Node>, all: Seq<Node>, removed: Seq<Node>) -> bool
    decreases removed.len(),
{
    if removed.len() == 0 {
        true
    } else {
        let prev = removed.drop_last();
        &&& greedy_removed(id, base, all, prev)
        &&& removal_step(id, remaining(base, prev), all, removed.last())
    }
}

/// The log lines of an extension of subnet `id`, with the nodes `base`, by `n` nodes that added
/// `added`: for each added node, in order, the broken rules of the subnet with it.
pub open spec fn extension_lines(id: Seq<char>, base: Seq<Node>, added: Seq<Node>, n: nat) -> Seq<Seq<char>>
    decreases added.len(),
{
    if added.len() == 0 {
        Seq::empty()
    } else {
        extension_lines(id, base, added.drop_last(), n) + business_rules(id, base + added).1.map_values(
            |m: Seq<char>| log_line("adding"@, added.len(), n, before_dash(added.last().principal@), m),
        )
    }
}

/// The total penalty of the subnets that an extension of subnet `id`, with the nodes `base`,
/// goes through while adding `added`.
pub open spec fn extension_penalty(id: Seq<char>, base: Seq<Node>, added: Seq<Node>) -> int
    decreases added.len(),
{
    if added.len() == 0 {
        0
    } else {
        extension_penalty(id, base, added.drop_last()) + business_rules(id, base + added).0
    }
}

/// The log lines of a removal of `n` nodes from subnet `id`, with the nodes `base`, that took
/// out `removed`: for each removed node, in order, the broken rules of the subnet without it.
pub open spec fn removal_lines(id: Seq<char>, base: Seq<Node>, removed: Seq<Node>, n: nat) -> Seq<Seq<char>>
    decreases removed.len(),
{
    if removed.len() == 0 {
        Seq::empty()
    } else {
        removal_lines(id, base, removed.drop_last(), n) + business_rules(id, remaining(base, removed)).1.map_values(
            |m: Seq<char>| log_line("removing"@, removed.len(), n, before_dash(removed.last().principal@), m),
        )
    }
}

/// The total penalty of the subnets that a removal from subnet `id`, with the nodes `base`, goes
/// through while taking out `removed`.
pub open spec fn removal_penalty(id: Seq<char>, base: Seq<Node>, removed: Seq<Node>) -> int
    decreases removed.len(),
{
    if removed.len() == 0 {
        0
    } else {
        removal_penalty(id, base, removed.drop_last()) + business_rules(id, remaining(base, removed)).0
    }
}

/// The comment of a change of `n` nodes (`what`, `how`) whose total penalty is `penalty` and
/// whose log lines are `lines`: none when nothing changed or the total is zero.
pub open spec fn resize_comment(what: Seq<char>, how: Seq<char>, n: nat, penalty: int, lines: Seq<Seq<char>>) -> Option<Seq<char>> {
    if n > 0 && penalty != 0 {
        Some(change_comment_text(what, how, n, penalty as nat, lines))
    } else {
        None
    }
}

fn without_principal(nodes: &Vec<Node>, p: &str) -> (r: Vec<Node>)
    ensures
        r@ == drop_principal(nodes@, p@),
{
    let mut r: Vec<Node> = Vec::new();
    let mut i: usize = 0;
    assert(nodes@.take(0).filter(|n: Node| n.principal@ != p@) =~= Seq::<Node>::empty()) by {
        reveal(Seq::filter);
    }
    while i < nodes.len()
        invariant
            i <= nodes@.len(),
            r@ == nodes@.take(i as int).filter(|n: Node| n.principal@ != p@),
        decreases nodes.len() - i,
    {
        let ghost t = nodes@.take(i as int + 1);
        assert(t.drop_last() =~= nodes@.take(i as int));
        assert(t.last() == nodes@[i as int]);
        let keep = !str_eq(nodes[i].principal.as_str(), p);
        assert(t.filter(|n: Node| n.principal@ != p@) == if keep {
            nodes@.take(i as int).filter(|n: Node| n.principal@ != p@).push(nodes@[i as int])
        } else {
            nodes@.take(i as int).filter(|n: Node| n.principal@ != p@)
        }) by {
            reveal(Seq::filter);
        }
        if keep {
            r.push(nodes[i].copied());
        }
        i = i + 1;
    }
    assert(nodes@.take(nodes@.len() as int) =~= nodes@);
    r
}

/// The part of a principal before its first '-'.
fn short_id(p: &str) -> (r: String)
    ensures
        r@ == crate::network::before_dash(p@),
{
    crate::network::before_dash_pub(p)
}

/// The log line that records `message` about node `i` of `n` (short id `id`) being `verb`.
pub open spec fn log_line(verb: Seq<char>, i: nat, n: nat, id: Seq<char>, message: Seq<char>) -> Seq<char> {
    "- "@ + verb + " node "@ + dec(i) + " of "@ + dec(n) + " ("@ + id + "): "@ + message
}

/// The lines `v` joined by line breaks.
pub open spec fn joined_lines(v: Seq<Seq<char>>) -> Seq<char>
    decreases v.len(),
{
    if v.len() == 0 {
        Seq::empty()
    } else if v.len() == 1 {
        v[0]
    } else {
        joined_lines(v.drop_last()) + "\n"@ + v.last()
    }
}

/// The comment on a change (`what`, `how`) of `n` nodes with total penalty `penalty`, whose
/// broken rules were logged in `lines`.
pub open spec fn change_comment_text(what: Seq<char>, how: Seq<char>, n: nat, penalty: nat, lines: Seq<Seq<char>>) -> Seq<char> {
    "Subnet "@ + what + dec(n) + " nodes finished with the total penalty "@ + dec(penalty)
        + ". Penalty causes throughout the "@ + how + ":\n\n"@ + joined_lines(lines) + "\n\n"@
        + if n > 1 {
        "Business rules analysis is calculated on each operation. Typically only the last operation is relevant, although this may depend on the case."@
    } else {
        Seq::empty()
    }
}

/// Appends to `log` each message of `messages`, after "- `verb` node `i` of `n` (`id`): ".
fn extend_log(log: &mut Vec<String>, messages: &Vec<String>, verb: &str, i: usize, n: usize, id: &str)
    ensures
        texts(final(log)@) == texts(old(log)@) + texts(messages@).map_values(
            |m: Seq<char>| log_line(verb@, i as nat, n as nat, id@, m),
        ),
{
    let ghost start = texts(log@);
    let mut k: usize = 0;
    while k < messages.len()
        invariant
            k <= messages@.len(),
            texts(log@) == start + texts(messages@).take(k as int).map_values(
                |m: Seq<char>| log_line(verb@, i as nat, n as nat, id@, m),
            ),
        decreases messages.len() - k,
    {
        let mut m = String::from_str("- ");
        push_str(&mut m, verb);
        push_str(&mut m, " node ");
        push_decimal(&mut m, i);
        push_str(&mut m, " of ");
        push_decimal(&mut m, n);
        push_str(&mut m, " (");
        push_str(&mut m, id);
        push_str(&mut m, "): ");
        push_str(&mut m, messages[k].as_str());
        assert(m@ =~= log_line(verb@, i as nat, n as nat, id@, messages@[k as int]@));
        let ghost before = log@;
        log.push(m);
        proof {
            assert(texts(log@) =~= texts(before).push(m@));
            assert(texts(messages@).take(k as int + 1) =~= texts(messages@).take(k as int).push(messages@[k as int]@));
            assert(texts(messages@).take(k as int + 1).map_values(
                |m: Seq<char>| log_line(verb@, i as nat, n as nat, id@, m),
            ) =~= texts(messages@).take(k as int).map_values(
                |m: Seq<char>| log_line(verb@, i as nat, n as nat, id@, m),
            ).push(m@));
        }
        k = k + 1;
    }
    assert(texts(messages@).take(messages@.len() as int) =~= texts(messages@));
}

/// The texts joined by line breaks.
fn join_lines(v: &Vec<String>) -> (r: String)
    ensures
        r@ == joined_lines(texts(v@)),
{
    let mut s = String::new();
    let mut i: usize = 0;
    assert(texts(v@).take(0) =~= Seq::<Seq<char>>::empty());
    while i < v.len()
        invariant
            i <= v@.len(),
            s@ == joined_lines(texts(v@).take(i as int)),
        decreases v.len() - i,
    {
        let ghost t = texts(v@).take(i as int + 1);
        assert(t.drop_last() =~= texts(v@).take(i as int));
        if i > 0 {
            push_str(&mut s, "\n");
        }
        push_str(&mut s, v[i].as_str());
        proof {
            if i == 0 {
                assert(s@ =~= t[0]);
            } else {
                assert(s@ =~= joined_lines(t.drop_last()) + "\n"@ + t.last());
            }
        }
        i = i + 1;
    }
    assert(texts(v@).take(v@.len() as int) =~= texts(v@));
    s
}

/// The comment on a change of `n` nodes with total penalty `penalty` and the messages `log`.
fn change_comment(what: &str, how: &str, n: usize, penalty: u128, log: &Vec<String>) -> (r: String)
    ensures
        r@ == change_comment_text(what@, how@, n as nat, penalty as nat, texts(log@)),
{
    let mut c = String::from_str("Subnet ");
    push_str(&mut c, what);
    push_decimal(&mut c, n);
    push_str(&mut c, " nodes finished with the total penalty ");
    push_decimal_wide(&mut c, penalty);
    push_str(&mut c, ". Penalty causes throughout the ");
    push_str(&mut c, how);
    push_str(&mut c, ":\n\n");
    let joined = join_lines(log);
    push_str(&mut c, joined.as_str());
    push_str(&mut c, "\n\n");
    if n > 1 {
        push_str(
            &mut c,
            "Business rules analysis is calculated on each operation. Typically only the last operation is relevant, although this may depend on the case.",
        );
    }
    assert(c@ =~= change_comment_text(what@, how@, n as nat, penalty as nat, texts(log@)));
    c
}


/// The nodes of `available` whose principal is not among those of `taken`.
pub open spec fn remaining(available: Seq<Node>, taken: Seq<Node>) -> Seq<Node> {
    available.filter(|n: Node| !principals(taken).contains(n.principal@))
}

proof fn lemma_remaining_step(available: Seq<Node>, taken: Seq<Node>, x: Node)
    ensures
        remaining(available, taken).filter(|n: Node| n.principal@ != x.principal@) == remaining(available, taken.push(x)),
    decreases available.len(),
{
    reveal(Seq::filter);
    let pa = principals(taken);
    let pc = principals(taken.push(x));
    assert(pc =~= pa.push(x.principal@));
    let fa = |n: Node| !pa.contains(n.principal@);
    let fb = |n: Node| n.principal@ != x.principal@;
    let fc = |n: Node| !pc.contains(n.principal@);
    if available.len() > 0 {
        lemma_remaining_step(available.drop_last(), taken, x);
        let dl = available.drop_last();
        let l = available.last();
        assert(pc.contains(l.principal@) <==> (pa.contains(l.principal@) || l.principal@ == x.principal@)) by {
            if pc.contains(l.principal@) {
                let k = choose|k: int| 0 <= k < pc.len() && pc[k] == l.principal@;
                if k < pa.len() {
                    assert(pa[k] == l.principal@);
                }
            }
            if pa.contains(l.principal@) {
                let k = choose|k: int| 0 <= k < pa.len() && pa[k] == l.principal@;
                assert(pc[k] == l.principal@);
            }
            if l.principal@ == x.principal@ {
                assert(pc[pa.len() as int] == l.principal@);
            }
        }
        assert(available.filter(fa) == if fa(l) { dl.filter(fa).push(l) } else { dl.filter(fa) });
        assert(available.filter(fc) == if fc(l) { dl.filter(fc).push(l) } else { dl.filter(fc) });
        if fa(l) {
            assert(dl.filter(fa).push(l).drop_last() =~= dl.filter(fa));
            assert(dl.filter(fa).push(l).filter(fb) == if fb(l) {
                dl.filter(fa).filter(fb).push(l)
            } else {
                dl.filter(fa).filter(fb)
            });
        }
        assert(remaining(dl, taken) == dl.filter(fa));
        assert(remaining(dl, taken.push(x)) == dl.filter(fc));
        assert(remaining(available, taken) == available.filter(fa));
        assert(remaining(available, taken.push(x)) == available.filter(fc));
    } else {
        assert(available.filter(fa) =~= available);
        assert(available.filter(fc) =~= available);
        assert(available.filter(fa).filter(fb) =~= available);
    }
}

proof fn lemma_remaining_members(available: Seq<Node>, taken: Seq<Node>, n: Node)
    ensures
        remaining(available, taken).contains(n) ==> available.contains(n) && !principals(taken).contains(n.principal@),
        available.contains(n) && !principals(taken).contains(n.principal@) ==> remaining(available, taken).contains(n),
{
    broadcast use vstd::seq_lib::group_filter_ensures;
    if available.contains(n) && !principals(taken).contains(n.principal@) {
        let k = choose|k: int| 0 <= k < available.len() && available[k] == n;
        available.lemma_filter_contains(|m: Node| !principals(taken).contains(m.principal@), k);
    }
    if remaining(available, taken).contains(n) {
        available.lemma_filter_contains_rev(|m: Node| !principals(taken).contains(m.principal@), n);
        let k = choose|k: int| 0 <= k < remaining(available, taken).len() && remaining(available, taken)[k] == n;
        available.lemma_filter_pred(|m: Node| !principals(taken).contains(m.principal@), k);
    }
}

/// Nothing of `available` remains exactly when the principals of `taken` (distinct, all from
/// `available`) are as many as the distinct principals of `available`.
proof fn lemma_remaining_empty(available: Seq<Node>, taken: Seq<Node>)
    requires
        principals(taken).no_duplicates(),
        forall|j: int| 0 <= j < taken.len() ==> principals(available).contains(#[trigger] principals(taken)[j]),
    ensures
        taken.len() <= principals(available).to_set().len(),
        (remaining(available, taken).len() == 0) == (taken.len() == principals(available).to_set().len()),
{
    broadcast use vstd::set::group_set_axioms, vstd::seq_lib::group_seq_properties;
    let d = principals(available).to_set();
    let t = principals(taken).to_set();
    principals(taken).unique_seq_to_set();
    assert(t.subset_of(d)) by {
        assert forall|p: Seq<char>| t.contains(p) implies d.contains(p) by {
            let k = choose|k: int| 0 <= k < principals(taken).len() && principals(taken)[k] == p;
        }
    }
    vstd::set_lib::lemma_len_subset(t, d);
    if remaining(available, taken).len() > 0 {
        let n = remaining(available, taken)[0];
        assert(remaining(available, taken).contains(n));
        lemma_remaining_members(available, taken, n);
        let k = choose|k: int| 0 <= k < available.len() && available[k] == n;
        assert(principals(available)[k] == n.principal@);
        assert(!t.contains(n.principal@));
        assert(t.insert(n.principal@).subset_of(d));
        vstd::set_lib::lemma_len_subset(t.insert(n.principal@), d);
    } else {
        assert(d.subset_of(t)) by {
            assert forall|p: Seq<char>| d.contains(p) implies t.contains(p) by {
                let k = choose|k: int| 0 <= k < principals(available).len() && principals(available)[k] == p;
                let n = available[k];
                if !principals(taken).contains(p) {
                    lemma_remaining_members(available, taken, n);
                    assert(remaining(available, taken).contains(n));
                }
            }
        }
        vstd::set_lib::lemma_len_subset(d, t);
    }
}

impl DecentralizedSubnet {
    /// The subnet extended with `how_many_nodes` nodes of `available_nodes`, one at a time: each
    /// time every remaining available node is a candidate (the subnet's nodes so far plus it),
    /// the best is chosen by [`choose_best_candidate`] (relative to the subnet's original nodes),
    /// and it and the other available nodes with its principal are no longer available. It
    /// succeeds exactly when there are at least `how_many_nodes` distinct principals available.
    /// The comment states the total penalty of the chosen candidates and their broken rules,
    /// when the total is not zero. The run log is kept as it was: the steps' lines would print the
    /// scores' floating-point averages, which this library does not compute.
    #[verifier::loop_isolation(false)]
    pub fn subnet_with_more_nodes(self, how_many_nodes: usize, available_nodes: &Vec<Node>, all_nodes: &Vec<Node>) -> (r: Result<
        DecentralizedSubnet,
        String,
    >)
        requires
            (self.nodes@.len() + how_many_nodes + 1) * 100000 <= usize::MAX,
            self.nodes@.len() + how_many_nodes <= MAX_COEFFICIENT,
        ensures
            (r is Ok) == (how_many_nodes <= principals(available_nodes@).to_set().len()),
            r matches Ok(s) ==> {
                let n0 = self.nodes@.len() as int;
                let added = s.nodes@.skip(n0);
                &&& s.id == self.id
                &&& s.nodes@.len() == n0 + how_many_nodes
                &&& s.nodes@.take(n0) == self.nodes@
                &&& principals(added).no_duplicates()
                &&& forall|j: int| 0 <= j < added.len() ==> principals(available_nodes@).contains(#[trigger] principals(added)[j])
                &&& forall|j: int| 0 <= j < added.len() ==> available_nodes@.contains(#[trigger] added[j])
                &&& greedy_added(self.id@, self.nodes@, available_nodes@, all_nodes@, added)
                &&& opt_view(s.comment) == resize_comment(
                    "extension with "@,
                    "extension"@,
                    how_many_nodes as nat,
                    extension_penalty(self.id@, self.nodes@, added),
                    extension_lines(self.id@, self.nodes@, added, how_many_nodes as nat),
                )
                &&& s.added_nodes@ == self.added_nodes@ + added
                &&& s.removed_nodes@ == self.removed_nodes@
                &&& texts(s.run_log@) == texts(self.run_log@)
            },
    {
        let n0 = self.nodes.len();
        let ghost bound = (n0 + how_many_nodes + 1) * 20000;
        assert((how_many_nodes + 1) * bound <= u128::MAX) by (nonlinear_arith)
            requires
                bound == (n0 + how_many_nodes + 1) * 20000,
                (n0 + how_many_nodes + 1) * 100000 <= usize::MAX,
                usize::MAX < 0x1_0000_0000_0000_0000,
        ;
        let mut nodes_now = copy_nodes(&self.nodes);
        let mut avail = copy_nodes(available_nodes);
        let mut added: Vec<Node> = Vec::new();
        let mut total_penalty: u128 = 0;
        let mut log: Vec<String> = Vec::new();
        let mut comment: Option<String> = None;
        proof {
            assert(remaining(available_nodes@, added@) =~= available_nodes@) by {
                reveal(Seq::filter);
                lemma_remaining_all(available_nodes@);
            }
        }
        let mut i: usize = 0;
        while i < how_many_nodes
            invariant
                i <= how_many_nodes,
                nodes_now@ == self.nodes@ + added@,
                added@.len() == i,
                principals(added@).no_duplicates(),
                forall|j: int| 0 <= j < added@.len() ==> principals(available_nodes@).contains(#[trigger] principals(added@)[j]),
                forall|j: int| 0 <= j < added@.len() ==> available_nodes@.contains(#[trigger] added@[j]),
                greedy_added(self.id@, self.nodes@, available_nodes@, all_nodes@, added@),
                avail@ == remaining(available_nodes@, added@),
                total_penalty <= i * bound,
                total_penalty == extension_penalty(self.id@, self.nodes@, added@),
                texts(log@) == extension_lines(self.id@, self.nodes@, added@, how_many_nodes as nat),
                opt_view(comment) == if i == how_many_nodes {
                    resize_comment("extension with "@, "extension"@, how_many_nodes as nat, total_penalty as int, texts(log@))
                } else {
                    None
                },
            decreases how_many_nodes - i,
        {
            proof {
                lemma_remaining_empty(available_nodes@, added@);
            }
            let mut cands: Vec<ReplacementCandidate> = Vec::new();
            let mut j: usize = 0;
            while j < avail.len()
                invariant
                    j <= avail@.len(),
                    cands@.len() == j,
                    forall|k: int| 0 <= k < j ==> comparable(#[trigger] cands@[k]) && cands@[k].node == avail@[k]
                        && cands@[k].penalty <= bound,
                    forall|k: int|
                        0 <= k < j ==> candidate_of(#[trigger] cands@[k], self.id@, nodes_now@.push(avail@[k]), avail@[k]),
                decreases avail.len() - j,
            {
                let mut subnet_nodes = copy_nodes(&nodes_now);
                subnet_nodes.push(avail[j].copied());
                assert(subnet_nodes@ == nodes_now@.push(avail@[j as int]));
                let c = candidate_for(self.id.as_str(), &subnet_nodes, &avail[j]);
                cands.push(c);
                j = j + 1;
            }
            let choice = choose_best_candidate(&cands, &self.nodes, all_nodes);
            match choice {
                None => {
                    return Err(String::from_str("Could not complete the extension."));
                },
                Some(k) => {
                    let best = &cands[k];
                    let x = best.node.copied();
                    proof {
                        assert(avail@.contains(avail@[k as int]));
                        lemma_remaining_members(available_nodes@, added@, x);
                        lemma_remaining_step(available_nodes@, added@, x);
                        let a = available_nodes@;
                        let ki = choose|ki: int| 0 <= ki < a.len() && a[ki] == x;
                        assert(principals(a)[ki] == x.principal@);
                        assert(principals(added@.push(x)) =~= principals(added@).push(x.principal@));
                        assert(chosen_among(cands@, self.nodes@, all_nodes@, x));
                        assert(extension_step(self.id@, self.nodes@ + added@, self.nodes@, remaining(available_nodes@, added@), all_nodes@, x));
                        assert(added@.push(x).drop_last() =~= added@);
                    }
                    let ghost avail_before = avail@;
                    avail = without_principal(&avail, x.principal.as_str());
                    let short = short_id(x.principal.as_str());
                    let ghost log_before = texts(log@);
                    extend_log(&mut log, &best.business_rules_log, "adding", i + 1, how_many_nodes, short.as_str());
                    proof {
                        let a1 = added@.push(x);
                        assert(a1.drop_last() =~= added@);
                        assert(self.nodes@ + a1 =~= nodes_now@.push(avail_before[k as int]));
                        assert(texts(best.business_rules_log@) == business_rules(self.id@, self.nodes@ + a1).1);
                        assert(texts(log@) =~= extension_lines(self.id@, self.nodes@, a1, how_many_nodes as nat));
                    }
                    proof {
                        assert((i + 1) * bound == i * bound + bound) by (nonlinear_arith);
                        assert((i + 1) * bound <= (how_many_nodes + 1) * bound) by (nonlinear_arith)
                            requires
                                i < how_many_nodes,
                                bound >= 0,
                        ;
                        assert(best.penalty <= bound);
                    }
                    total_penalty = total_penalty + best.penalty as u128;
                    proof {
                        let a1 = added@.push(x);
                        assert(self.nodes@ + a1 =~= nodes_now@.push(avail_before[k as int]));
                        assert(total_penalty == extension_penalty(self.id@, self.nodes@, a1));
                    }
                    nodes_now.push(x.copied());
                    added.push(x);
                    if i + 1 == how_many_nodes {
                        comment = if total_penalty != 0 {
                            Some(change_comment("extension with ", "extension", how_many_nodes, total_penalty, &log))
                        } else {
                            None
                        };
                    }
                },
            }
            i = i + 1;
        }
        proof {
            lemma_remaining_empty(available_nodes@, added@);
            assert(nodes_now@.skip(n0 as int) =~= added@);
            assert(nodes_now@.take(n0 as int) =~= self.nodes@);
        }
        let mut all_added = copy_nodes(&self.added_nodes);
        let mut extra = copy_nodes(&added);
        all_added.append(&mut extra);
        Ok(
            DecentralizedSubnet {
                id: self.id,
                nodes: nodes_now,
                added_nodes: all_added,
                removed_nodes: self.removed_nodes,
                comment,
                run_log: self.run_log,
            },
        )
    }
}

/// Taking nothing out leaves every node.
pub proof fn lemma_remaining_all(available: Seq<Node>)
    ensures
        remaining(available, Seq::empty()) == available,
    decreases available.len(),
{
    reveal(Seq::filter);
    assert(principals(Seq::<Node>::empty()) =~= Seq::<Seq<char>>::empty());
    if available.len() > 0 {
        lemma_remaining_all(available.drop_last());
        assert(available.drop_last().push(available.last()) =~= available);
    }
}


impl DecentralizedSubnet {
    /// The subnet shrunk by `how_many_nodes` nodes, one at a time: each time every node of the
    /// subnet is a candidate (the subnet without the nodes of its principal), the best is chosen
    /// by [`choose_best_candidate`] (relative to the subnet's nodes at that time), and the nodes
    /// with its principal leave the subnet; the chosen ones are appended to the removed nodes. It
    /// succeeds exactly when the subnet's nodes have at least `how_many_nodes` distinct
    /// principals. The comment states the total penalty of the chosen candidates and their broken
    /// rules, when the total is not zero. The run log is kept as it was: the steps' lines would print the
    /// scores' floating-point averages, which this library does not compute.
    #[verifier::loop_isolation(false)]
    pub fn subnet_with_fewer_nodes(self, how_many_nodes: usize, all_nodes: &Vec<Node>) -> (r: Result<DecentralizedSubnet, String>)
        requires
            (self.nodes@.len() + 1) * 100000 <= usize::MAX,
            self.nodes@.len() <= MAX_COEFFICIENT,
        ensures
            (r is Ok) == (how_many_nodes <= principals(self.nodes@).to_set().len()),
            r matches Ok(s) ==> {
                let r0 = self.removed_nodes@.len() as int;
                let removed = s.removed_nodes@.skip(r0);
                &&& s.id == self.id
                &&& s.nodes@ == remaining(self.nodes@, removed)
                &&& s.removed_nodes@.len() == r0 + how_many_nodes
                &&& s.removed_nodes@.take(r0) == self.removed_nodes@
                &&& removed.len() == how_many_nodes
                &&& greedy_removed(self.id@, self.nodes@, all_nodes@, removed)
                &&& opt_view(s.comment) == resize_comment(
                    "removal of "@,
                    "removal"@,
                    how_many_nodes as nat,
                    removal_penalty(self.id@, self.nodes@, removed),
                    removal_lines(self.id@, self.nodes@, removed, how_many_nodes as nat),
                )
                &&& principals(removed).no_duplicates()
                &&& forall|j: int| 0 <= j < removed.len() ==> principals(self.nodes@).contains(#[trigger] principals(removed)[j])
                &&& s.added_nodes@ == self.added_nodes@
                &&& texts(s.run_log@) == texts(self.run_log@)
            },
    {
        let n0 = self.nodes.len();
        let ghost bound = (n0 + 1) * 20000;
        assert((how_many_nodes + 1) * bound <= u128::MAX) by (nonlinear_arith)
            requires
                bound == (n0 + 1) * 20000,
                (n0 + 1) * 100000 <= usize::MAX,
                how_many_nodes <= usize::MAX,
                usize::MAX < 0x1_0000_0000_0000_0000,
        ;
        let mut nodes_now = copy_nodes(&self.nodes);
        let mut removed: Vec<Node> = Vec::new();
        let mut total_penalty: u128 = 0;
        let mut log: Vec<String> = Vec::new();
        let mut comment: Option<String> = None;
        proof {
            assert(remaining(self.nodes@, removed@) =~= self.nodes@) by {
                lemma_remaining_all(self.nodes@);
            }
        }
        let mut i: usize = 0;
        while i < how_many_nodes
            invariant
                i <= how_many_nodes,
                removed@.len() == i,
                principals(removed@).no_duplicates(),
                forall|j: int| 0 <= j < removed@.len() ==> principals(self.nodes@).contains(#[trigger] principals(removed@)[j]),
                nodes_now@ == remaining(self.nodes@, removed@),
                greedy_removed(self.id@, self.nodes@, all_nodes@, removed@),
                nodes_now@.len() <= n0,
                total_penalty == removal_penalty(self.id@, self.nodes@, removed@),
                texts(log@) == removal_lines(self.id@, self.nodes@, removed@, how_many_nodes as nat),
                opt_view(comment) == if i == how_many_nodes {
                    resize_comment("removal of "@, "removal"@, how_many_nodes as nat, total_penalty as int, texts(log@))
                } else {
                    None
                },
                total_penalty <= i * bound,
            decreases how_many_nodes - i,
        {
            proof {
                lemma_remaining_empty(self.nodes@, removed@);
            }
            let mut cands: Vec<ReplacementCandidate> = Vec::new();
            let mut j: usize = 0;
            while j < nodes_now.len()
                invariant
                    j <= nodes_now@.len(),
                    cands@.len() == j,
                    forall|k: int| 0 <= k < j ==> comparable(#[trigger] cands@[k]) && cands@[k].node == nodes_now@[k]
                        && cands@[k].penalty <= bound,
                    forall|k: int|
                        0 <= k < j ==> candidate_of(
                            #[trigger] cands@[k],
                            self.id@,
                            drop_principal(nodes_now@, nodes_now@[k].principal@),
                            nodes_now@[k],
                        ),
                decreases nodes_now.len() - j,
            {
                let subnet_nodes = without_principal(&nodes_now, nodes_now[j].principal.as_str());
                proof {
                    broadcast use vstd::seq_lib::group_filter_ensures;
                }
                let c = candidate_for(self.id.as_str(), &subnet_nodes, &nodes_now[j]);
                cands.push(c);
                j = j + 1;
            }
            let choice = choose_best_candidate(&cands, &nodes_now, all_nodes);
            match choice {
                None => {
                    return Err(String::from_str("Could not complete the removal."));
                },
                Some(k) => {
                    let best = &cands[k];
                    let x = best.node.copied();
                    proof {
                        assert(nodes_now@.contains(nodes_now@[k as int]));
                        lemma_remaining_members(self.nodes@, removed@, x);
                        lemma_remaining_step(self.nodes@, removed@, x);
                        let a = self.nodes@;
                        let ki = choose|ki: int| 0 <= ki < a.len() && a[ki] == x;
                        assert(principals(a)[ki] == x.principal@);
                        assert(principals(removed@.push(x)) =~= principals(removed@).push(x.principal@));
                        broadcast use vstd::seq_lib::group_filter_ensures;
                        assert(chosen_among(cands@, nodes_now@, all_nodes@, x));
                        assert(removal_step(self.id@, remaining(self.nodes@, removed@), all_nodes@, x));
                        assert(removed@.push(x).drop_last() =~= removed@);
                    }
                    let ghost now_before = nodes_now@;
                    nodes_now = without_principal(&nodes_now, x.principal.as_str());
                    let short = short_id(x.principal.as_str());
                    extend_log(&mut log, &best.business_rules_log, "removing", i + 1, how_many_nodes, short.as_str());
                    proof {
                        let r1 = removed@.push(x);
                        assert(r1.drop_last() =~= removed@);
                        assert(drop_principal(now_before, now_before[k as int].principal@) == remaining(self.nodes@, r1));
                        assert(texts(best.business_rules_log@) == business_rules(self.id@, remaining(self.nodes@, r1)).1);
                        assert(texts(log@) =~= removal_lines(self.id@, self.nodes@, r1, how_many_nodes as nat));
                    }
                    proof {
                        assert((i + 1) * bound == i * bound + bound) by (nonlinear_arith);
                        assert((i + 1) * bound <= (how_many_nodes + 1) * bound) by (nonlinear_arith)
                            requires
                                i < how_many_nodes,
                                bound >= 0,
                        ;
                        assert(best.penalty <= bound);
                    }
                    total_penalty = total_penalty + best.penalty as u128;
                    proof {
                        let r1 = removed@.push(x);
                        assert(r1.drop_last() =~= removed@);
                        assert(total_penalty == removal_penalty(self.id@, self.nodes@, r1));
                    }
                    removed.push(x);
                    if i + 1 == how_many_nodes {
                        comment = if total_penalty != 0 {
                            Some(change_comment("removal of ", "removal", how_many_nodes, total_penalty, &log))
                        } else {
                            None
                        };
                    }
                },
            }
            i = i + 1;
        }
        proof {
            lemma_remaining_empty(self.nodes@, removed@);
        }
        let mut all_removed = copy_nodes(&self.removed_nodes);
        let mut extra = copy_nodes(&removed);
        all_removed.append(&mut extra);
        proof {
            let r0 = self.removed_nodes@.len() as int;
            assert(all_removed@.skip(r0) =~= removed@);
            assert(all_removed@.take(r0) =~= self.removed_nodes@);
        }
        Ok(
            DecentralizedSubnet {
                id: self.id,
                nodes: nodes_now,
                added_nodes: self.added_nodes,
                removed_nodes: all_removed,
                comment,
                run_log: self.run_log,
            },
        )
    }
}

} // verus!
