//! The business rules of a subnet: each rule that its nodes break adds a penalty and a message.
use vstd::prelude::*;
use vstd::string::StringExecFns;
use crate::features::{counts_of, occurrences, vcs_view, NodeFeature, ValueCount, NUM_FEATURES};
use crate::nakamoto::{lemma_seq_sum_nonneg_prefix, seq_sum};
use crate::score::{feature_values, spec_feature_nakamoto, spec_feature_value_counts, NakamotoScore};
use crate::subnet::{eu_countries, nakamoto_score_of, node_feature_seq, str_eq, Node};
use crate::text::{dec, push_decimal, push_str};

verus! {

/// Penalties and messages.
pub type Checks = (int, Seq<Seq<char>>);

/// No penalty and no message.
pub open spec fn no_checks() -> Checks {
    (0, Seq::empty())
}

/// The penalties of `a` and `b` added, their messages one after the other.
pub open spec fn join(a: Checks, b: Checks) -> Checks {
    (a.0 + b.0, a.1 + b.1)
}

/// The views of texts.
pub open spec fn texts(v: Seq<String>) -> Seq<Seq<char>> {
    v.map_values(|s: String| s@)
}

/// The European subnet.
pub open spec fn european_subnet() -> Seq<char> {
    "bkfrj-6k62g-dycql-7h53p-atvkj-zg4to-gaogh-netha-ptybj-ntsgw-rqe"@
}

/// The NNS subnet.
pub open spec fn nns_subnet() -> Seq<char> {
    "tdb26-jop6k-aogll-7ltgs-eruif-6kk7m-qpktf-gdiqx-mxtrf-vb5e6-eqe"@
}

/// The subnet that holds the backup of the threshold signing key.
pub open spec fn uzr34_subnet() -> Seq<char> {
    "uzr34-akd3s-xrdag-3ql62-ocgoh-ld2ao-tamcv-54e7j-krwgb-2gm4z-oqe"@
}

/// The SNS subnet.
pub open spec fn x33ed_subnet() -> Seq<char> {
    "x33ed-h457x-bsgyx-oqxqf-6pzwv-wkhzr-rm2j3-npodi-purzm-n66cg-gae"@
}

/// The subnet that holds the threshold signing key.
pub open spec fn pzp6e_subnet() -> Seq<char> {
    "pzp6e-ekpqk-3c5x7-2h6so-njoeq-mt45d-h3h6c-q3mxf-vpeq5-fk5o7-yae"@
}

/// The DFINITY node provider.
pub open spec fn dfinity_provider() -> Seq<char> {
    "bvcsg-3od6r-jnydw-eysln-aql7w-td5zn-ay5m6-sibd2-jzojt-anwag-mqe"@
}

/// The value counts of the feature at position `i` among `nodes`.
pub open spec fn vc(nodes: Seq<Node>, i: int) -> Seq<(Seq<char>, usize)> {
    spec_feature_value_counts(node_feature_seq(nodes), NodeFeature::spec_at(i))
}

/// The Nakamoto coefficient of the feature at position `i` among `nodes`, with the nodes its
/// top actors control.
pub open spec fn nk(nodes: Seq<Node>, i: int) -> (int, int) {
    spec_feature_nakamoto(node_feature_seq(nodes), NodeFeature::spec_at(i))
}

/// The number of DFINITY-owned nodes.
pub open spec fn dfinity_owned_count(nodes: Seq<Node>) -> int
    decreases nodes.len(),
{
    if nodes.len() == 0 {
        0
    } else {
        dfinity_owned_count(nodes.drop_last()) + (if nodes.last().dfinity_owned == Some(true) { 1int } else { 0int })
    }
}

/// The number of DFINITY-owned nodes a subnet should have.
pub open spec fn target_dfinity(sid: Seq<char>) -> int {
    if sid == nns_subnet() {
        3
    } else {
        1
    }
}

/// The distance between `a` and `b`.
pub open spec fn abs_diff(a: int, b: int) -> int {
    if a >= b {
        a - b
    } else {
        b - a
    }
}

/// A subnet has as many DFINITY-owned nodes as it should.
pub open spec fn rule_dfinity(sid: Seq<char>, nodes: Seq<Node>) -> Checks {
    let c = dfinity_owned_count(nodes);
    let t = target_dfinity(sid);
    if c != t {
        (
            abs_diff(t, c) * 1000,
            seq![
                "Subnet should have "@ + dec(t as nat) + " DFINITY-owned node(s) for subnet recovery, got "@ + dec(
                    c as nat,
                ),
            ],
        )
    } else {
        no_checks()
    }
}

/// The subnets where no country may control more than a third of the nodes.
pub open spec fn key_country_subnet(sid: Seq<char>) -> bool {
    sid == uzr34_subnet() || sid == nns_subnet() || sid == x33ed_subnet()
}

/// A country controls at most `third` nodes.
pub open spec fn step_country_third(e: (Seq<char>, usize), third: int) -> Checks {
    if e.1 > third {
        let p = (e.1 - third) * 1000;
        (
            p,
            seq![
                "Country "@ + e.0 + " controls "@ + dec(e.1 as nat) + " of nodes, which is > "@ + dec(third as nat)
                    + " (1/3 - 1) of subnet nodes. Applying penalty of "@ + dec(p as nat) + "."@,
            ],
        )
    } else {
        no_checks()
    }
}

/// [`step_country_third`] over value counts.
pub open spec fn fold_country_third(vcs: Seq<(Seq<char>, usize)>, third: int) -> Checks
    decreases vcs.len(),
{
    if vcs.len() == 0 {
        no_checks()
    } else {
        join(fold_country_third(vcs.drop_last(), third), step_country_third(vcs.last(), third))
    }
}

/// The data center name of a node ("" where it has none).
pub open spec fn dc_name(n: Node) -> Seq<char> {
    match n.datacenter {
        Some(dc) => dc.name@,
        None => Seq::empty(),
    }
}

/// The data center owner of a node ("" where it has none).
pub open spec fn dc_owner(n: Node) -> Seq<char> {
    match n.datacenter {
        Some(dc) => dc.owner@,
        None => Seq::empty(),
    }
}

/// Whether a node of the DFINITY provider is in data center `name`.
pub open spec fn dfinity_dc(nodes: Seq<Node>, name: Seq<char>) -> bool {
    exists|i: int| 0 <= i < nodes.len() && nodes[i].provider@ == dfinity_provider() && #[trigger] dc_name(nodes[i]) == name
}

/// Whether a node of the DFINITY provider is in a data center owned by `name`.
pub open spec fn dfinity_dc_owner(nodes: Seq<Node>, name: Seq<char>) -> bool {
    exists|i: int| 0 <= i < nodes.len() && nodes[i].provider@ == dfinity_provider() && #[trigger] dc_owner(nodes[i]) == name
}

/// Whether the NNS subnet may have `count` nodes with value `name` of feature `f`: DFINITY's
/// own provider, data centers and data center owners may have up to 3.
pub open spec fn exempt(sid: Seq<char>, nodes: Seq<Node>, f: NodeFeature, name: Seq<char>, count: int) -> bool {
    &&& sid == nns_subnet()
    &&& count <= target_dfinity(sid)
    &&& ((f == NodeFeature::NodeProvider && name == dfinity_provider()) || (f == NodeFeature::DataCenter && dfinity_dc(
        nodes,
        name,
    )) || (f == NodeFeature::DataCenterOwner && dfinity_dc_owner(nodes, name)))
}

/// A node provider, data center or data center owner has at most one node.
pub open spec fn step_one_per_actor(e: (Seq<char>, usize), f: NodeFeature, sid: Seq<char>, nodes: Seq<Node>) -> Checks {
    if e.1 > 1 && !exempt(sid, nodes, f, e.0, e.1 as int) {
        let p = (e.1 - 1) * 10;
        (
            p,
            seq![
                f.spec_name() + " "@ + e.0 + " controls "@ + dec(e.1 as nat)
                    + " of nodes, which is higher than target of 1 for the subnet. Applying penalty of "@ + dec(
                    p as nat,
                ) + "."@,
            ],
        )
    } else {
        no_checks()
    }
}

/// [`step_one_per_actor`] over value counts.
pub open spec fn fold_one_per_actor(vcs: Seq<(Seq<char>, usize)>, f: NodeFeature, sid: Seq<char>, nodes: Seq<Node>) -> Checks
    decreases vcs.len(),
{
    if vcs.len() == 0 {
        no_checks()
    } else {
        join(fold_one_per_actor(vcs.drop_last(), f, sid, nodes), step_one_per_actor(vcs.last(), f, sid, nodes))
    }
}

/// The most nodes a country may have in a subnet.
pub open spec fn max_per_country(sid: Seq<char>) -> int {
    if sid == nns_subnet() || sid == x33ed_subnet() || sid == pzp6e_subnet() || sid == uzr34_subnet() {
        3
    } else {
        2
    }
}

/// A country has at most `max` nodes; in the European subnet only European Union countries are
/// held to it.
pub open spec fn step_country_max(e: (Seq<char>, usize), sid: Seq<char>, max: int) -> Checks {
    if sid == european_subnet() && !eu_countries().contains(e.0) {
        no_checks()
    } else if e.1 > max {
        let p = (e.1 - max) * 10;
        (
            p,
            seq![
                "Country "@ + e.0 + " controls "@ + dec(e.1 as nat) + " of nodes, which is higher than target of "@
                    + dec(max as nat) + " for the subnet. Applying penalty of "@ + dec(p as nat) + "."@,
            ],
        )
    } else {
        no_checks()
    }
}

/// [`step_country_max`] over value counts.
pub open spec fn fold_country_max(vcs: Seq<(Seq<char>, usize)>, sid: Seq<char>, max: int) -> Checks
    decreases vcs.len(),
{
    if vcs.len() == 0 {
        no_checks()
    } else {
        join(fold_country_max(vcs.drop_last(), sid, max), step_country_max(vcs.last(), sid, max))
    }
}

/// Whether a country counts as European: a member of the European Union, Switzerland or the
/// United Kingdom.
pub open spec fn is_european(country: Seq<char>) -> bool {
    eu_countries().contains(country) || country == "CH"@ || country == "UK"@
}

/// The number of nodes in countries that are not European.
pub open spec fn non_european(vcs: Seq<(Seq<char>, usize)>) -> int
    decreases vcs.len(),
{
    if vcs.len() == 0 {
        0
    } else {
        non_european(vcs.drop_last()) + (if is_european(vcs.last().0) { 0int } else { vcs.last().1 as int })
    }
}

/// The European subnet has only European nodes.
pub open spec fn rule_european(sid: Seq<char>, countries: Seq<(Seq<char>, usize)>) -> Checks {
    let x = non_european(countries);
    if sid == european_subnet() && x > 0 {
        (x * 1000, seq!["European subnet has "@ + dec(x as nat) + " non-European node(s)"@])
    } else {
        no_checks()
    }
}

/// No single node provider can halt a subnet of more than 3 nodes.
pub open spec fn rule_single_provider(nodes: Seq<Node>) -> Checks {
    if nk(nodes, 0).0 <= 1 && nodes.len() > 3 {
        (10000, seq!["A single Node Provider can halt the subnet"@])
    } else {
        no_checks()
    }
}

/// No single actor of a feature controls more than two thirds of the nodes (in the European
/// subnet, countries are exempt).
pub open spec fn step_two_thirds(nodes: Seq<Node>, sid: Seq<char>, i: int) -> Checks {
    let n = nodes.len() as int;
    let limit = n * 2 / 3;
    let controlled = nk(nodes, i).1;
    if nk(nodes, i).0 == 1 && controlled > limit && !(sid == european_subnet() && i == 4) {
        let p = (controlled - limit) * 1000;
        (
            p,
            seq![
                "NodeFeature "@ + NodeFeature::spec_at(i).spec_name() + " controls "@ + dec(controlled as nat)
                    + " of nodes, which is > "@ + dec(limit as nat) + " (2/3 of all) nodes"@,
            ],
        )
    } else {
        no_checks()
    }
}

/// [`step_two_thirds`] over the first `k` features.
pub open spec fn fold_two_thirds(nodes: Seq<Node>, sid: Seq<char>, k: int) -> Checks
    decreases k,
{
    if k <= 0 {
        no_checks()
    } else {
        join(fold_two_thirds(nodes, sid, k - 1), step_two_thirds(nodes, sid, k - 1))
    }
}

/// Providers known to be linked, by the name of their group.
pub open spec fn linked_providers() -> Seq<(Seq<char>, Seq<Seq<char>>)> {
    seq![
        (
            "Node provider cluster 1 (6sq7t, vegae, eatbv)"@,
            seq![
                "6sq7t-knkul-fko6h-xzvnf-ktbvr-jhx7r-hapzr-kjlek-whugy-zt6ip-xqe"@,
                "vegae-c4chr-aetfj-7gzuh-c23sx-u2paz-vmvbn-bcage-pu7lu-mptnn-eqe"@,
                "eatbv-nlydd-n655c-g7j7p-gnmpz-pszdg-6e6et-veobv-ftz2y-4m752-vqe"@,
            ],
        ),
        (
            "Providers that share multiple dcs 1"@,
            seq![
                "4r6qy-tljxg-slziw-zoteo-pboxh-vlctz-hkv2d-7zior-u3pxm-mmuxb-cae"@,
                "ivf2y-crxj4-y6ewo-un35q-a7pum-wqmbw-pkepy-d6uew-bfmff-g5yxe-eae"@,
                "3oqw6-vmpk2-mlwlx-52z5x-e3p7u-fjlcw-yxc34-lf2zq-6ub2f-v63hk-lae"@,
                "dhywe-eouw6-hstpj-ahsnw-xnjxq-cmqks-47mrg-nnncb-3sr5d-rac6m-nae"@,
                "diyay-s4rfq-xnx23-zczwi-nptra-5254n-e4zn6-p7tqe-vqhzr-sd4gd-bqe"@,
            ],
        ),
        (
            "NP Group: ZarBlue"@,
            seq![
                "rpfvr-s3kuw-xdqrr-pvuuj-hc7hl-olytw-yxlie-fmr74-sr572-6gdqx-iqe"@,
                "glrjs-2dbzh-owbdd-fpp5e-eweoz-nsuto-e3jmk-tl42c-wem4f-qfpfa-qqe"@,
            ],
        ),
    ]
}

/// The number of nodes whose provider is one of `members`.
pub open spec fn cluster_count(nodes: Seq<Node>, members: Seq<Seq<char>>) -> int
    decreases nodes.len(),
{
    if nodes.len() == 0 {
        0
    } else {
        cluster_count(nodes.drop_last(), members) + (if members.contains(nodes.last().provider@) { 1int } else { 0int })
    }
}

/// A group of linked providers has at most one node.
pub open spec fn step_cluster(nodes: Seq<Node>, c: (Seq<char>, Seq<Seq<char>>)) -> Checks {
    let count = cluster_count(nodes, c.1);
    if count > 1 {
        (10 * (count - 1), seq![c.0 + " has "@ + dec(count as nat) + " nodes in the subnet"@])
    } else {
        no_checks()
    }
}

/// [`step_cluster`] over the first `k` groups of linked providers.
pub open spec fn fold_clusters(nodes: Seq<Node>, k: int) -> Checks
    decreases k,
{
    if k <= 0 {
        no_checks()
    } else {
        join(fold_clusters(nodes, k - 1), step_cluster(nodes, linked_providers()[k - 1]))
    }
}

/// The penalties and messages of the business rules for subnet `sid` with `nodes`: none but a
/// penalty of 1 for a subnet of at most one node; else, in turn, the rules on DFINITY-owned
/// nodes, on countries in the key subnets, on one node per provider, data center and owner, on
/// nodes per country, on the European subnet, on a single provider halting the subnet, on
/// actors controlling two thirds of the nodes, and on linked providers.
pub open spec fn business_rules(sid: Seq<char>, nodes: Seq<Node>) -> Checks {
    let n = nodes.len() as int;
    if n <= 1 {
        (1, Seq::empty())
    } else {
        let r1 = rule_dfinity(sid, nodes);
        let r2 = if key_country_subnet(sid) {
            fold_country_third(vc(nodes, 4), n / 3)
        } else {
            no_checks()
        };
        let r3 = join(
            join(
                fold_one_per_actor(vc(nodes, 0), NodeFeature::NodeProvider, sid, nodes),
                fold_one_per_actor(vc(nodes, 1), NodeFeature::DataCenter, sid, nodes),
            ),
            fold_one_per_actor(vc(nodes, 2), NodeFeature::DataCenterOwner, sid, nodes),
        );
        let r4 = fold_country_max(vc(nodes, 4), sid, max_per_country(sid));
        let r5 = rule_european(sid, vc(nodes, 4));
        let r6 = rule_single_provider(nodes);
        let r7 = fold_two_thirds(nodes, sid, 6);
        let r8 = fold_clusters(nodes, 3);
        join(join(join(join(join(join(join(r1, r2), r3), r4), r5), r6), r7), r8)
    }
}


/// Appending a text appends its view.
pub proof fn lemma_texts_push_pub(v: Seq<String>, m: String)
    ensures
        texts(v.push(m)) == texts(v) + seq![m@],
{
    lemma_texts_push(v, m);
}

proof fn lemma_texts_push(v: Seq<String>, m: String)
    ensures
        texts(v.push(m)) == texts(v) + seq![m@],
{
    assert(texts(v.push(m)) =~= texts(v) + seq![m@]);
}

proof fn lemma_counts_prefix(vcs: Seq<(Seq<char>, usize)>, i: int)
    requires
        0 <= i <= vcs.len(),
    ensures
        0 <= seq_sum(counts_of(vcs.take(i))) <= seq_sum(counts_of(vcs)),
        counts_of(vcs.take(i)) == counts_of(vcs).take(i),
{
    assert(counts_of(vcs.take(i)) =~= counts_of(vcs).take(i));
    lemma_seq_sum_nonneg_prefix(counts_of(vcs), i);
}

proof fn lemma_counts_drop_last(vcs: Seq<(Seq<char>, usize)>)
    requires
        vcs.len() > 0,
    ensures
        seq_sum(counts_of(vcs)) == seq_sum(counts_of(vcs.drop_last())) + vcs.last().1,
{
    assert(counts_of(vcs.drop_last()) =~= counts_of(vcs).drop_last());
}

proof fn lemma_fold_country_third_bound(vcs: Seq<(Seq<char>, usize)>, third: int)
    requires
        third >= 0,
    ensures
        0 <= fold_country_third(vcs, third).0 <= 1000 * seq_sum(counts_of(vcs)),
    decreases vcs.len(),
{
    if vcs.len() > 0 {
        lemma_fold_country_third_bound(vcs.drop_last(), third);
        lemma_counts_drop_last(vcs);
    }
}

proof fn lemma_fold_one_per_actor_bound(vcs: Seq<(Seq<char>, usize)>, f: NodeFeature, sid: Seq<char>, nodes: Seq<Node>)
    ensures
        0 <= fold_one_per_actor(vcs, f, sid, nodes).0 <= 10 * seq_sum(counts_of(vcs)),
    decreases vcs.len(),
{
    if vcs.len() > 0 {
        lemma_fold_one_per_actor_bound(vcs.drop_last(), f, sid, nodes);
        lemma_counts_drop_last(vcs);
    }
}

proof fn lemma_fold_country_max_bound(vcs: Seq<(Seq<char>, usize)>, sid: Seq<char>, max: int)
    requires
        max >= 0,
    ensures
        0 <= fold_country_max(vcs, sid, max).0 <= 10 * seq_sum(counts_of(vcs)),
    decreases vcs.len(),
{
    if vcs.len() > 0 {
        lemma_fold_country_max_bound(vcs.drop_last(), sid, max);
        lemma_counts_drop_last(vcs);
    }
}

proof fn lemma_non_european_bound(vcs: Seq<(Seq<char>, usize)>)
    ensures
        0 <= non_european(vcs) <= seq_sum(counts_of(vcs)),
    decreases vcs.len(),
{
    if vcs.len() > 0 {
        lemma_non_european_bound(vcs.drop_last());
        lemma_counts_drop_last(vcs);
    }
}

/// Appends a message to the messages of a rule and adds its penalty.
fn add_check(acc: &mut (usize, Vec<String>), p: usize, m: String)
    requires
        old(acc).0 + p <= usize::MAX,
    ensures
        final(acc).0 == old(acc).0 + p,
        texts(final(acc).1@) == texts(old(acc).1@) + seq![m@],
{
    proof {
        lemma_texts_push(acc.1@, m);
    }
    acc.0 = acc.0 + p;
    acc.1.push(m);
}

/// The number of DFINITY-owned nodes.
fn count_dfinity_owned(nodes: &Vec<Node>) -> (r: usize)
    ensures
        r == dfinity_owned_count(nodes@),
        r <= nodes@.len(),
{
    let mut c: usize = 0;
    let mut i: usize = 0;
    while i < nodes.len()
        invariant
            i <= nodes@.len(),
            c == dfinity_owned_count(nodes@.take(i as int)),
            c <= i,
        decreases nodes.len() - i,
    {
        assert(nodes@.take(i as int + 1).drop_last() =~= nodes@.take(i as int));
        if nodes[i].dfinity_owned == Some(true) {
            c = c + 1;
        }
        i = i + 1;
    }
    assert(nodes@.take(nodes@.len() as int) =~= nodes@);
    c
}

fn check_dfinity_owned(sid: &str, nodes: &Vec<Node>) -> (r: (usize, Vec<String>))
    requires
        nodes@.len() * 100000 <= usize::MAX,
    ensures
        (r.0 as int, texts(r.1@)) == rule_dfinity(sid@, nodes@),
        r.0 <= (nodes@.len() + 3) * 1000,
{
    let c = count_dfinity_owned(nodes);
    let t: usize = if str_eq(sid, "tdb26-jop6k-aogll-7ltgs-eruif-6kk7m-qpktf-gdiqx-mxtrf-vb5e6-eqe") {
        3
    } else {
        1
    };
    let mut acc: (usize, Vec<String>) = (0, Vec::new());
    assert(texts(acc.1@) =~= Seq::<Seq<char>>::empty());
    if c != t {
        let d = if t >= c {
            t - c
        } else {
            c - t
        };
        let mut m = String::from_str("Subnet should have ");
        push_decimal(&mut m, t);
        push_str(&mut m, " DFINITY-owned node(s) for subnet recovery, got ");
        push_decimal(&mut m, c);
        add_check(&mut acc, d * 1000, m);
        assert(texts(acc.1@) =~= rule_dfinity(sid@, nodes@).1);
    }
    acc
}

fn check_country_third(vcs: &Vec<ValueCount>, third: usize, bound: Ghost<int>) -> (r: (usize, Vec<String>))
    requires
        seq_sum(counts_of(vcs_view(vcs@))) <= bound@,
        1000 * bound@ <= usize::MAX,
    ensures
        (r.0 as int, texts(r.1@)) == fold_country_third(vcs_view(vcs@), third as int),
        r.0 <= 1000 * seq_sum(counts_of(vcs_view(vcs@))),
{
    let ghost w = vcs_view(vcs@);
    let mut acc: (usize, Vec<String>) = (0, Vec::new());
    assert(texts(acc.1@) =~= Seq::<Seq<char>>::empty());
    let mut i: usize = 0;
    while i < vcs.len()
        invariant
            i <= vcs@.len(),
            w == vcs_view(vcs@),
            seq_sum(counts_of(w)) <= bound@,
            1000 * bound@ <= usize::MAX,
            (acc.0 as int, texts(acc.1@)) == fold_country_third(w.take(i as int), third as int),
        decreases vcs.len() - i,
    {
        proof {
            assert(w.take(i as int + 1).drop_last() =~= w.take(i as int));
            assert(w.take(i as int + 1).last() == w[i as int]);
            lemma_fold_country_third_bound(w.take(i as int), third as int);
            lemma_fold_country_third_bound(w.take(i as int + 1), third as int);
            lemma_counts_prefix(w, i as int + 1);
        }
        let name = &vcs[i].0;
        let count = vcs[i].1;
        if count > third {
            let p = (count - third) * 1000;
            let mut m = String::from_str("Country ");
            push_str(&mut m, name.as_str());
            push_str(&mut m, " controls ");
            push_decimal(&mut m, count);
            push_str(&mut m, " of nodes, which is > ");
            push_decimal(&mut m, third);
            push_str(&mut m, " (1/3 - 1) of subnet nodes. Applying penalty of ");
            push_decimal(&mut m, p);
            push_str(&mut m, ".");
            add_check(&mut acc, p, m);
        }
        i = i + 1;
    }
    proof {
        assert(w.take(vcs@.len() as int) =~= w);
        lemma_fold_country_third_bound(w, third as int);
    }
    acc
}

/// Whether a node of the DFINITY provider has data center (or, with `owner`, data center
/// owner) `name`.
fn has_dfinity_dc(nodes: &Vec<Node>, name: &str, owner: bool) -> (r: bool)
    ensures
        r == (if owner { dfinity_dc_owner(nodes@, name@) } else { dfinity_dc(nodes@, name@) }),
{
    let mut i: usize = 0;
    while i < nodes.len()
        invariant
            i <= nodes@.len(),
            forall|j: int|
                0 <= j < i ==> !(nodes@[j].provider@ == dfinity_provider() && (if owner {
                    dc_owner(nodes@[j]) == name@
                } else {
                    dc_name(nodes@[j]) == name@
                })),
        decreases nodes.len() - i,
    {
        let n = &nodes[i];
        if str_eq(n.provider.as_str(), "bvcsg-3od6r-jnydw-eysln-aql7w-td5zn-ay5m6-sibd2-jzojt-anwag-mqe") {
            let v: &str = match &n.datacenter {
                Some(dc) => if owner {
                    dc.owner.as_str()
                } else {
                    dc.name.as_str()
                },
                None => "",
            };
            proof {
                reveal_strlit("");
            }
            assert(v@ == (if owner { dc_owner(nodes@[i as int]) } else { dc_name(nodes@[i as int]) }));
            if str_eq(v, name) {
                return true;
            }
        }
        i = i + 1;
    }
    false
}

fn is_exempt(sid: &str, nodes: &Vec<Node>, f: NodeFeature, name: &str, count: usize) -> (r: bool)
    ensures
        r == exempt(sid@, nodes@, f, name@, count as int),
{
    if !str_eq(sid, "tdb26-jop6k-aogll-7ltgs-eruif-6kk7m-qpktf-gdiqx-mxtrf-vb5e6-eqe") || count > 3 {
        return false;
    }
    match f {
        NodeFeature::NodeProvider => str_eq(name, "bvcsg-3od6r-jnydw-eysln-aql7w-td5zn-ay5m6-sibd2-jzojt-anwag-mqe"),
        NodeFeature::DataCenter => has_dfinity_dc(nodes, name, false),
        NodeFeature::DataCenterOwner => has_dfinity_dc(nodes, name, true),
        _ => false,
    }
}

fn check_one_per_actor(
    vcs: &Vec<ValueCount>,
    f: NodeFeature,
    sid: &str,
    nodes: &Vec<Node>,
    bound: Ghost<int>,
) -> (r: (usize, Vec<String>))
    requires
        seq_sum(counts_of(vcs_view(vcs@))) <= bound@,
        10 * bound@ <= usize::MAX,
    ensures
        (r.0 as int, texts(r.1@)) == fold_one_per_actor(vcs_view(vcs@), f, sid@, nodes@),
        r.0 <= 10 * seq_sum(counts_of(vcs_view(vcs@))),
{
    let ghost w = vcs_view(vcs@);
    let mut acc: (usize, Vec<String>) = (0, Vec::new());
    assert(texts(acc.1@) =~= Seq::<Seq<char>>::empty());
    let fname = f.name();
    let mut i: usize = 0;
    while i < vcs.len()
        invariant
            i <= vcs@.len(),
            w == vcs_view(vcs@),
            fname@ == f.spec_name(),
            seq_sum(counts_of(w)) <= bound@,
            10 * bound@ <= usize::MAX,
            (acc.0 as int, texts(acc.1@)) == fold_one_per_actor(w.take(i as int), f, sid@, nodes@),
        decreases vcs.len() - i,
    {
        proof {
            assert(w.take(i as int + 1).drop_last() =~= w.take(i as int));
            assert(w.take(i as int + 1).last() == w[i as int]);
            lemma_fold_one_per_actor_bound(w.take(i as int), f, sid@, nodes@);
            lemma_fold_one_per_actor_bound(w.take(i as int + 1), f, sid@, nodes@);
            lemma_counts_prefix(w, i as int + 1);
        }
        let name = &vcs[i].0;
        let count = vcs[i].1;
        if count > 1 && !is_exempt(sid, nodes, f, name.as_str(), count) {
            let p = (count - 1) * 10;
            let mut m = String::from_str(fname.as_str());
            push_str(&mut m, " ");
            push_str(&mut m, name.as_str());
            push_str(&mut m, " controls ");
            push_decimal(&mut m, count);
            push_str(&mut m, " of nodes, which is higher than target of 1 for the subnet. Applying penalty of ");
            push_decimal(&mut m, p);
            push_str(&mut m, ".");
            add_check(&mut acc, p, m);
        }
        i = i + 1;
    }
    proof {
        assert(w.take(vcs@.len() as int) =~= w);
        lemma_fold_one_per_actor_bound(w, f, sid@, nodes@);
    }
    acc
}

fn check_country_max(vcs: &Vec<ValueCount>, sid: &str, max: usize, bound: Ghost<int>) -> (r: (usize, Vec<String>))
    requires
        seq_sum(counts_of(vcs_view(vcs@))) <= bound@,
        10 * bound@ <= usize::MAX,
        max as int == max_per_country(sid@),
    ensures
        (r.0 as int, texts(r.1@)) == fold_country_max(vcs_view(vcs@), sid@, max as int),
        r.0 <= 10 * seq_sum(counts_of(vcs_view(vcs@))),
{
    let ghost w = vcs_view(vcs@);
    let european = str_eq(sid, "bkfrj-6k62g-dycql-7h53p-atvkj-zg4to-gaogh-netha-ptybj-ntsgw-rqe");
    let mut acc: (usize, Vec<String>) = (0, Vec::new());
    assert(texts(acc.1@) =~= Seq::<Seq<char>>::empty());
    let mut i: usize = 0;
    while i < vcs.len()
        invariant
            i <= vcs@.len(),
            w == vcs_view(vcs@),
            european == (sid@ == european_subnet()),
            seq_sum(counts_of(w)) <= bound@,
            10 * bound@ <= usize::MAX,
            (acc.0 as int, texts(acc.1@)) == fold_country_max(w.take(i as int), sid@, max as int),
        decreases vcs.len() - i,
    {
        proof {
            assert(w.take(i as int + 1).drop_last() =~= w.take(i as int));
            assert(w.take(i as int + 1).last() == w[i as int]);
            lemma_fold_country_max_bound(w.take(i as int), sid@, max as int);
            lemma_fold_country_max_bound(w.take(i as int + 1), sid@, max as int);
            lemma_counts_prefix(w, i as int + 1);
        }
        let name = &vcs[i].0;
        let count = vcs[i].1;
        if european && !Node::is_country_from_eu(name.as_str()) {
        } else if count > max {
            let p = (count - max) * 10;
            let mut m = String::from_str("Country ");
            push_str(&mut m, name.as_str());
            push_str(&mut m, " controls ");
            push_decimal(&mut m, count);
            push_str(&mut m, " of nodes, which is higher than target of ");
            push_decimal(&mut m, max);
            push_str(&mut m, " for the subnet. Applying penalty of ");
            push_decimal(&mut m, p);
            push_str(&mut m, ".");
            add_check(&mut acc, p, m);
        }
        i = i + 1;
    }
    proof {
        assert(w.take(vcs@.len() as int) =~= w);
        lemma_fold_country_max_bound(w, sid@, max as int);
    }
    acc
}

fn count_non_european(vcs: &Vec<ValueCount>) -> (r: usize)
    requires
        seq_sum(counts_of(vcs_view(vcs@))) <= usize::MAX,
    ensures
        r == non_european(vcs_view(vcs@)),
{
    let ghost w = vcs_view(vcs@);
    let mut x: usize = 0;
    let mut i: usize = 0;
    while i < vcs.len()
        invariant
            i <= vcs@.len(),
            w == vcs_view(vcs@),
            seq_sum(counts_of(w)) <= usize::MAX,
            x == non_european(w.take(i as int)),
        decreases vcs.len() - i,
    {
        proof {
            assert(w.take(i as int + 1).drop_last() =~= w.take(i as int));
            assert(w.take(i as int + 1).last() == w[i as int]);
            lemma_non_european_bound(w.take(i as int + 1));
            lemma_counts_prefix(w, i as int + 1);
            lemma_non_european_bound(w);
        }
        let name = vcs[i].0.as_str();
        if !(Node::is_country_from_eu(name) || str_eq(name, "CH") || str_eq(name, "UK")) {
            x = x + vcs[i].1;
        }
        i = i + 1;
    }
    assert(w.take(vcs@.len() as int) =~= w);
    x
}


fn check_two_thirds(score: &NakamotoScore, nodes: &Vec<Node>, sid: &str) -> (r: (usize, Vec<String>))
    requires
        score.is_score_of(node_feature_seq(nodes@)),
        forall|i: int| 0 <= i < NUM_FEATURES ==> #[trigger] score.controlled(i) <= nodes@.len(),
        nodes@.len() * 100000 <= usize::MAX,
    ensures
        (r.0 as int, texts(r.1@)) == fold_two_thirds(nodes@, sid@, 6),
        r.0 <= 6000 * nodes@.len(),
{
    let n = nodes.len();
    let limit = n * 2 / 3;
    let european = str_eq(sid, "bkfrj-6k62g-dycql-7h53p-atvkj-zg4to-gaogh-netha-ptybj-ntsgw-rqe");
    let mut acc: (usize, Vec<String>) = (0, Vec::new());
    assert(texts(acc.1@) =~= Seq::<Seq<char>>::empty());
    let mut k: usize = 0;
    while k < NUM_FEATURES
        invariant
            k <= NUM_FEATURES,
            n == nodes@.len(),
            limit == n * 2 / 3,
            european == (sid@ == european_subnet()),
            score.is_score_of(node_feature_seq(nodes@)),
            forall|i: int| 0 <= i < NUM_FEATURES ==> #[trigger] score.controlled(i) <= nodes@.len(),
            nodes@.len() * 100000 <= usize::MAX,
            (acc.0 as int, texts(acc.1@)) == fold_two_thirds(nodes@, sid@, k as int),
            acc.0 <= 1000 * n * k,
        decreases NUM_FEATURES - k,
    {
        let f = NodeFeature::at(k);
        let coefficient = score.features[k].coefficient;
        let controlled = score.features[k].controlled_nodes;
        proof {
            assert(crate::score::feature_score_of(score.features@[k as int], node_feature_seq(nodes@), k as int));
            assert(score.controlled(k as int) <= n);
            assert(1000 * n * k + 1000 * n == 1000 * n * (k + 1)) by (nonlinear_arith);
            assert(1000 * n * k <= 5000 * n) by (nonlinear_arith)
                requires
                    k <= 5,
            ;
        }
        if coefficient == 1 && controlled > limit && !(european && k == 4) {
            let p = (controlled - limit) * 1000;
            let fname = f.name();
            let mut m = String::from_str("NodeFeature ");
            push_str(&mut m, fname.as_str());
            push_str(&mut m, " controls ");
            push_decimal(&mut m, controlled);
            push_str(&mut m, " of nodes, which is > ");
            push_decimal(&mut m, limit);
            push_str(&mut m, " (2/3 of all) nodes");
            add_check(&mut acc, p, m);
        }
        k = k + 1;
    }
    assert(1000 * n * 6 == 6000 * n) by (nonlinear_arith);
    acc
}

/// The views of texts.
pub open spec fn strs_view(v: Seq<&str>) -> Seq<Seq<char>> {
    v.map_values(|s: &str| s@)
}

/// `g` is the group of linked providers at position `i`.
pub open spec fn group_at(g: (&str, Vec<&str>), i: int) -> bool {
    g.0@ == linked_providers()[i].0 && strs_view(g.1@) == linked_providers()[i].1
}

fn linked_provider_groups() -> (r: Vec<(&'static str, Vec<&'static str>)>)
    ensures
        r@.len() == 3,
        forall|i: int| 0 <= i < 3 ==> #[trigger] group_at(r@[i], i),
{
    let r = vec![
        (
            "Node provider cluster 1 (6sq7t, vegae, eatbv)",
            vec![
                "6sq7t-knkul-fko6h-xzvnf-ktbvr-jhx7r-hapzr-kjlek-whugy-zt6ip-xqe",
                "vegae-c4chr-aetfj-7gzuh-c23sx-u2paz-vmvbn-bcage-pu7lu-mptnn-eqe",
                "eatbv-nlydd-n655c-g7j7p-gnmpz-pszdg-6e6et-veobv-ftz2y-4m752-vqe",
            ],
        ),
        (
            "Providers that share multiple dcs 1",
            vec![
                "4r6qy-tljxg-slziw-zoteo-pboxh-vlctz-hkv2d-7zior-u3pxm-mmuxb-cae",
                "ivf2y-crxj4-y6ewo-un35q-a7pum-wqmbw-pkepy-d6uew-bfmff-g5yxe-eae",
                "3oqw6-vmpk2-mlwlx-52z5x-e3p7u-fjlcw-yxc34-lf2zq-6ub2f-v63hk-lae",
                "dhywe-eouw6-hstpj-ahsnw-xnjxq-cmqks-47mrg-nnncb-3sr5d-rac6m-nae",
                "diyay-s4rfq-xnx23-zczwi-nptra-5254n-e4zn6-p7tqe-vqhzr-sd4gd-bqe",
            ],
        ),
        (
            "NP Group: ZarBlue",
            vec![
                "rpfvr-s3kuw-xdqrr-pvuuj-hc7hl-olytw-yxlie-fmr74-sr572-6gdqx-iqe",
                "glrjs-2dbzh-owbdd-fpp5e-eweoz-nsuto-e3jmk-tl42c-wem4f-qfpfa-qqe",
            ],
        ),
    ];
    assert forall|i: int| 0 <= i < 3 implies #[trigger] group_at(r@[i], i) by {
        assert(strs_view(r@[i].1@) =~= linked_providers()[i].1);
    }
    r
}

fn is_member(members: &Vec<&str>, p: &str) -> (r: bool)
    ensures
        r == strs_view(members@).contains(p@),
{
    let mut j: usize = 0;
    while j < members.len()
        invariant
            j <= members@.len(),
            forall|k: int| 0 <= k < j ==> members@[k]@ != p@,
        decreases members.len() - j,
    {
        if str_eq(members[j], p) {
            assert(strs_view(members@)[j as int] == p@);
            return true;
        }
        j = j + 1;
    }
    assert forall|k: int| 0 <= k < strs_view(members@).len() implies strs_view(members@)[k] != p@ by {
        assert(strs_view(members@)[k] == members@[k]@);
    }
    false
}

fn count_in_cluster(nodes: &Vec<Node>, members: &Vec<&str>) -> (r: usize)
    ensures
        r == cluster_count(nodes@, strs_view(members@)),
        r <= nodes@.len(),
{
    let mut c: usize = 0;
    let mut i: usize = 0;
    while i < nodes.len()
        invariant
            i <= nodes@.len(),
            c == cluster_count(nodes@.take(i as int), strs_view(members@)),
            c <= i,
        decreases nodes.len() - i,
    {
        assert(nodes@.take(i as int + 1).drop_last() =~= nodes@.take(i as int));
        if is_member(members, nodes[i].provider.as_str()) {
            c = c + 1;
        }
        i = i + 1;
    }
    assert(nodes@.take(nodes@.len() as int) =~= nodes@);
    c
}

fn check_clusters(nodes: &Vec<Node>) -> (r: (usize, Vec<String>))
    requires
        nodes@.len() * 100000 <= usize::MAX,
    ensures
        (r.0 as int, texts(r.1@)) == fold_clusters(nodes@, 3),
        r.0 <= 30 * nodes@.len(),
{
    let groups = linked_provider_groups();
    let mut acc: (usize, Vec<String>) = (0, Vec::new());
    assert(texts(acc.1@) =~= Seq::<Seq<char>>::empty());
    let mut k: usize = 0;
    while k < 3
        invariant
            k <= 3,
            groups@.len() == 3,
            forall|i: int| 0 <= i < 3 ==> #[trigger] group_at(groups@[i], i),
            nodes@.len() * 100000 <= usize::MAX,
            (acc.0 as int, texts(acc.1@)) == fold_clusters(nodes@, k as int),
            acc.0 <= 10 * nodes@.len() * k,
        decreases 3 - k,
    {
        let count = count_in_cluster(nodes, &groups[k].1);
        proof {
            assert(group_at(groups@[k as int], k as int));
            assert(10 * nodes@.len() * k + 10 * nodes@.len() == 10 * nodes@.len() * (k + 1)) by (nonlinear_arith);
        }
        if count > 1 {
            let mut m = String::from_str(groups[k].0);
            push_str(&mut m, " has ");
            push_decimal(&mut m, count);
            push_str(&mut m, " nodes in the subnet");
            add_check(&mut acc, 10 * (count - 1), m);
        }
        k = k + 1;
    }
    acc
}

proof fn lemma_texts_append(a: Seq<String>, b: Seq<String>)
    ensures
        texts(a + b) == texts(a) + texts(b),
{
    assert(texts(a + b) =~= texts(a) + texts(b));
}

/// Adds the penalty of `b` to that of `acc` and appends its messages.
fn merge(acc: &mut (usize, Vec<String>), b: (usize, Vec<String>))
    requires
        old(acc).0 + b.0 <= usize::MAX,
    ensures
        final(acc).0 == old(acc).0 + b.0,
        texts(final(acc).1@) == texts(old(acc).1@) + texts(b.1@),
{
    let (p, mut v) = b;
    proof {
        lemma_texts_append(acc.1@, v@);
    }
    acc.0 = acc.0 + p;
    acc.1.append(&mut v);
}

/// The facts about the score of `nodes` that the rules read.
pub open spec fn score_facts(score: NakamotoScore, nodes: Seq<Node>) -> bool {
    &&& score.is_score_of(node_feature_seq(nodes))
    &&& forall|i: int|
        0 <= i < NUM_FEATURES ==> #[trigger] score.controlled(i) <= seq_sum(counts_of(score.counts(i))) && seq_sum(
            counts_of(score.counts(i)),
        ) <= nodes.len()
}

proof fn lemma_score_facts(score: NakamotoScore, nodes: Seq<Node>, i: int)
    requires
        score_facts(score, nodes),
        0 <= i < NUM_FEATURES,
    ensures
        score.counts(i) == vc(nodes, i),
        score.coef(i) == nk(nodes, i).0,
        score.controlled(i) == nk(nodes, i).1,
        score.controlled(i) <= nodes.len(),
        seq_sum(counts_of(score.counts(i))) <= nodes.len(),
{
    assert(crate::score::feature_score_of(score.features@[i], node_feature_seq(nodes), i));
    assert(score.controlled(i) <= seq_sum(counts_of(score.counts(i))));
}

fn check_key_countries(sid: &str, nodes: &Vec<Node>, score: &NakamotoScore) -> (r: (usize, Vec<String>))
    requires
        score_facts(*score, nodes@),
        nodes@.len() * 100000 <= usize::MAX,
    ensures
        (r.0 as int, texts(r.1@)) == (if key_country_subnet(sid@) {
            fold_country_third(vc(nodes@, 4), nodes@.len() as int / 3)
        } else {
            no_checks()
        }),
        r.0 <= 1000 * nodes@.len(),
{
    proof {
        lemma_score_facts(*score, nodes@, 4);
    }
    let key = str_eq(sid, "uzr34-akd3s-xrdag-3ql62-ocgoh-ld2ao-tamcv-54e7j-krwgb-2gm4z-oqe") || str_eq(
        sid,
        "tdb26-jop6k-aogll-7ltgs-eruif-6kk7m-qpktf-gdiqx-mxtrf-vb5e6-eqe",
    ) || str_eq(sid, "x33ed-h457x-bsgyx-oqxqf-6pzwv-wkhzr-rm2j3-npodi-purzm-n66cg-gae");
    if key {
        check_country_third(&score.features[4].value_counts, nodes.len() / 3, Ghost(nodes@.len() as int))
    } else {
        let e: (usize, Vec<String>) = (0, Vec::new());
        assert(texts(e.1@) =~= Seq::<Seq<char>>::empty());
        e
    }
}

fn check_one_per_actor_all(sid: &str, nodes: &Vec<Node>, score: &NakamotoScore) -> (r: (usize, Vec<String>))
    requires
        score_facts(*score, nodes@),
        nodes@.len() * 100000 <= usize::MAX,
    ensures
        (r.0 as int, texts(r.1@)) == join(
            join(
                fold_one_per_actor(vc(nodes@, 0), NodeFeature::NodeProvider, sid@, nodes@),
                fold_one_per_actor(vc(nodes@, 1), NodeFeature::DataCenter, sid@, nodes@),
            ),
            fold_one_per_actor(vc(nodes@, 2), NodeFeature::DataCenterOwner, sid@, nodes@),
        ),
        r.0 <= 30 * nodes@.len(),
{
    proof {
        lemma_score_facts(*score, nodes@, 0);
        lemma_score_facts(*score, nodes@, 1);
        lemma_score_facts(*score, nodes@, 2);
    }
    let n = Ghost(nodes@.len() as int);
    let mut acc = check_one_per_actor(&score.features[0].value_counts, NodeFeature::NodeProvider, sid, nodes, n);
    let b = check_one_per_actor(&score.features[1].value_counts, NodeFeature::DataCenter, sid, nodes, n);
    merge(&mut acc, b);
    let c = check_one_per_actor(&score.features[2].value_counts, NodeFeature::DataCenterOwner, sid, nodes, n);
    merge(&mut acc, c);
    acc
}

fn check_countries(sid: &str, nodes: &Vec<Node>, score: &NakamotoScore) -> (r: (usize, Vec<String>))
    requires
        score_facts(*score, nodes@),
        nodes@.len() * 100000 <= usize::MAX,
    ensures
        (r.0 as int, texts(r.1@)) == join(
            fold_country_max(vc(nodes@, 4), sid@, max_per_country(sid@)),
            rule_european(sid@, vc(nodes@, 4)),
        ),
        r.0 <= 1010 * nodes@.len(),
{
    proof {
        lemma_score_facts(*score, nodes@, 4);
    }
    let max_country: usize = if str_eq(sid, "tdb26-jop6k-aogll-7ltgs-eruif-6kk7m-qpktf-gdiqx-mxtrf-vb5e6-eqe") || str_eq(
        sid,
        "x33ed-h457x-bsgyx-oqxqf-6pzwv-wkhzr-rm2j3-npodi-purzm-n66cg-gae",
    ) || str_eq(sid, "pzp6e-ekpqk-3c5x7-2h6so-njoeq-mt45d-h3h6c-q3mxf-vpeq5-fk5o7-yae") || str_eq(
        sid,
        "uzr34-akd3s-xrdag-3ql62-ocgoh-ld2ao-tamcv-54e7j-krwgb-2gm4z-oqe",
    ) {
        3
    } else {
        2
    };
    let countries = &score.features[4].value_counts;
    let mut acc = check_country_max(countries, sid, max_country, Ghost(nodes@.len() as int));
    let european = str_eq(sid, "bkfrj-6k62g-dycql-7h53p-atvkj-zg4to-gaogh-netha-ptybj-ntsgw-rqe");
    let x = count_non_european(countries);
    proof {
        lemma_non_european_bound(vcs_view(countries@));
    }
    if european && x > 0 {
        let mut m = String::from_str("European subnet has ");
        push_decimal(&mut m, x);
        push_str(&mut m, " non-European node(s)");
        add_check(&mut acc, x * 1000, m);
    }
    acc
}

fn check_single_provider(nodes: &Vec<Node>, score: &NakamotoScore) -> (r: (usize, Vec<String>))
    requires
        score_facts(*score, nodes@),
    ensures
        (r.0 as int, texts(r.1@)) == rule_single_provider(nodes@),
        r.0 <= 10000,
{
    proof {
        lemma_score_facts(*score, nodes@, 0);
    }
    let mut acc: (usize, Vec<String>) = (0, Vec::new());
    assert(texts(acc.1@) =~= Seq::<Seq<char>>::empty());
    if score.features[0].coefficient <= 1 && nodes.len() > 3 {
        add_check(&mut acc, 10000, String::from_str("A single Node Provider can halt the subnet"));
    }
    acc
}

/// The penalties and messages of the business rules for the subnet with principal `subnet_id`
/// (in text form) and the nodes `nodes` (see [`business_rules`]).
pub fn check_business_rules_for_subnet_with_nodes(subnet_id: &str, nodes: &Vec<Node>) -> (r: (usize, Vec<String>))
    requires
        nodes@.len() * 100000 <= usize::MAX,
    ensures
        (r.0 as int, texts(r.1@)) == business_rules(subnet_id@, nodes@),
        r.0 <= 20000 * (nodes@.len() + 1),
{
    let n = nodes.len();
    if n <= 1 {
        let r: (usize, Vec<String>) = (1, Vec::new());
        assert(texts(r.1@) =~= Seq::<Seq<char>>::empty());
        return r;
    }
    let score = nakamoto_score_of(nodes);
    let mut acc = check_dfinity_owned(subnet_id, nodes);
    let r2 = check_key_countries(subnet_id, nodes, &score);
    merge(&mut acc, r2);
    let r3 = check_one_per_actor_all(subnet_id, nodes, &score);
    merge(&mut acc, r3);
    let r45 = check_countries(subnet_id, nodes, &score);
    merge(&mut acc, r45);
    let r6 = check_single_provider(nodes, &score);
    merge(&mut acc, r6);
    proof {
        assert forall|i: int| 0 <= i < NUM_FEATURES implies #[trigger] score.controlled(i) <= nodes@.len() by {
            lemma_score_facts(score, nodes@, i);
        }
    }
    let r7 = check_two_thirds(&score, nodes, subnet_id);
    merge(&mut acc, r7);
    let r8 = check_clusters(nodes);
    merge(&mut acc, r8);
    acc
}


/// Whether every message of `c` carries a penalty of at least 10, and a penalty comes with a
/// message.
pub open spec fn charged(c: Checks) -> bool {
    &&& c.0 >= 10 * c.1.len()
    &&& (c.0 == 0) == (c.1.len() == 0)
}

proof fn lemma_join_charged(a: Checks, b: Checks)
    requires
        charged(a),
        charged(b),
    ensures
        charged(join(a, b)),
{
}

proof fn lemma_fold_country_third_charged(vcs: Seq<(Seq<char>, usize)>, third: int)
    requires
        third >= 0,
    ensures
        charged(fold_country_third(vcs, third)),
    decreases vcs.len(),
{
    if vcs.len() > 0 {
        lemma_fold_country_third_charged(vcs.drop_last(), third);
        lemma_join_charged(fold_country_third(vcs.drop_last(), third), step_country_third(vcs.last(), third));
    }
}

proof fn lemma_fold_one_per_actor_charged(vcs: Seq<(Seq<char>, usize)>, f: NodeFeature, sid: Seq<char>, nodes: Seq<Node>)
    ensures
        charged(fold_one_per_actor(vcs, f, sid, nodes)),
    decreases vcs.len(),
{
    if vcs.len() > 0 {
        lemma_fold_one_per_actor_charged(vcs.drop_last(), f, sid, nodes);
        lemma_join_charged(fold_one_per_actor(vcs.drop_last(), f, sid, nodes), step_one_per_actor(vcs.last(), f, sid, nodes));
    }
}

proof fn lemma_fold_country_max_charged(vcs: Seq<(Seq<char>, usize)>, sid: Seq<char>, max: int)
    requires
        max >= 0,
    ensures
        charged(fold_country_max(vcs, sid, max)),
    decreases vcs.len(),
{
    if vcs.len() > 0 {
        lemma_fold_country_max_charged(vcs.drop_last(), sid, max);
        lemma_join_charged(fold_country_max(vcs.drop_last(), sid, max), step_country_max(vcs.last(), sid, max));
    }
}

proof fn lemma_fold_two_thirds_charged(nodes: Seq<Node>, sid: Seq<char>, k: int)
    ensures
        charged(fold_two_thirds(nodes, sid, k)),
    decreases k,
{
    if k > 0 {
        lemma_fold_two_thirds_charged(nodes, sid, k - 1);
        lemma_join_charged(fold_two_thirds(nodes, sid, k - 1), step_two_thirds(nodes, sid, k - 1));
    }
}

proof fn lemma_fold_clusters_charged(nodes: Seq<Node>, k: int)
    ensures
        charged(fold_clusters(nodes, k)),
    decreases k,
{
    if k > 0 {
        lemma_fold_clusters_charged(nodes, k - 1);
        lemma_join_charged(fold_clusters(nodes, k - 1), step_cluster(nodes, linked_providers()[k - 1]));
    }
}

/// For a subnet of at least two nodes, the business rules give a penalty exactly when they give
/// a message, and every message carries a penalty of at least 10.
pub proof fn lemma_business_rules_charged(sid: Seq<char>, nodes: Seq<Node>)
    requires
        nodes.len() >= 2,
    ensures
        (business_rules(sid, nodes).0 == 0) == (business_rules(sid, nodes).1.len() == 0),
        business_rules(sid, nodes).0 >= 10 * business_rules(sid, nodes).1.len(),
{
    let n = nodes.len() as int;
    let r1 = rule_dfinity(sid, nodes);
    let r2 = if key_country_subnet(sid) {
        fold_country_third(vc(nodes, 4), n / 3)
    } else {
        no_checks()
    };
    lemma_fold_country_third_charged(vc(nodes, 4), n / 3);
    let a = fold_one_per_actor(vc(nodes, 0), NodeFeature::NodeProvider, sid, nodes);
    let b = fold_one_per_actor(vc(nodes, 1), NodeFeature::DataCenter, sid, nodes);
    let c = fold_one_per_actor(vc(nodes, 2), NodeFeature::DataCenterOwner, sid, nodes);
    lemma_fold_one_per_actor_charged(vc(nodes, 0), NodeFeature::NodeProvider, sid, nodes);
    lemma_fold_one_per_actor_charged(vc(nodes, 1), NodeFeature::DataCenter, sid, nodes);
    lemma_fold_one_per_actor_charged(vc(nodes, 2), NodeFeature::DataCenterOwner, sid, nodes);
    lemma_join_charged(a, b);
    lemma_join_charged(join(a, b), c);
    let r3 = join(join(a, b), c);
    let r4 = fold_country_max(vc(nodes, 4), sid, max_per_country(sid));
    lemma_fold_country_max_charged(vc(nodes, 4), sid, max_per_country(sid));
    let r5 = rule_european(sid, vc(nodes, 4));
    let r6 = rule_single_provider(nodes);
    let r7 = fold_two_thirds(nodes, sid, 6);
    lemma_fold_two_thirds_charged(nodes, sid, 6);
    let r8 = fold_clusters(nodes, 3);
    lemma_fold_clusters_charged(nodes, 3);
    assert(charged(r1));
    assert(charged(r2));
    assert(charged(r5));
    assert(charged(r6));
    lemma_join_charged(r1, r2);
    lemma_join_charged(join(r1, r2), r3);
    lemma_join_charged(join(join(r1, r2), r3), r4);
    lemma_join_charged(join(join(join(r1, r2), r3), r4), r5);
    lemma_join_charged(join(join(join(join(r1, r2), r3), r4), r5), r6);
    lemma_join_charged(join(join(join(join(join(r1, r2), r3), r4), r5), r6), r7);
    lemma_join_charged(join(join(join(join(join(join(r1, r2), r3), r4), r5), r6), r7), r8);
}


proof fn lemma_occurrences_remove(s: Seq<Option<Seq<char>>>, k: int, v: Seq<char>)
    requires
        0 <= k < s.len(),
    ensures
        occurrences(s, v) == occurrences(s.remove(k), v) + (if s[k] == Some(v) { 1nat } else { 0nat }),
    decreases s.len(),
{
    if k == s.len() - 1 {
        assert(s.remove(k) =~= s.drop_last());
    } else {
        lemma_occurrences_remove(s.drop_last(), k, v);
        assert(s.remove(k).drop_last() =~= s.drop_last().remove(k));
        assert(s.remove(k).last() == s.last());
    }
}

proof fn lemma_dfinity_count_remove(s: Seq<Node>, k: int)
    requires
        0 <= k < s.len(),
    ensures
        dfinity_owned_count(s) == dfinity_owned_count(s.remove(k)) + (if s[k].dfinity_owned == Some(true) { 1int } else { 0int }),
    decreases s.len(),
{
    if k == s.len() - 1 {
        assert(s.remove(k) =~= s.drop_last());
    } else {
        lemma_dfinity_count_remove(s.drop_last(), k);
        assert(s.remove(k).drop_last() =~= s.drop_last().remove(k));
        assert(s.remove(k).last() == s.last());
    }
}

proof fn lemma_cluster_count_remove(s: Seq<Node>, k: int, members: Seq<Seq<char>>)
    requires
        0 <= k < s.len(),
    ensures
        cluster_count(s, members) == cluster_count(s.remove(k), members) + (if members.contains(s[k].provider@) {
            1int
        } else {
            0int
        }),
    decreases s.len(),
{
    if k == s.len() - 1 {
        assert(s.remove(k) =~= s.drop_last());
    } else {
        lemma_cluster_count_remove(s.drop_last(), k, members);
        assert(s.remove(k).drop_last() =~= s.drop_last().remove(k));
        assert(s.remove(k).last() == s.last());
    }
}

/// The node-wise counts of two lists of the same nodes, in any order, agree.
proof fn lemma_counts_permutation(a: Seq<Node>, b: Seq<Node>)
    requires
        a.to_multiset() == b.to_multiset(),
    ensures
        a.len() == b.len(),
        dfinity_owned_count(a) == dfinity_owned_count(b),
        forall|members: Seq<Seq<char>>| #[trigger] cluster_count(a, members) == cluster_count(b, members),
        forall|f: NodeFeature, v: Seq<char>|
            #[trigger] occurrences(feature_values(node_feature_seq(a), f), v) == occurrences(
                feature_values(node_feature_seq(b), f),
                v,
            ),
    decreases a.len(),
{
    broadcast use vstd::seq_lib::group_to_multiset_ensures;
    assert(a.len() == a.to_multiset().len());
    assert(b.len() == b.to_multiset().len());
    if a.len() > 0 {
        let x = a.last();
        assert(a.to_multiset().count(x) > 0) by {
            assert(a.contains(x)) by {
                assert(a[a.len() - 1] == x);
            }
        }
        assert(b.contains(x));
        let k = choose|k: int| 0 <= k < b.len() && b[k] == x;
        let br = b.remove(k);
        assert(a.drop_last() =~= a.remove(a.len() - 1));
        assert(a.drop_last().to_multiset() == a.to_multiset().remove(x));
        assert(br.to_multiset() == b.to_multiset().remove(x));
        lemma_counts_permutation(a.drop_last(), br);
        lemma_dfinity_count_remove(b, k);
        assert forall|members: Seq<Seq<char>>| #[trigger] cluster_count(a, members) == cluster_count(b, members) by {
            lemma_cluster_count_remove(b, k, members);
            assert(cluster_count(a.drop_last(), members) == cluster_count(br, members));
        }
        assert forall|f: NodeFeature, v: Seq<char>|
            #[trigger] occurrences(feature_values(node_feature_seq(a), f), v) == occurrences(
                feature_values(node_feature_seq(b), f),
                v,
            ) by {
            let fb = feature_values(node_feature_seq(b), f);
            let fa = feature_values(node_feature_seq(a), f);
            assert(fb.remove(k) =~= feature_values(node_feature_seq(br), f));
            assert(fa.drop_last() =~= feature_values(node_feature_seq(a.drop_last()), f));
            lemma_occurrences_remove(fb, k, v);
            assert(occurrences(feature_values(node_feature_seq(a.drop_last()), f), v) == occurrences(
                feature_values(node_feature_seq(br), f),
                v,
            ));
        }
    }
}

proof fn lemma_fold_one_per_actor_same(vcs: Seq<(Seq<char>, usize)>, f: NodeFeature, sid: Seq<char>, a: Seq<Node>, b: Seq<Node>)
    requires
        forall|name: Seq<char>| #[trigger] dfinity_dc(a, name) == dfinity_dc(b, name),
        forall|name: Seq<char>| #[trigger] dfinity_dc_owner(a, name) == dfinity_dc_owner(b, name),
    ensures
        fold_one_per_actor(vcs, f, sid, a) == fold_one_per_actor(vcs, f, sid, b),
    decreases vcs.len(),
{
    if vcs.len() > 0 {
        lemma_fold_one_per_actor_same(vcs.drop_last(), f, sid, a, b);
        assert(dfinity_dc(a, vcs.last().0) == dfinity_dc(b, vcs.last().0));
        assert(dfinity_dc_owner(a, vcs.last().0) == dfinity_dc_owner(b, vcs.last().0));
    }
}

proof fn lemma_fold_two_thirds_same(a: Seq<Node>, b: Seq<Node>, sid: Seq<char>, k: int)
    requires
        a.len() == b.len(),
        forall|i: int| #[trigger] nk(a, i) == nk(b, i),
    ensures
        fold_two_thirds(a, sid, k) == fold_two_thirds(b, sid, k),
    decreases k,
{
    if k > 0 {
        lemma_fold_two_thirds_same(a, b, sid, k - 1);
        assert(nk(a, k - 1) == nk(b, k - 1));
    }
}

proof fn lemma_fold_clusters_same(a: Seq<Node>, b: Seq<Node>, k: int)
    requires
        forall|members: Seq<Seq<char>>| #[trigger] cluster_count(a, members) == cluster_count(b, members),
    ensures
        fold_clusters(a, k) == fold_clusters(b, k),
    decreases k,
{
    if k > 0 {
        lemma_fold_clusters_same(a, b, k - 1);
        assert(cluster_count(a, linked_providers()[k - 1].1) == cluster_count(b, linked_providers()[k - 1].1));
    }
}

/// The business rules do not depend on the order of the nodes: the same nodes in any order give
/// the same penalty and the same messages.
pub proof fn lemma_business_rules_ignore_order(sid: Seq<char>, a: Seq<Node>, b: Seq<Node>)
    requires
        a.to_multiset() == b.to_multiset(),
    ensures
        business_rules(sid, a) == business_rules(sid, b),
{
    broadcast use vstd::seq_lib::group_to_multiset_ensures;
    lemma_counts_permutation(a, b);
    assert forall|i: int| #[trigger] vc(a, i) == vc(b, i) by {
        let f = NodeFeature::spec_at(i);
        let fa = feature_values(node_feature_seq(a), f);
        let fb = feature_values(node_feature_seq(b), f);
        assert forall|v: Seq<char>| #[trigger] occurrences(fa, v) == occurrences(fb, v) by {
            assert(occurrences(feature_values(node_feature_seq(a), f), v) == occurrences(feature_values(node_feature_seq(b), f), v));
        }
        crate::features::lemma_value_counts_by_occurrences(fa, fb);
    }
    assert forall|i: int| #[trigger] nk(a, i) == nk(b, i) by {
        assert(vc(a, i) == vc(b, i));
    }
    assert forall|x: Node| a.contains(x) == b.contains(x) by {
        vstd::seq_lib::to_multiset_contains(a, x);
        vstd::seq_lib::to_multiset_contains(b, x);
    }
    assert forall|name: Seq<char>| #[trigger] dfinity_dc(a, name) == dfinity_dc(b, name) by {
        if dfinity_dc(a, name) {
            let i = choose|i: int| 0 <= i < a.len() && a[i].provider@ == dfinity_provider() && #[trigger] dc_name(a[i]) == name;
            assert(a.contains(a[i]));
            let j = choose|j: int| 0 <= j < b.len() && b[j] == a[i];
            assert(dc_name(b[j]) == name);
        }
        if dfinity_dc(b, name) {
            let i = choose|i: int| 0 <= i < b.len() && b[i].provider@ == dfinity_provider() && #[trigger] dc_name(b[i]) == name;
            assert(b.contains(b[i]));
            let j = choose|j: int| 0 <= j < a.len() && a[j] == b[i];
            assert(dc_name(a[j]) == name);
        }
    }
    assert forall|name: Seq<char>| #[trigger] dfinity_dc_owner(a, name) == dfinity_dc_owner(b, name) by {
        if dfinity_dc_owner(a, name) {
            let i = choose|i: int| 0 <= i < a.len() && a[i].provider@ == dfinity_provider() && #[trigger] dc_owner(a[i]) == name;
            assert(a.contains(a[i]));
            let j = choose|j: int| 0 <= j < b.len() && b[j] == a[i];
            assert(dc_owner(b[j]) == name);
        }
        if dfinity_dc_owner(b, name) {
            let i = choose|i: int| 0 <= i < b.len() && b[i].provider@ == dfinity_provider() && #[trigger] dc_owner(b[i]) == name;
            assert(b.contains(b[i]));
            let j = choose|j: int| 0 <= j < a.len() && a[j] == b[i];
            assert(dc_owner(a[j]) == name);
        }
    }
    assert(vc(a, 0) == vc(b, 0));
    assert(vc(a, 1) == vc(b, 1));
    assert(vc(a, 2) == vc(b, 2));
    assert(vc(a, 4) == vc(b, 4));
    assert(nk(a, 0) == nk(b, 0));
    lemma_fold_one_per_actor_same(vc(a, 0), NodeFeature::NodeProvider, sid, a, b);
    lemma_fold_one_per_actor_same(vc(a, 1), NodeFeature::DataCenter, sid, a, b);
    lemma_fold_one_per_actor_same(vc(a, 2), NodeFeature::DataCenterOwner, sid, a, b);
    lemma_fold_two_thirds_same(a, b, sid, 6);
    lemma_fold_clusters_same(a, b, 3);
}

/// The nodes of each country over `limit`, added up.
pub open spec fn nodes_over(vcs: Seq<(Seq<char>, usize)>, limit: int) -> int
    decreases vcs.len(),
{
    if vcs.len() == 0 {
        0
    } else {
        nodes_over(vcs.drop_last(), limit) + if vcs.last().1 > limit {
            vcs.last().1 - limit
        } else {
            0
        }
    }
}

/// Whether `sid` is one of the NNS (tdb26), SNS (x33ed) or threshold-key (pzp6e, uzr34) subnets.
pub open spec fn three_per_country_subnet(sid: Seq<char>) -> bool {
    ||| sid == "tdb26-jop6k-aogll-7ltgs-eruif-6kk7m-qpktf-gdiqx-mxtrf-vb5e6-eqe"@
    ||| sid == "x33ed-h457x-bsgyx-oqxqf-6pzwv-wkhzr-rm2j3-npodi-purzm-n66cg-gae"@
    ||| sid == "pzp6e-ekpqk-3c5x7-2h6so-njoeq-mt45d-h3h6c-q3mxf-vpeq5-fk5o7-yae"@
    ||| sid == "uzr34-akd3s-xrdag-3ql62-ocgoh-ld2ao-tamcv-54e7j-krwgb-2gm4z-oqe"@
}

/// The NNS, SNS and threshold-key subnets (tdb26, x33ed, pzp6e, uzr34) allow up to three nodes
/// per country: when no country has more, the per-country rule gives no penalty and no message.
pub proof fn lemma_three_nodes_per_country_allowed(sid: Seq<char>, vcs: Seq<(Seq<char>, usize)>)
    requires
        three_per_country_subnet(sid),
        forall|i: int| 0 <= i < vcs.len() ==> (#[trigger] vcs[i]).1 <= 3,
    ensures
        fold_country_max(vcs, sid, max_per_country(sid)) == no_checks(),
    decreases vcs.len(),
{
    if vcs.len() > 0 {
        lemma_three_nodes_per_country_allowed(sid, vcs.drop_last());
        assert(vcs.last() == vcs[vcs.len() - 1]);
        assert(join(no_checks(), no_checks()) =~= no_checks());
    }
}

/// Outside the European subnet, the per-country rule charges 10 for each node of a country over
/// the limit: three nodes in the NNS, SNS and threshold-key subnets, two in any other.
pub proof fn lemma_country_limit_penalty(sid: Seq<char>, vcs: Seq<(Seq<char>, usize)>)
    requires
        sid != european_subnet(),
    ensures
        fold_country_max(vcs, sid, max_per_country(sid)).0 == 10 * nodes_over(
            vcs,
            if three_per_country_subnet(sid) { 3 } else { 2 },
        ),
    decreases vcs.len(),
{
    if vcs.len() > 0 {
        lemma_country_limit_penalty(sid, vcs.drop_last());
    }
}

} // verus!
