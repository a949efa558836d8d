//! Node categories (region and node type) and the grouping of type3 nodes.
use vstd::prelude::*;
use vstd::string::StrSliceExecFns;

verus! {

/// A region together with a node type.
#[derive(Debug, Clone, PartialEq, Eq, Hash, PartialOrd, Ord)]
pub struct NodeCategory {
    pub region: String,
    pub node_type: String,
}

/// Index of the first `c` in `s` at or after `from`, or `s.len()` when there is none.
pub open spec fn find_char(s: Seq<char>, c: char, from: int) -> int
    decreases s.len() - from,
{
    if from >= s.len() {
        s.len() as int
    } else if s[from] == c {
        from
    } else {
        find_char(s, c, from + 1)
    }
}

/// Whether `prefix` starts `s`.
pub open spec fn starts_with(s: Seq<char>, prefix: Seq<char>) -> bool {
    prefix.len() <= s.len() && s.take(prefix.len() as int) == prefix
}

/// Whether the node type belongs to the type3 family (`type3`, `type3.1`, ...).
pub open spec fn spec_is_type3(node_type: Seq<char>) -> bool {
    starts_with(node_type, seq!['t', 'y', 'p', 'e', '3'])
}

/// The first two comma-separated parts of a region (continent and country), joined by `:`.
/// A region without a comma is its own key.
pub open spec fn spec_type3_region_key(region: Seq<char>) -> Seq<char> {
    let i = find_char(region, ',', 0);
    if i >= region.len() {
        region
    } else {
        let j = find_char(region, ',', i + 1);
        region.take(i) + seq![':'] + region.subrange(i + 1, j)
    }
}

/// The category that groups type3 nodes of a region: the region key, with node type `type3*`.
pub open spec fn spec_type3_category(region: Seq<char>) -> (Seq<char>, Seq<char>) {
    (spec_type3_region_key(region), seq!['t', 'y', 'p', 'e', '3', '*'])
}

pub proof fn lemma_find_char_bounds(s: Seq<char>, c: char, from: int)
    requires
        0 <= from <= s.len(),
    ensures
        from <= find_char(s, c, from) <= s.len(),
        find_char(s, c, from) < s.len() ==> s[find_char(s, c, from)] == c,
        forall|k: int| from <= k < find_char(s, c, from) ==> s[k] != c,
    decreases s.len() - from,
{
    if from < s.len() && s[from] != c {
        lemma_find_char_bounds(s, c, from + 1);
    }
}

/// Index of the first `c` in `s` at or after `from`, or the length of `s` when there is none.
pub fn find_char_exec(s: &str, len: usize, c: char, from: usize) -> (r: usize)
    requires
        len == s@.len(),
        from <= len,
    ensures
        r as int == find_char(s@, c, from as int),
{
    let mut i = from;
    while i < len
        invariant
            from <= i <= len,
            len == s@.len(),
            find_char(s@, c, from as int) == find_char(s@, c, i as int),
        decreases len - i,
    {
        if s.get_char(i) == c {
            return i;
        }
        i = i + 1;
    }
    i
}

/// Whether the node type belongs to the type3 family.
pub fn is_type3(node_type: &str) -> (r: bool)
    ensures
        r == spec_is_type3(node_type@),
{
    let prefix = "type3";
    proof {
        reveal_strlit("type3");
    }
    let len = node_type.unicode_len();
    if len < 5 {
        return false;
    }
    let mut i: usize = 0;
    while i < 5
        invariant
            i <= 5,
            len == node_type@.len(),
            5 <= len,
            prefix@ == seq!['t', 'y', 'p', 'e', '3'],
            forall|k: int| 0 <= k < i ==> node_type@[k] == prefix@[k],
        decreases 5 - i,
    {
        if node_type.get_char(i) != prefix.get_char(i) {
            assert(node_type@.take(5)[i as int] != prefix@[i as int]);
            return false;
        }
        i = i + 1;
    }
    assert(node_type@.take(5) =~= prefix@);
    true
}

/// The region key that groups type3 nodes: continent and country of the region, joined by `:`.
pub fn type3_region_key(region: &str) -> (r: String)
    ensures
        r@ == spec_type3_region_key(region@),
{
    let len = region.unicode_len();
    proof {
        lemma_find_char_bounds(region@, ',', 0);
    }
    let i = find_char_exec(region, len, ',', 0);
    if i >= len {
        return String::from_str(region);
    }
    proof {
        lemma_find_char_bounds(region@, ',', i + 1);
    }
    let j = find_char_exec(region, len, ',', i + 1);
    let mut key = String::from_str(region.substring_char(0, i));
    let colon = ":";
    proof {
        reveal_strlit(":");
    }
    key.append(colon);
    key.append(region.substring_char(i + 1, j));
    proof {
        assert(region@.subrange(0, i as int) =~= region@.take(i as int));
    }
    key
}

/// The category that groups type3 nodes of `region`.
pub fn type3_category(region: &str) -> (r: NodeCategory)
    ensures
        (r.region@, r.node_type@) == spec_type3_category(region@),
{
    let node_type = String::from_str("type3*");
    proof {
        reveal_strlit("type3*");
    }
    NodeCategory { region: type3_region_key(region), node_type }
}

/// Index of the first entry with a non-zero count, or the length when there is none.
pub open spec fn first_nonzero(counts: Seq<(String, u32)>, from: int) -> int
    decreases counts.len() - from,
{
    if from >= counts.len() {
        counts.len() as int
    } else if counts[from].1 != 0 {
        from
    } else {
        first_nonzero(counts, from + 1)
    }
}

/// The node type assigned to the next node of an operator, and what is left of the operator's
/// rewardable counts (by node type, in ascending order of type) afterwards.
pub open spec fn spec_estimate_node_type(counts: Seq<(String, u32)>) -> (Seq<char>, Seq<(String, u32)>) {
    if counts.len() == 0 {
        ("unknown:no_rewardable_nodes_found"@, counts)
    } else {
        let k = first_nonzero(counts, 0);
        if k >= counts.len() {
            ("unknown:rewardable_nodes_used_up"@, Seq::empty())
        } else {
            let (t, c) = counts[k];
            let rest = counts.skip(k + 1);
            (t@, if c > 1 { seq![(t, (c - 1) as u32)] + rest } else { rest })
        }
    }
}

/// The first non-zero count at or after `from` lies between `from` and the end.
pub proof fn lemma_first_nonzero_bounds(counts: Seq<(String, u32)>, from: int)
    requires
        0 <= from <= counts.len(),
    ensures
        from <= first_nonzero(counts, from) <= counts.len(),
        first_nonzero(counts, from) < counts.len() ==> counts[first_nonzero(counts, from)].1 != 0,
    decreases counts.len() - from,
{
    if from < counts.len() && counts[from].1 == 0 {
        lemma_first_nonzero_bounds(counts, from + 1);
    }
}

fn take_node_type(counts: &mut Vec<(String, u32)>) -> (r: String)
    ensures
        r@ == spec_estimate_node_type(old(counts)@).0,
        final(counts)@ == spec_estimate_node_type(old(counts)@).1,
{
    if counts.len() == 0 {
        return String::from_str("unknown:no_rewardable_nodes_found");
    }
    let ghost start = counts@;
    let ghost mut i: int = 0;
    proof {
        lemma_first_nonzero_bounds(start, 0);
        assert(start.skip(0) =~= start);
    }
    while counts.len() > 0
        invariant
            start == old(counts)@,
            start.len() > 0,
            0 <= i <= start.len(),
            counts@ == start.skip(i),
            first_nonzero(start, 0) == first_nonzero(start, i),
        decreases counts.len(),
    {
        let (t, c) = counts.remove(0);
        proof {
            assert(start[i] == (t, c));
            assert(start.skip(i + 1) =~= start.skip(i).subrange(1, start.skip(i).len() as int));
        }
        if c != 0 {
            if c - 1 != 0 {
                counts.insert(0, (t.clone(), c - 1));
                proof {
                    assert(counts@ =~= seq![(t, (c - 1) as u32)] + start.skip(i + 1));
                }
            }
            return t;
        }
        proof {
            i = i + 1;
        }
    }
    proof {
        assert(counts@.len() == 0);
        lemma_first_nonzero_bounds(start, i);
    }
    String::from_str("unknown:rewardable_nodes_used_up")
}

/// The node types of the counts are strictly ascending (as the keys of an ordered map are).
pub open spec fn types_ascending(counts: Seq<(String, u32)>) -> bool {
    forall|i: int, j: int|
        0 <= i < j < counts.len() ==> crate::features::str_le(#[trigger] counts[i].0@, #[trigger] counts[j].0@) && counts[i].0@
            != counts[j].0@
}

/// With the node types ascending, the type picked is the least type with a count left, and the
/// counts left keep their types ascending.
pub proof fn lemma_estimate_takes_least_type(counts: Seq<(String, u32)>)
    requires
        types_ascending(counts),
    ensures
        types_ascending(spec_estimate_node_type(counts).1),
        forall|j: int|
            0 <= j < counts.len() && (#[trigger] counts[j]).1 != 0 ==> first_nonzero(counts, 0) < counts.len()
                && crate::features::str_le(spec_estimate_node_type(counts).0, counts[j].0@),
{
    if counts.len() > 0 {
        lemma_first_nonzero_bounds(counts, 0);
        let k = first_nonzero(counts, 0);
        assert forall|j: int| 0 <= j < counts.len() && (#[trigger] counts[j]).1 != 0 implies k < counts.len()
            && crate::features::str_le(spec_estimate_node_type(counts).0, counts[j].0@) by {
            lemma_first_nonzero_least(counts, 0, j);
            if k < j {
                assert(crate::features::str_le(counts[k].0@, counts[j].0@));
            } else {
                crate::features::lemma_str_le_total(counts[k].0@, counts[k].0@);
            }
        }
        if k < counts.len() {
            let (t, c) = counts[k];
            let rest = counts.skip(k + 1);
            let left = spec_estimate_node_type(counts).1;
            assert forall|i: int, j: int| 0 <= i < j < left.len() implies crate::features::str_le(
                #[trigger] left[i].0@,
                #[trigger] left[j].0@,
            ) && left[i].0@ != left[j].0@ by {
                if c > 1 {
                    if i == 0 {
                        assert(left[j] == counts[k + j]);
                    } else {
                        assert(left[i] == counts[k + i]);
                        assert(left[j] == counts[k + j]);
                    }
                } else {
                    assert(left[i] == counts[k + 1 + i]);
                    assert(left[j] == counts[k + 1 + j]);
                }
            }
        }
    }
}

proof fn lemma_first_nonzero_least(counts: Seq<(String, u32)>, from: int, j: int)
    requires
        0 <= from <= j < counts.len(),
        counts[j].1 != 0,
    ensures
        from <= first_nonzero(counts, from) <= j,
    decreases counts.len() - from,
{
    if counts[from].1 == 0 {
        lemma_first_nonzero_least(counts, from + 1, j);
    }
}

/// Picks the node type of a node from the rewardable counts of its operator, held in ascending
/// order of their types: the first type with a count left, whose count is then decreased by one.
/// Types whose count is used up leave the counts. Without counts, the type is `unknown`.
pub fn estimate_node_type(rewardable_count: Option<&mut Vec<(String, u32)>>) -> (r: String)
    requires
        rewardable_count matches Some(counts) ==> types_ascending(counts@),
    ensures
        match rewardable_count {
            None => r@ == "unknown"@,
            Some(counts) => {
                &&& r@ == spec_estimate_node_type(counts@).0
                &&& final(counts)@ == spec_estimate_node_type(counts@).1
                &&& types_ascending(final(counts)@)
            },
        },
{
    match rewardable_count {
        None => String::from_str("unknown"),
        Some(counts) => {
            proof {
                lemma_estimate_takes_least_type(counts@);
            }
            take_node_type(counts)
        },
    }
}

} // verus!
