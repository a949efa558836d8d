//! The record of a reward computation: every arithmetic step with its reason, operands and
//! result.
use vstd::prelude::*;
use crate::dec::{Dec, checked_add, checked_sub, checked_mul, checked_div, spec_add, spec_sub, spec_mul, spec_div, wf_result, decimal_display, decimal_round_dp, round_dp, to_text};
use crate::text::{dec, push_decimal, push_str};

verus! {

/// An arithmetic step of a reward computation.
pub enum Operation {
    Sum(Vec<Dec>),
    Avg(Vec<Dec>),
    Subtract(Dec, Dec),
    Multiply(Dec, Dec),
    Divide(Dec, Dec),
    SetValue(Dec),
}

/// The sum, from left to right, of decimals; `None` when an addition overflows.
pub open spec fn spec_sum(s: Seq<Dec>) -> Option<Dec>
    decreases s.len(),
{
    if s.len() == 0 {
        Some(Dec::spec_new(0, 0))
    } else {
        match spec_sum(s.drop_last()) {
            Some(acc) => spec_add(acc, s.last()),
            None => None,
        }
    }
}

/// The sum of the mantissas of the decimals.
pub open spec fn mantissa_sum(s: Seq<Dec>) -> int
    decreases s.len(),
{
    if s.len() == 0 {
        0
    } else {
        mantissa_sum(s.drop_last()) + s.last().mantissa
    }
}

/// All decimals are non-negative integers held with scale 0.
pub open spec fn all_small_ints(s: Seq<Dec>) -> bool {
    forall|i: int| 0 <= i < s.len() ==> #[trigger] s[i].is_small_int(crate::dec::MAX_MANTISSA as int)
}

pub proof fn lemma_mantissa_sum_monotone(s: Seq<Dec>, i: int)
    requires
        all_small_ints(s),
        0 <= i <= s.len(),
    ensures
        0 <= mantissa_sum(s.take(i)) <= mantissa_sum(s),
    decreases s.len(),
{
    if s.len() > 0 {
        assert(s[s.len() - 1].is_small_int(crate::dec::MAX_MANTISSA as int));
        if i < s.len() {
            assert(s.drop_last().take(i) =~= s.take(i));
            assert(all_small_ints(s.drop_last()));
            lemma_mantissa_sum_monotone(s.drop_last(), i);
        } else {
            assert(s.take(i) =~= s);
            assert(all_small_ints(s.drop_last()));
            lemma_mantissa_sum_monotone(s.drop_last(), i - 1);
            assert(s.drop_last().take(i - 1) =~= s.drop_last());
        }
    } else {
        assert(s.take(i) =~= s);
    }
}

/// All decimals of the sequence are well formed.
pub open spec fn all_wf(s: Seq<Dec>) -> bool {
    forall|i: int| 0 <= i < s.len() ==> #[trigger] s[i].wf()
}

impl Operation {
    /// The operands are well-formed decimals.
    pub open spec fn wf(&self) -> bool {
        match self {
            Operation::Sum(v) => all_wf(v@),
            Operation::Avg(v) => all_wf(v@),
            Operation::Subtract(a, b) => a.wf() && b.wf(),
            Operation::Multiply(a, b) => a.wf() && b.wf(),
            Operation::Divide(a, b) => a.wf() && b.wf(),
            Operation::SetValue(a) => a.wf(),
        }
    }

    /// The value of the step; `None` when an operation overflows or divides by zero.
    pub open spec fn spec_execute(&self) -> Option<Dec> {
        match self {
            Operation::Sum(v) => spec_sum(v@),
            Operation::Avg(v) => match spec_sum(v@) {
                Some(s) => spec_div(s, Dec::spec_new(if v@.len() == 0 { 1 } else { v@.len() as int }, 0)),
                None => None,
            },
            Operation::Subtract(a, b) => spec_sub(*a, *b),
            Operation::Multiply(a, b) => spec_mul(*a, *b),
            Operation::Divide(a, b) => spec_div(*a, *b),
            Operation::SetValue(a) => Some(*a),
        }
    }

    /// The sum of the decimals, from left to right.
    pub fn sum(operators: &Vec<Dec>) -> (r: Option<Dec>)
        requires
            all_wf(operators@),
        ensures
            r == spec_sum(operators@),
            wf_result(r),
            all_small_ints(operators@) && mantissa_sum(operators@) <= crate::dec::MAX_MANTISSA ==> r == Some(
                Dec::spec_new(mantissa_sum(operators@), 0),
            ),
    {
        let mut acc = Dec::zero();
        let ghost exact = all_small_ints(operators@) && mantissa_sum(operators@) <= crate::dec::MAX_MANTISSA;
        let mut i: usize = 0;
        while i < operators.len()
            invariant
                i <= operators.len(),
                all_wf(operators@),
                acc.wf(),
                spec_sum(operators@.take(i as int)) == Some(acc),
                exact == (all_small_ints(operators@) && mantissa_sum(operators@) <= crate::dec::MAX_MANTISSA),
                exact ==> acc == Dec::spec_new(mantissa_sum(operators@.take(i as int)), 0),
            decreases operators.len() - i,
        {
            assert(operators@.take(i as int + 1).drop_last() =~= operators@.take(i as int));
            proof {
                if exact {
                    lemma_mantissa_sum_monotone(operators@, i as int + 1);
                    lemma_mantissa_sum_monotone(operators@, i as int);
                    assert(operators@[i as int].is_small_int(crate::dec::MAX_MANTISSA as int));
                    assert(operators@.take(i as int + 1).last() == operators@[i as int]);
                    assert(mantissa_sum(operators@.take(i as int + 1)) == mantissa_sum(operators@.take(i as int)) + operators@[i as int].mantissa);
                }
            }
            match checked_add(acc, operators[i]) {
                Some(v) => acc = v,
                None => {
                    assert(spec_sum(operators@.take(i as int + 1)) is None);
                    let mut k: usize = i + 1;
                    while k < operators.len()
                        invariant
                            i < k <= operators.len(),
                            spec_sum(operators@.take(k as int)) is None,
                        decreases operators.len() - k,
                    {
                        assert(operators@.take(k as int + 1).drop_last() =~= operators@.take(k as int));
                        k = k + 1;
                    }
                    assert(operators@.take(operators.len() as int) =~= operators@);
                    return None;
                },
            }
            i = i + 1;
        }
        assert(operators@.take(operators.len() as int) =~= operators@);
        Some(acc)
    }

    /// The step is a sum of non-negative integers whose total fits in a decimal.
    pub open spec fn is_exact_sum(&self) -> bool {
        self matches Operation::Sum(v) && all_small_ints(v@) && mantissa_sum(v@) <= crate::dec::MAX_MANTISSA
    }

    /// The exact total of a sum of integers.
    pub open spec fn exact_sum(&self) -> int {
        match self {
            Operation::Sum(v) => mantissa_sum(v@),
            _ => 0,
        }
    }

    /// Carries out the step.
    pub fn execute(&self) -> (r: Option<Dec>)
        requires
            self.wf(),
        ensures
            r == self.spec_execute(),
            wf_result(r),
            self.is_exact_sum() ==> r == Some(Dec::spec_new(self.exact_sum(), 0)),
    {
        match self {
            Operation::Sum(v) => Self::sum(v),
            Operation::Avg(v) => {
                let s = Self::sum(v)?;
                let n: u64 = if v.len() == 0 { 1 } else { v.len() as u64 };
                checked_div(s, Dec::from_u64(n))
            },
            Operation::Subtract(a, b) => checked_sub(*a, *b),
            Operation::Multiply(a, b) => checked_mul(*a, *b),
            Operation::Divide(a, b) => checked_div(*a, *b),
            Operation::SetValue(a) => Some(*a),
        }
    }
}

/// An entry of the record of a reward computation.
pub enum LogEntry {
    RewardsForNodeProvider(String),
    ComputeRewardMultiplierForNode(String),
    RewardsXDRTotal(Dec),
    ExecuteOperation { reason: String, operation: Operation, result: Dec },
    RateNotFoundInRewardTable { node_type: String, region: String },
    RewardTableEntry { node_type: String, region: String, coeff: Dec, base_rewards: Dec },
    AvgType3Rewards(String, Dec),
}

/// The record `b` starts with the record `a`: steps were only added.
pub open spec fn extended(a: Seq<LogEntry>, b: Seq<LogEntry>) -> bool {
    a.len() <= b.len() && forall|i: int| 0 <= i < a.len() ==> #[trigger] b[i] == a[i]
}

/// The record of the reward computation of one node provider.
pub struct RewardsPerNodeProviderLog {
    pub entries: Vec<LogEntry>,
}

impl RewardsPerNodeProviderLog {
    /// Every entry holds valid decimals.
    pub open spec fn wf(&self) -> bool {
        forall|i: int| 0 <= i < self.entries@.len() ==> entry_wf(#[trigger] self.entries@[i])
    }

    /// An empty record.
    pub fn new() -> (r: Self)
        ensures
            r.entries@.len() == 0,
            r.wf(),
    {
        RewardsPerNodeProviderLog { entries: Vec::new() }
    }

    /// Appends an entry.
    pub fn add_entry(&mut self, entry: LogEntry)
        ensures
            final(self).entries@ == old(self).entries@.push(entry),
            old(self).wf() && entry_wf(entry) ==> final(self).wf(),
    {
        self.entries.push(entry);
    }

    /// Carries out a step and records it with its reason and result. A step that overflows or
    /// divides by zero is not recorded and gives `None`.
    pub fn execute(&mut self, reason: &str, operation: Operation) -> (r: Option<Dec>)
        requires
            operation.wf(),
        ensures
            r == operation.spec_execute(),
            wf_result(r),
            operation.is_exact_sum() ==> r == Some(Dec::spec_new(operation.exact_sum(), 0)),
            r is Some ==> final(self).entries@.len() == old(self).entries@.len() + 1
                && final(self).entries@.take(old(self).entries@.len() as int) == old(self).entries@,
            r is None ==> final(self).entries@ == old(self).entries@,
            extended(old(self).entries@, final(self).entries@),
            old(self).wf() ==> final(self).wf(),
    {
        let result = operation.execute()?;
        let entry = LogEntry::ExecuteOperation { reason: String::from_str(reason), operation, result };
        self.entries.push(entry);
        assert(self.entries@.take(old(self).entries@.len() as int) =~= old(self).entries@);
        assert(forall|i: int| 0 <= i < old(self).entries@.len() ==> self.entries@[i] == old(self).entries@[i]);
        Some(result)
    }

    /// Empties the record.
    pub fn flush_log_entries(&mut self)
        ensures
            final(self).entries@.len() == 0,
            final(self).wf(),
    {
        self.entries = Vec::new();
    }
}

/// The text of a decimal.
pub open spec fn dec_text(a: Dec) -> Seq<char> {
    decimal_display(a.mantissa, a.scale)
}

/// The text of a decimal rounded to four places.
pub open spec fn rounded_text(a: Dec) -> Seq<char> {
    let r = decimal_round_dp(a.mantissa, a.scale, 4);
    decimal_display(r.0, r.1)
}

/// The texts of decimals, separated by commas.
pub open spec fn joined_text(s: Seq<Dec>) -> Seq<char>
    decreases s.len(),
{
    if s.len() == 0 {
        Seq::empty()
    } else if s.len() == 1 {
        dec_text(s[0])
    } else {
        joined_text(s.drop_last()) + ","@ + dec_text(s.last())
    }
}

/// The text of a list of operands: `0` for none, else the prefix and the operands in brackets.
pub open spec fn values_text(s: Seq<Dec>, prefix: Seq<char>) -> Seq<char> {
    if s.len() == 0 {
        "0"@
    } else {
        prefix + "("@ + joined_text(s) + ")"@
    }
}

/// The text of an operation.
pub open spec fn operation_text(o: Operation) -> Seq<char> {
    match o {
        Operation::Sum(v) => values_text(v@, "sum"@),
        Operation::Avg(v) => values_text(v@, "avg"@),
        Operation::Subtract(a, b) => rounded_text(a) + " - "@ + rounded_text(b),
        Operation::Multiply(a, b) => rounded_text(a) + " * "@ + rounded_text(b),
        Operation::Divide(a, b) => rounded_text(a) + " / "@ + rounded_text(b),
        Operation::SetValue(a) => "set "@ + dec_text(a),
    }
}

/// The text of a log entry.
pub open spec fn entry_text(e: LogEntry) -> Seq<char> {
    match e {
        LogEntry::ExecuteOperation { reason, operation, result } => "ExecuteOperation: reason="@ + reason@ + ", operation="@
            + operation_text(operation) + ", result="@ + dec_text(result),
        LogEntry::RewardsForNodeProvider(p) => "RewardsForNodeProvider: principal="@ + p@,
        LogEntry::ComputeRewardMultiplierForNode(p) => "RewardsMultiplier: principal="@ + p@,
        LogEntry::RewardsXDRTotal(t) => "Total rewards XDR permyriad: "@ + dec_text(t),
        LogEntry::RateNotFoundInRewardTable { node_type, region } => "RateNotFoundInRewardTable: node_type="@ + node_type@
            + ", region="@ + region@,
        LogEntry::RewardTableEntry { node_type, region, coeff, base_rewards } => "RewardTableEntry: node_type="@ + node_type@
            + ", region="@ + region@ + ", coeff="@ + dec_text(coeff) + ", base_rewards="@ + dec_text(base_rewards),
        LogEntry::AvgType3Rewards(region, avg) => "Avg. rewards for nodes with type: type3* in region: "@ + region@ + " is "@
            + dec_text(avg),
    }
}

/// The text of a whole log: `Entry <index>: <entry> ` for each entry, one per line.
pub open spec fn log_text(entries: Seq<LogEntry>) -> Seq<char>
    decreases entries.len(),
{
    if entries.len() == 0 {
        Seq::empty()
    } else {
        let line = "Entry "@ + dec((entries.len() - 1) as nat) + ": "@ + entry_text(entries.last()) + " "@;
        if entries.len() == 1 {
            line
        } else {
            log_text(entries.drop_last()) + "\n"@ + line
        }
    }
}

/// The valid decimals of a log entry.
pub open spec fn entry_wf(e: LogEntry) -> bool {
    match e {
        LogEntry::ExecuteOperation { operation, result, .. } => operation.wf() && result.wf(),
        LogEntry::RewardsXDRTotal(t) => t.wf(),
        LogEntry::RewardTableEntry { coeff, base_rewards, .. } => coeff.wf() && base_rewards.wf(),
        LogEntry::AvgType3Rewards(_, avg) => avg.wf(),
        _ => true,
    }
}

fn push_values(s: &mut String, v: &Vec<Dec>, prefix: &str)
    requires
        all_wf(v@),
    ensures
        final(s)@ == old(s)@ + values_text(v@, prefix@),
{
    if v.len() == 0 {
        push_str(s, "0");
        proof {
            reveal_strlit("0");
        }
        return;
    }
    push_str(s, prefix);
    push_str(s, "(");
    let ghost base = s@;
    let mut i: usize = 0;
    while i < v.len()
        invariant
            i <= v@.len(),
            v@.len() > 0,
            all_wf(v@),
            s@ == base + joined_text(v@.take(i as int)),
        decreases v.len() - i,
    {
        let ghost t = v@.take(i as int + 1);
        assert(t.drop_last() =~= v@.take(i as int));
        assert(t.last() == v@[i as int]);
        if i > 0 {
            push_str(s, ",");
        }
        let x = to_text(v[i]);
        push_str(s, x.as_str());
        proof {
            reveal_strlit(",");
            if i == 0 {
                assert(v@.take(0) =~= Seq::<Dec>::empty());
                assert(s@ =~= base + joined_text(t));
            } else {
                assert(s@ =~= base + joined_text(t));
            }
        }
        i = i + 1;
    }
    push_str(s, ")");
    proof {
        reveal_strlit("(");
        reveal_strlit(")");
        assert(v@.take(v@.len() as int) =~= v@);
        assert(s@ =~= old(s)@ + values_text(v@, prefix@));
    }
}

fn push_binary(s: &mut String, a: Dec, symbol: &str, b: Dec)
    requires
        a.wf(),
        b.wf(),
    ensures
        final(s)@ == old(s)@ + rounded_text(a) + symbol@ + rounded_text(b),
{
    let x = to_text(round_dp(a, 4));
    let y = to_text(round_dp(b, 4));
    push_str(s, x.as_str());
    push_str(s, symbol);
    push_str(s, y.as_str());
    assert(final(s)@ =~= old(s)@ + rounded_text(a) + symbol@ + rounded_text(b));
}

impl Operation {
    /// The text of the operation (see [`operation_text`]).
    pub fn text(&self) -> (r: String)
        requires
            self.wf(),
        ensures
            r@ == operation_text(*self),
    {
        let mut s = String::new();
        match self {
            Operation::Sum(v) => {
                push_values(&mut s, v, "sum");
                proof {
                    reveal_strlit("sum");
                }
            },
            Operation::Avg(v) => {
                push_values(&mut s, v, "avg");
                proof {
                    reveal_strlit("avg");
                }
            },
            Operation::Subtract(a, b) => {
                push_binary(&mut s, *a, " - ", *b);
                proof {
                    reveal_strlit(" - ");
                }
            },
            Operation::Multiply(a, b) => {
                push_binary(&mut s, *a, " * ", *b);
                proof {
                    reveal_strlit(" * ");
                }
            },
            Operation::Divide(a, b) => {
                push_binary(&mut s, *a, " / ", *b);
                proof {
                    reveal_strlit(" / ");
                }
            },
            Operation::SetValue(a) => {
                push_str(&mut s, "set ");
                let x = to_text(*a);
                push_str(&mut s, x.as_str());
                proof {
                    reveal_strlit("set ");
                }
            },
        }
        assert(s@ =~= operation_text(*self));
        s
    }
}

impl LogEntry {
    /// The text of the entry (see [`entry_text`]).
    pub fn text(&self) -> (r: String)
        requires
            entry_wf(*self),
        ensures
            r@ == entry_text(*self),
    {
        let mut s = String::new();
        match self {
            LogEntry::ExecuteOperation { reason, operation, result } => {
                push_str(&mut s, "ExecuteOperation: reason=");
                push_str(&mut s, reason.as_str());
                push_str(&mut s, ", operation=");
                let o = operation.text();
                push_str(&mut s, o.as_str());
                push_str(&mut s, ", result=");
                let x = to_text(*result);
                push_str(&mut s, x.as_str());
                proof {
                    reveal_strlit("ExecuteOperation: reason=");
                    reveal_strlit(", operation=");
                    reveal_strlit(", result=");
                }
            },
            LogEntry::RewardsForNodeProvider(p) => {
                push_str(&mut s, "RewardsForNodeProvider: principal=");
                push_str(&mut s, p.as_str());
                proof {
                    reveal_strlit("RewardsForNodeProvider: principal=");
                }
            },
            LogEntry::ComputeRewardMultiplierForNode(p) => {
                push_str(&mut s, "RewardsMultiplier: principal=");
                push_str(&mut s, p.as_str());
                proof {
                    reveal_strlit("RewardsMultiplier: principal=");
                }
            },
            LogEntry::RewardsXDRTotal(t) => {
                push_str(&mut s, "Total rewards XDR permyriad: ");
                let x = to_text(*t);
                push_str(&mut s, x.as_str());
                proof {
                    reveal_strlit("Total rewards XDR permyriad: ");
                }
            },
            LogEntry::RateNotFoundInRewardTable { node_type, region } => {
                push_str(&mut s, "RateNotFoundInRewardTable: node_type=");
                push_str(&mut s, node_type.as_str());
                push_str(&mut s, ", region=");
                push_str(&mut s, region.as_str());
                proof {
                    reveal_strlit("RateNotFoundInRewardTable: node_type=");
                    reveal_strlit(", region=");
                }
            },
            LogEntry::RewardTableEntry { node_type, region, coeff, base_rewards } => {
                push_str(&mut s, "RewardTableEntry: node_type=");
                push_str(&mut s, node_type.as_str());
                push_str(&mut s, ", region=");
                push_str(&mut s, region.as_str());
                push_str(&mut s, ", coeff=");
                let x = to_text(*coeff);
                push_str(&mut s, x.as_str());
                push_str(&mut s, ", base_rewards=");
                let y = to_text(*base_rewards);
                push_str(&mut s, y.as_str());
                proof {
                    reveal_strlit("RewardTableEntry: node_type=");
                    reveal_strlit(", region=");
                    reveal_strlit(", coeff=");
                    reveal_strlit(", base_rewards=");
                }
            },
            LogEntry::AvgType3Rewards(region, avg) => {
                push_str(&mut s, "Avg. rewards for nodes with type: type3* in region: ");
                push_str(&mut s, region.as_str());
                push_str(&mut s, " is ");
                let x = to_text(*avg);
                push_str(&mut s, x.as_str());
                proof {
                    reveal_strlit("Avg. rewards for nodes with type: type3* in region: ");
                    reveal_strlit(" is ");
                }
            },
        }
        assert(s@ =~= entry_text(*self));
        s
    }
}

impl RewardsPerNodeProviderLog {
    /// The text of the log (see [`log_text`]).
    pub fn get_log(&self) -> (r: String)
        requires
            self.wf(),
        ensures
            r@ == log_text(self.entries@),
    {
        let mut s = String::new();
        let mut i: usize = 0;
        assert(s@ =~= log_text(self.entries@.take(0)));
        while i < self.entries.len()
            invariant
                i <= self.entries@.len(),
                forall|j: int| 0 <= j < self.entries@.len() ==> entry_wf(#[trigger] self.entries@[j]),
                s@ == log_text(self.entries@.take(i as int)),
            decreases self.entries.len() - i,
        {
            let ghost t = self.entries@.take(i as int + 1);
            assert(t.drop_last() =~= self.entries@.take(i as int));
            assert(t.last() == self.entries@[i as int]);
            if i > 0 {
                push_str(&mut s, "\n");
            }
            push_str(&mut s, "Entry ");
            push_decimal(&mut s, i);
            push_str(&mut s, ": ");
            let e = self.entries[i].text();
            push_str(&mut s, e.as_str());
            push_str(&mut s, " ");
            proof {
                reveal_strlit("\n");
                reveal_strlit("Entry ");
                reveal_strlit(": ");
                reveal_strlit(" ");
                assert(s@ =~= log_text(t));
            }
            i = i + 1;
        }
        assert(self.entries@.take(self.entries@.len() as int) =~= self.entries@);
        s
    }
}

} // verus!
