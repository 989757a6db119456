//! Per-prompt outcomes of a run and the totals over them.
use vstd::prelude::*;
use vstd::arithmetic::div_mod::{lemma_add_mod_noop, lemma_small_mod};
use vstd::multiset::Multiset;

verus! {

/// The integer outcome of one prompt: token counts of the baseline and the
/// cable answer, whether the cable answer kept its signal, and the think
/// estimates.
pub struct PromptOutcome {
    pub index: usize,
    pub category: String,
    pub node: String,
    pub baseline_tokens: u64,
    pub cable_tokens: u64,
    pub signal: bool,
    pub est_think_baseline: Option<u64>,
    pub est_think_cable: Option<u64>,
}

/// Totals over a run.
pub struct RunTotals {
    pub baseline_tokens: u64,
    pub cable_tokens: u64,
    pub signal_preserved: usize,
    pub prompts_run: usize,
}

/// Number of values a `u64` holds.
pub open spec fn u64_modulus() -> int {
    0x1_0000_0000_0000_0000
}

/// `n` reduced to a `u64` the way wrapping addition does (as the release
/// build's `Iterator::sum` does).
pub open spec fn wrap_u64(n: int) -> int {
    n % u64_modulus()
}

/// The outcomes are in increasing order of prompt index.
pub open spec fn sorted_by_index(s: Seq<PromptOutcome>) -> bool {
    forall|i: int, j: int| 0 <= i < j < s.len() ==> s[i].index <= s[j].index
}

/// Sum of the baseline token counts.
pub open spec fn sum_baseline(s: Seq<PromptOutcome>) -> int
    decreases s.len(),
{
    if s.len() == 0 {
        0
    } else {
        sum_baseline(s.drop_last()) + s.last().baseline_tokens
    }
}

/// Sum of the cable token counts.
pub open spec fn sum_cable(s: Seq<PromptOutcome>) -> int
    decreases s.len(),
{
    if s.len() == 0 {
        0
    } else {
        sum_cable(s.drop_last()) + s.last().cable_tokens
    }
}

/// Number of outcomes whose signal was preserved.
pub open spec fn count_signal(s: Seq<PromptOutcome>) -> int
    decreases s.len(),
{
    if s.len() == 0 {
        0
    } else {
        count_signal(s.drop_last()) + (if s.last().signal {
            1int
        } else {
            0int
        })
    }
}

/// Sum of the baseline think estimates that are present.
pub open spec fn sum_think_baseline(s: Seq<PromptOutcome>) -> int
    decreases s.len(),
{
    if s.len() == 0 {
        0
    } else {
        sum_think_baseline(s.drop_last()) + match s.last().est_think_baseline {
            Some(t) => t as int,
            None => 0,
        }
    }
}

/// Sum of the cable think estimates that are present.
pub open spec fn sum_think_cable(s: Seq<PromptOutcome>) -> int
    decreases s.len(),
{
    if s.len() == 0 {
        0
    } else {
        sum_think_cable(s.drop_last()) + match s.last().est_think_cable {
            Some(t) => t as int,
            None => 0,
        }
    }
}

proof fn lemma_wrapping_step(s: int, x: u64)
    requires
        s >= 0,
    ensures
        (wrap_u64(s) as u64).wrapping_add(x) == wrap_u64(s + x),
{
    let m = u64_modulus();
    let a = s % m;
    assert(0 <= a < m);
    lemma_small_mod(x as nat, m as nat);
    lemma_add_mod_noop(s, x as int, m);
    assert((a + x) % m == (s + x) % m);
    if a + x >= m {
        assert((a + x) % m == a + x - m) by (nonlinear_arith)
            requires
                m <= a + x < 2 * m,
                m == 0x1_0000_0000_0000_0000,
        ;
    } else {
        lemma_small_mod((a + x) as nat, m as nat);
    }
}

proof fn lemma_count_signal_bound(s: Seq<PromptOutcome>)
    ensures
        0 <= count_signal(s) <= s.len(),
    decreases s.len(),
{
    if s.len() > 0 {
        lemma_count_signal_bound(s.drop_last());
    }
}

proof fn lemma_sums_nonneg(s: Seq<PromptOutcome>)
    ensures
        sum_baseline(s) >= 0,
        sum_cable(s) >= 0,
        sum_think_baseline(s) >= 0,
        sum_think_cable(s) >= 0,
    decreases s.len(),
{
    if s.len() > 0 {
        lemma_sums_nonneg(s.drop_last());
    }
}

/// Totals of a run: token sums (wrapping at `u64::MAX`), the number of
/// outcomes that preserved their signal, and the number of outcomes.
pub fn run_totals(results: &Vec<PromptOutcome>) -> (t: RunTotals)
    ensures
        t.baseline_tokens == wrap_u64(sum_baseline(results@)),
        t.cable_tokens == wrap_u64(sum_cable(results@)),
        t.signal_preserved == count_signal(results@),
        t.prompts_run == results@.len(),
{
    let ghost s = results@;
    let mut baseline: u64 = 0;
    let mut cable: u64 = 0;
    let mut signal: usize = 0;
    let mut i: usize = 0;
    while i < results.len()
        invariant
            s == results@,
            i <= results.len(),
            baseline == wrap_u64(sum_baseline(s.take(i as int))),
            cable == wrap_u64(sum_cable(s.take(i as int))),
            signal == count_signal(s.take(i as int)),
        decreases results.len() - i,
    {
        let r = &results[i];
        proof {
            let t = s.take(i + 1);
            assert(t.drop_last() =~= s.take(i as int));
            assert(t.last() == *r);
            lemma_sums_nonneg(s.take(i as int));
            lemma_wrapping_step(sum_baseline(s.take(i as int)), r.baseline_tokens);
            lemma_wrapping_step(sum_cable(s.take(i as int)), r.cable_tokens);
            lemma_count_signal_bound(s.take(i as int));
        }
        baseline = baseline.wrapping_add(r.baseline_tokens);
        cable = cable.wrapping_add(r.cable_tokens);
        if r.signal {
            signal = signal + 1;
        }
        i = i + 1;
    }
    assert(s.take(i as int) =~= s);
    RunTotals { baseline_tokens: baseline, cable_tokens: cable, signal_preserved: signal, prompts_run: results.len() }
}

/// Sums of the think estimates present in a run, baseline then cable
/// (wrapping at `u64::MAX`).
pub fn think_totals(results: &Vec<PromptOutcome>) -> (t: (u64, u64))
    ensures
        t.0 == wrap_u64(sum_think_baseline(results@)),
        t.1 == wrap_u64(sum_think_cable(results@)),
{
    let ghost s = results@;
    let mut baseline: u64 = 0;
    let mut cable: u64 = 0;
    let mut i: usize = 0;
    while i < results.len()
        invariant
            s == results@,
            i <= results.len(),
            baseline == wrap_u64(sum_think_baseline(s.take(i as int))),
            cable == wrap_u64(sum_think_cable(s.take(i as int))),
        decreases results.len() - i,
    {
        let r = &results[i];
        let b: u64 = match r.est_think_baseline {
            Some(v) => v,
            None => 0,
        };
        let c: u64 = match r.est_think_cable {
            Some(v) => v,
            None => 0,
        };
        proof {
            let t = s.take(i + 1);
            assert(t.drop_last() =~= s.take(i as int));
            assert(t.last() == *r);
            lemma_sums_nonneg(s.take(i as int));
            lemma_wrapping_step(sum_think_baseline(s.take(i as int)), b);
            lemma_wrapping_step(sum_think_cable(s.take(i as int)), c);
        }
        baseline = baseline.wrapping_add(b);
        cable = cable.wrapping_add(c);
        i = i + 1;
    }
    assert(s.take(i as int) =~= s);
    (baseline, cable)
}

/// The outcomes of `s` with prompt index `x`, in their order in `s`.
pub open spec fn with_index(s: Seq<PromptOutcome>, x: usize) -> Seq<PromptOutcome>
    decreases s.len(),
{
    if s.len() == 0 {
        seq![]
    } else {
        with_index(s.drop_last(), x) + (if s.last().index == x {
            seq![s.last()]
        } else {
            Seq::<PromptOutcome>::empty()
        })
    }
}

proof fn lemma_with_index_add(a: Seq<PromptOutcome>, b: Seq<PromptOutcome>, x: usize)
    ensures
        with_index(a + b, x) == with_index(a, x) + with_index(b, x),
    decreases b.len(),
{
    if b.len() == 0 {
        assert(a + b =~= a);
        assert(with_index(a, x) + with_index(b, x) =~= with_index(a, x));
    } else {
        lemma_with_index_add(a, b.drop_last(), x);
        assert((a + b).drop_last() =~= a + b.drop_last());
        assert((a + b).last() == b.last());
        assert(with_index(a + b, x) =~= with_index(a, x) + with_index(b, x));
    }
}

proof fn lemma_with_index_none(s: Seq<PromptOutcome>, x: usize)
    requires
        forall|i: int| 0 <= i < s.len() ==> #[trigger] s[i].index != x,
    ensures
        with_index(s, x) == Seq::<PromptOutcome>::empty(),
    decreases s.len(),
{
    if s.len() > 0 {
        assert forall|i: int| 0 <= i < s.drop_last().len() implies #[trigger] s.drop_last()[i].index != x by {
            assert(s.drop_last()[i] == s[i]);
        }
        lemma_with_index_none(s.drop_last(), x);
        assert(s.last() == s[s.len() - 1]);
        assert(with_index(s, x) =~= Seq::<PromptOutcome>::empty());
    }
}

proof fn lemma_with_index_single(e: PromptOutcome, x: usize)
    ensures
        with_index(seq![e], x) == (if e.index == x {
            seq![e]
        } else {
            Seq::<PromptOutcome>::empty()
        }),
{
    assert(seq![e].drop_last() =~= Seq::<PromptOutcome>::empty());
    assert(seq![e].last() == e);
    assert(with_index(Seq::<PromptOutcome>::empty(), x) =~= Seq::<PromptOutcome>::empty());
    assert(with_index(seq![e], x) =~= (if e.index == x {
        seq![e]
    } else {
        Seq::<PromptOutcome>::empty()
    }));
}

/// Inserting `e` after every outcome whose index is at most `e.index` adds
/// it at the end of the outcomes with its index, and changes no other.
proof fn lemma_insert_keeps_order(out: Seq<PromptOutcome>, j: int, e: PromptOutcome, x: usize)
    requires
        sorted_by_index(out),
        0 <= j <= out.len(),
        j < out.len() ==> out[j].index > e.index,
    ensures
        with_index(out.insert(j, e), x) == with_index(out, x) + with_index(seq![e], x),
{
    let pre = out.take(j);
    let post = out.skip(j);
    assert(out =~= pre + post);
    assert(out.insert(j, e) =~= pre + seq![e] + post);
    lemma_with_index_add(pre, post, x);
    lemma_with_index_add(pre + seq![e], post, x);
    lemma_with_index_add(pre, seq![e], x);
    lemma_with_index_single(e, x);
    if e.index == x {
        assert forall|i: int| 0 <= i < post.len() implies #[trigger] post[i].index != x by {
            assert(post[i] == out[j + i]);
            assert(out[j].index <= out[j + i].index);
        }
        lemma_with_index_none(post, x);
        assert(with_index(out.insert(j, e), x) =~= with_index(out, x) + seq![e]);
    } else {
        assert(with_index(out.insert(j, e), x) =~= with_index(out, x));
        assert(with_index(out, x) + with_index(seq![e], x) =~= with_index(out, x));
    }
}

/// Puts the outcomes in increasing order of prompt index, keeping every
/// outcome; outcomes with the same index keep their relative order.
pub fn sort_by_index(results: Vec<PromptOutcome>) -> (r: Vec<PromptOutcome>)
    ensures
        sorted_by_index(r@),
        r@.to_multiset() == results@.to_multiset(),
        forall|x: usize| #[trigger] with_index(r@, x) == with_index(results@, x),
{
    broadcast use vstd::seq_lib::to_multiset_remove, vstd::seq_lib::to_multiset_insert;

    let ghost all = results@;
    let mut rest = results;
    let mut out: Vec<PromptOutcome> = Vec::new();
    assert(all.skip(0) =~= all);
    assert forall|x: usize| #[trigger] with_index(all, x) == with_index(out@, x) + with_index(rest@, x) by {
        assert(with_index(out@, x) + with_index(rest@, x) =~= with_index(rest@, x));
    }
    assert(out@.to_multiset() =~= Multiset::empty()) by {
        broadcast use vstd::seq_lib::to_multiset_len;
        assert(out@.to_multiset().len() == 0);
    }
    while rest.len() > 0
        invariant
            sorted_by_index(out@),
            out@.to_multiset().add(rest@.to_multiset()) == all.to_multiset(),
            forall|x: usize| #[trigger] with_index(all, x) == with_index(out@, x) + with_index(rest@, x),
        decreases rest.len(),
    {
        let ghost rest_before = rest@;
        let x = rest.remove(0);
        proof {
            vstd::seq_lib::to_multiset_remove(rest_before, 0);
            vstd::seq_lib::to_multiset_contains(rest_before, x);
            assert(rest_before[0] == x);
            assert(rest_before.contains(x));
        }
        let mut j: usize = 0;
        while j < out.len() && out[j].index <= x.index
            invariant
                j <= out.len(),
                forall|m: int| 0 <= m < j ==> out@[m].index <= x.index,
            decreases out.len() - j,
        {
            j = j + 1;
        }
        let ghost before = out@;
        out.insert(j, x);
        proof {
            vstd::seq_lib::to_multiset_insert(before, j as int, x);
            assert(rest_before =~= seq![x] + rest@);
            assert forall|y: usize| #[trigger] with_index(all, y) == with_index(out@, y) + with_index(rest@, y) by {
                lemma_insert_keeps_order(before, j as int, x, y);
                lemma_with_index_add(seq![x], rest@, y);
                assert(with_index(out@, y) + with_index(rest@, y) =~= with_index(before, y) + with_index(rest_before, y));
            }
            assert(out@.to_multiset().add(rest@.to_multiset()) =~= all.to_multiset()) by {
                broadcast use vstd::multiset::group_multiset_axioms;
            }
            assert forall|a: int, b: int| 0 <= a < b < out@.len() implies out@[a].index
                <= out@[b].index by {
                if b < j {
                } else if b == j {
                } else if a < j {
                    assert(out@[b] == before[b - 1]);
                    if j < before.len() {
                        assert(before[j as int].index > x.index);
                        assert(before[j as int].index <= before[b - 1].index);
                    }
                } else if a == j {
                    assert(out@[b] == before[b - 1]);
                    assert(before[j as int].index > x.index);
                    if b - 1 > j {
                        assert(before[j as int].index <= before[b - 1].index);
                    }
                } else {
                    assert(out@[a] == before[a - 1]);
                    assert(out@[b] == before[b - 1]);
                }
            }
        }
    }
    assert(rest@ =~= Seq::<PromptOutcome>::empty());
    assert forall|x: usize| #[trigger] with_index(out@, x) == with_index(all, x) by {
        assert(with_index(out@, x) + with_index(rest@, x) =~= with_index(out@, x));
    }
    assert(rest@.to_multiset() =~= Multiset::empty()) by {
        broadcast use vstd::seq_lib::to_multiset_len;
        assert(rest@.to_multiset().len() == 0);
    }
    out
}

/// No more outcomes preserve their signal than there are outcomes.
pub proof fn lemma_signal_at_most_prompts(results: Seq<PromptOutcome>)
    ensures
        0 <= count_signal(results) <= results.len(),
{
    lemma_count_signal_bound(results);
}
/// Totals add up piecewise: the totals of two lists of outcomes side by
/// side are the sums of their totals, and a single outcome contributes its
/// own token counts and its own signal.
pub proof fn lemma_totals_additive(a: Seq<PromptOutcome>, b: Seq<PromptOutcome>)
    ensures
        sum_baseline(a + b) == sum_baseline(a) + sum_baseline(b),
        sum_cable(a + b) == sum_cable(a) + sum_cable(b),
        count_signal(a + b) == count_signal(a) + count_signal(b),
        sum_think_baseline(a + b) == sum_think_baseline(a) + sum_think_baseline(b),
        sum_think_cable(a + b) == sum_think_cable(a) + sum_think_cable(b),
    decreases b.len(),
{
    if b.len() == 0 {
        assert(a + b =~= a);
    } else {
        lemma_totals_additive(a, b.drop_last());
        assert((a + b).drop_last() =~= a + b.drop_last());
        assert((a + b).last() == b.last());
    }
}

/// What one outcome contributes to the totals.
pub proof fn lemma_totals_single(o: PromptOutcome)
    ensures
        sum_baseline(seq![o]) == o.baseline_tokens,
        sum_cable(seq![o]) == o.cable_tokens,
        count_signal(seq![o]) == (if o.signal {
            1int
        } else {
            0int
        }),
        sum_think_baseline(seq![o]) == (match o.est_think_baseline {
            Some(t) => t as int,
            None => 0,
        }),
        sum_think_cable(seq![o]) == (match o.est_think_cable {
            Some(t) => t as int,
            None => 0,
        }),
{
    let e = Seq::<PromptOutcome>::empty();
    assert(seq![o].drop_last() =~= e);
    assert(seq![o].last() == o);
    assert(sum_baseline(e) == 0 && sum_cable(e) == 0 && count_signal(e) == 0);
    assert(sum_think_baseline(e) == 0 && sum_think_cable(e) == 0);
}
} // verus!
