use vstd::prelude::*;
use crate::rational::Rational;
use crate::group::{Group, grouped_view};
use crate::order::groups_below;

verus! {

/// A sampling strategy applied to each group on its own. The guard of
/// `Distinct` reads a per-item value that `sample` takes beside the strategy.
#[derive(Clone, Copy, Debug)]
pub enum Strategy {
    /// The first `n` members of the group.
    Top(usize),
    /// `Distinct(Top(n), MinRatio(values, r))`: the first `n` members, then
    /// only those whose value is at least `r` times the largest value over
    /// the group's full member set (a relevance floor).
    Distinct(usize, Rational),
}

/// The first `n` members of `s`, or all of them when there are fewer.
pub open spec fn top_spec(s: Seq<usize>, n: nat) -> Seq<usize> {
    if n < s.len() {
        s.take(n as int)
    } else {
        s
    }
}

/// The largest of `values[x]` over the items `x` of `s`; 0 when `s` is empty.
pub open spec fn max_value(s: Seq<usize>, values: Seq<u64>) -> u64
    decreases s.len(),
{
    if s.len() == 0 {
        0
    } else {
        let m = max_value(s.drop_last(), values);
        let v = values[s.last() as int];
        if v > m {
            v
        } else {
            m
        }
    }
}

/// `v >= r * m`, exactly.
pub open spec fn above_floor(v: u64, m: u64, r: Rational) -> bool {
    v * r.den >= r.num * m
}

/// The items of `s` whose value is above the floor `r * m`, in order.
pub open spec fn keep_above(s: Seq<usize>, values: Seq<u64>, m: u64, r: Rational) -> Seq<usize>
    decreases s.len(),
{
    if s.len() == 0 {
        Seq::empty()
    } else {
        let p = keep_above(s.drop_last(), values, m, r);
        if above_floor(values[s.last() as int], m, r) {
            p.push(s.last())
        } else {
            p
        }
    }
}

/// What a strategy selects from one group's members.
pub open spec fn select_spec(strategy: Strategy, values: Seq<u64>, s: Seq<usize>) -> Seq<usize> {
    match strategy {
        Strategy::Top(n) => top_spec(s, n as nat),
        Strategy::Distinct(n, r) => keep_above(top_spec(s, n as nat), values, max_value(s, values), r),
    }
}

/// The strategy can be evaluated on every group of `gs`.
pub open spec fn strategy_fits(strategy: Strategy, values: Seq<u64>, gs: Seq<(u64, Seq<usize>)>) -> bool {
    match strategy {
        Strategy::Top(_) => true,
        Strategy::Distinct(_, r) => r.wf() && groups_below(gs, values.len()),
    }
}

/// Each group reduced by the strategy; group order and keys unchanged.
pub open spec fn sample_groups(strategy: Strategy, values: Seq<u64>, gs: Seq<(u64, Seq<usize>)>) -> Seq<(u64, Seq<usize>)> {
    gs.map_values(|g: (u64, Seq<usize>)| (g.0, select_spec(strategy, values, g.1)))
}

fn top(items: &Vec<usize>, n: usize) -> (r: Vec<usize>)
    ensures
        r@ == top_spec(items@, n as nat),
{
    let mut out: Vec<usize> = Vec::new();
    let mut i: usize = 0;
    while i < items.len() && i < n
        invariant
            i <= items.len(),
            i <= n,
            out@ == items@.take(i as int),
        decreases items.len() - i,
    {
        assert(items@.take(i + 1) =~= items@.take(i as int).push(items@[i as int]));
        out.push(items[i]);
        i = i + 1;
    }
    assert(items@.take(items.len() as int) =~= items@);
    out
}

fn max_of(items: &Vec<usize>, values: &Vec<u64>) -> (r: u64)
    requires
        forall|i: int| 0 <= i < items.len() ==> (#[trigger] items@[i]) < values@.len(),
    ensures
        r == max_value(items@, values@),
{
    let mut m: u64 = 0;
    let mut i: usize = 0;
    while i < items.len()
        invariant
            i <= items.len(),
            forall|j: int| 0 <= j < items.len() ==> (#[trigger] items@[j]) < values@.len(),
            m == max_value(items@.take(i as int), values@),
        decreases items.len() - i,
    {
        assert(items@.take(i + 1).drop_last() =~= items@.take(i as int));
        let v = values[items[i]];
        if v > m {
            m = v;
        }
        i = i + 1;
    }
    assert(items@.take(items.len() as int) =~= items@);
    m
}

/// Exact test of `v >= r * m` without forming `r.num * m`.
fn is_above_floor(v: u64, m: u64, r: &Rational) -> (b: bool)
    requires
        r.wf(),
    ensures
        b == above_floor(v, m, *r),
{
    if m == 0 {
        assert(r.num * m == 0);
        assert(v * r.den >= 0) by (nonlinear_arith);
        true
    } else {
        let share = Rational::new(v as u128, m);
        share.at_least(r)
    }
}

fn keep_floor(items: &Vec<usize>, values: &Vec<u64>, m: u64, r: &Rational) -> (out: Vec<usize>)
    requires
        r.wf(),
        forall|i: int| 0 <= i < items.len() ==> (#[trigger] items@[i]) < values@.len(),
    ensures
        out@ == keep_above(items@, values@, m, *r),
{
    let mut out: Vec<usize> = Vec::new();
    let mut i: usize = 0;
    while i < items.len()
        invariant
            i <= items.len(),
            r.wf(),
            forall|j: int| 0 <= j < items.len() ==> (#[trigger] items@[j]) < values@.len(),
            out@ == keep_above(items@.take(i as int), values@, m, *r),
        decreases items.len() - i,
    {
        assert(items@.take(i + 1).drop_last() =~= items@.take(i as int));
        let x = items[i];
        if is_above_floor(values[x], m, r) {
            out.push(x);
        }
        i = i + 1;
    }
    assert(items@.take(items.len() as int) =~= items@);
    out
}

/// Applies `strategy` to the members of one group.
pub fn select(strategy: Strategy, values: &Vec<u64>, items: &Vec<usize>) -> (r: Vec<usize>)
    requires
        strategy_fits(strategy, values@, seq![(0u64, items@)]),
    ensures
        r@ == select_spec(strategy, values@, items@),
{
    match strategy {
        Strategy::Top(n) => top(items, n),
        Strategy::Distinct(n, ratio) => {
            assert forall|i: int| 0 <= i < items.len() implies (#[trigger] items@[i])
                < values@.len() by {
                assert(seq![(0u64, items@)][0].1[i] == items@[i]);
            }
            let m = max_of(items, values);
            let first = top(items, n);
            keep_floor(&first, values, m, &ratio)
        },
    }
}

/// Reduces every group to the members that `strategy` selects, keeping
/// group order and the order within each group.
pub fn sample(groups: &Vec<Group>, strategy: Strategy, values: &Vec<u64>) -> (r: Vec<Group>)
    requires
        strategy_fits(strategy, values@, grouped_view(groups@)),
    ensures
        grouped_view(r@) == sample_groups(strategy, values@, grouped_view(groups@)),
{
    let mut out: Vec<Group> = Vec::new();
    let mut g: usize = 0;
    while g < groups.len()
        invariant
            g <= groups.len(),
            strategy_fits(strategy, values@, grouped_view(groups@)),
            out.len() == g,
            forall|j: int|
                0 <= j < g ==> (#[trigger] out@[j]).key == groups@[j].key && out@[j].members@
                    == select_spec(strategy, values@, groups@[j].members@),
        decreases groups.len() - g,
    {
        proof {
            let one = seq![(0u64, groups@[g as int].members@)];
            if let Strategy::Distinct(_, _) = strategy {
                assert forall|a: int, i: int| 0 <= a < one.len() && 0 <= i < one[a].1.len() implies (
                #[trigger] one[a].1[i]) < values@.len() by {
                    assert(grouped_view(groups@)[g as int].1[i] == one[a].1[i]);
                }
            }
        }
        let members = select(strategy, values, &groups[g].members);
        out.push(Group { key: groups[g].key, members });
        g = g + 1;
    }
    assert(grouped_view(out@) =~= sample_groups(strategy, values@, grouped_view(groups@)));
    out
}

/// `Top(n)` keeps at most `n` members of a group, and they are the first
/// ones in the group's current order.
pub proof fn lemma_top_is_prefix(s: Seq<usize>, n: nat)
    ensures
        top_spec(s, n).len() <= n,
        top_spec(s, n).len() <= s.len(),
        forall|i: int| 0 <= i < top_spec(s, n).len() ==> #[trigger] top_spec(s, n)[i] == s[i],
{
}

/// The items kept above a floor are items of the input, and each of them is
/// above the floor.
pub proof fn lemma_keep_above_sound(s: Seq<usize>, values: Seq<u64>, m: u64, r: Rational)
    ensures
        keep_above(s, values, m, r).len() <= s.len(),
        forall|i: int|
            0 <= i < keep_above(s, values, m, r).len() ==> s.contains(
                #[trigger] keep_above(s, values, m, r)[i],
            ) && above_floor(values[keep_above(s, values, m, r)[i] as int], m, r),
    decreases s.len(),
{
    if s.len() > 0 {
        let d = s.drop_last();
        lemma_keep_above_sound(d, values, m, r);
        let p = keep_above(d, values, m, r);
        assert forall|i: int| 0 <= i < p.len() implies s.contains(#[trigger] p[i]) by {
            let j = choose|j: int| 0 <= j < d.len() && d[j] == p[i];
            assert(s[j] == p[i]);
        }
        assert(s[s.len() - 1] == s.last());
    }
}

/// `Distinct(Top(n), MinRatio(values, r))` returns a subset of what `Top(n)`
/// returns, at most `n` items, and every returned item `x` satisfies
/// `values[x] >= r * max(values over the whole group)`.
pub proof fn lemma_distinct_within_top(s: Seq<usize>, n: usize, r: Rational, values: Seq<u64>)
    ensures
        select_spec(Strategy::Distinct(n, r), values, s).len() <= n,
        forall|i: int|
            0 <= i < select_spec(Strategy::Distinct(n, r), values, s).len() ==> {
                let x = #[trigger] select_spec(Strategy::Distinct(n, r), values, s)[i];
                &&& select_spec(Strategy::Top(n), values, s).contains(x)
                &&& above_floor(values[x as int], max_value(s, values), r)
            },
{
    let t = top_spec(s, n as nat);
    lemma_top_is_prefix(s, n as nat);
    lemma_keep_above_sound(t, values, max_value(s, values), r);
}

} // verus!
