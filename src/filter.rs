use vstd::prelude::*;
use crate::rational::Rational;
use crate::group::{Group, grouped_view};
use crate::order::{keys_wf, groups_below};

verus! {

/// `AtLeast(value, t)` holds of every member of the group.
pub open spec fn group_passes(members: Seq<usize>, values: Seq<Rational>, t: Rational) -> bool {
    forall|i: int| 0 <= i < members.len() ==> (#[trigger] values[members[i] as int]).ge_spec(t)
}

/// The groups that pass, whole and in their order.
pub open spec fn filter_groups(gs: Seq<(u64, Seq<usize>)>, values: Seq<Rational>, t: Rational) -> Seq<(u64, Seq<usize>)>
    decreases gs.len(),
{
    if gs.len() == 0 {
        Seq::empty()
    } else {
        let p = filter_groups(gs.drop_last(), values, t);
        if group_passes(gs.last().1, values, t) {
            p.push(gs.last())
        } else {
            p
        }
    }
}

fn passes(members: &Vec<usize>, values: &Vec<Rational>, t: &Rational) -> (r: bool)
    requires
        keys_wf(values@),
        t.wf(),
        forall|i: int| 0 <= i < members.len() ==> (#[trigger] members@[i]) < values@.len(),
    ensures
        r == group_passes(members@, values@, *t),
{
    let mut i: usize = 0;
    while i < members.len()
        invariant
            i <= members.len(),
            keys_wf(values@),
            t.wf(),
            forall|j: int| 0 <= j < members.len() ==> (#[trigger] members@[j]) < values@.len(),
            forall|j: int| 0 <= j < i ==> (#[trigger] values@[members@[j] as int]).ge_spec(*t),
        decreases members.len() - i,
    {
        if !values[members[i]].at_least(t) {
            return false;
        }
        i = i + 1;
    }
    true
}

/// Keeps the groups all of whose members have `values[member] >= threshold`;
/// every other group is removed in full. Kept groups are not changed.
pub fn filter_by(groups: &Vec<Group>, values: &Vec<Rational>, threshold: &Rational) -> (r: Vec<Group>)
    requires
        keys_wf(values@),
        threshold.wf(),
        groups_below(grouped_view(groups@), values@.len()),
    ensures
        grouped_view(r@) == filter_groups(grouped_view(groups@), values@, *threshold),
{
    let mut out: Vec<Group> = Vec::new();
    let mut g: usize = 0;
    while g < groups.len()
        invariant
            g <= groups.len(),
            keys_wf(values@),
            threshold.wf(),
            groups_below(grouped_view(groups@), values@.len()),
            grouped_view(out@) == filter_groups(grouped_view(groups@.take(g as int)), values@, *threshold),
        decreases groups.len() - g,
    {
        assert(grouped_view(groups@.take(g + 1)).drop_last() =~= grouped_view(groups@.take(g as int)));
        assert(grouped_view(groups@.take(g + 1)).last() == grouped_view(groups@)[g as int]);
        assert forall|i: int| 0 <= i < groups@[g as int].members.len() implies (
        #[trigger] groups@[g as int].members@[i]) < values@.len() by {
            assert(grouped_view(groups@)[g as int].1[i] == groups@[g as int].members@[i]);
        }
        if passes(&groups[g].members, values, threshold) {
            let kept = Group { key: groups[g].key, members: groups[g].members.clone() };
            out.push(kept);
            assert(grouped_view(out@) =~= grouped_view(out@.drop_last()).push(grouped_view(out@).last()));
        }
        g = g + 1;
    }
    assert(groups@.take(groups.len() as int) =~= groups@);
    out
}

/// Filtering removes or keeps whole groups: every group that comes out is
/// one of the input groups, unchanged, and it passes the predicate; every
/// input group that passes comes out.
pub proof fn lemma_filter_whole_groups(gs: Seq<(u64, Seq<usize>)>, values: Seq<Rational>, t: Rational)
    ensures
        forall|i: int|
            0 <= i < filter_groups(gs, values, t).len() ==> gs.contains(
                #[trigger] filter_groups(gs, values, t)[i],
            ) && group_passes(filter_groups(gs, values, t)[i].1, values, t),
        forall|j: int|
            0 <= j < gs.len() && group_passes(gs[j].1, values, t) ==> filter_groups(
                gs,
                values,
                t,
            ).contains(#[trigger] gs[j]),
    decreases gs.len(),
{
    if gs.len() > 0 {
        let d = gs.drop_last();
        lemma_filter_whole_groups(d, values, t);
        let p = filter_groups(d, values, t);
        let f = filter_groups(gs, values, t);
        assert forall|i: int| 0 <= i < p.len() implies gs.contains(#[trigger] p[i]) by {
            let j = choose|j: int| 0 <= j < d.len() && d[j] == p[i];
            assert(gs[j] == p[i]);
        }
        assert forall|j: int| 0 <= j < gs.len() && group_passes(gs[j].1, values, t) implies f.contains(
        #[trigger] gs[j]) by {
            if j < gs.len() - 1 {
                assert(d[j] == gs[j]);
                let k = choose|k: int| 0 <= k < p.len() && p[k] == d[j];
                if group_passes(gs.last().1, values, t) {
                    assert(f[k] == gs[j]);
                }
            } else {
                assert(f[f.len() - 1] == gs[j]);
            }
        }
        assert(gs[gs.len() - 1] == gs.last());
    }
}

/// Filtering keeps every member a valid position.
pub proof fn lemma_filter_groups_below(gs: Seq<(u64, Seq<usize>)>, values: Seq<Rational>, t: Rational, n: nat)
    requires
        groups_below(gs, n),
    ensures
        groups_below(filter_groups(gs, values, t), n),
{
    lemma_filter_whole_groups(gs, values, t);
    let f = filter_groups(gs, values, t);
    assert forall|g: int, i: int| 0 <= g < f.len() && 0 <= i < f[g].1.len() implies (
    #[trigger] f[g].1[i]) < n by {
        assert(gs.contains(f[g]));
        let j = choose|j: int| 0 <= j < gs.len() && gs[j] == f[g];
        assert(gs[j].1[i] < n);
    }
}

} // verus!
