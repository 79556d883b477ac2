use vstd::prelude::*;
use crate::rational::Rational;
use crate::group::{Group, grouped_view, flatten_groups};

verus! {

/// Every key is a well-formed rational.
pub open spec fn keys_wf(keys: Seq<Rational>) -> bool {
    forall|i: int| 0 <= i < keys.len() ==> (#[trigger] keys[i]).wf()
}

/// Every member of every group is a valid position into a sequence of length `n`.
pub open spec fn groups_below(gs: Seq<(u64, Seq<usize>)>, n: nat) -> bool {
    forall|g: int, i: int|
        0 <= g < gs.len() && 0 <= i < gs[g].1.len() ==> (#[trigger] gs[g].1[i]) < n
}

/// Where a stable descending insertion puts an item of key `kx`: after the
/// leading run of items whose key is at least `kx`.
pub open spec fn insert_pos(s: Seq<usize>, keys: Seq<Rational>, kx: Rational) -> nat
    decreases s.len(),
{
    if s.len() == 0 {
        0
    } else if !keys[s[0] as int].ge_spec(kx) {
        0
    } else {
        1 + insert_pos(s.drop_first(), keys, kx)
    }
}

/// Stable sort by key, largest first: each item in turn is placed after every
/// earlier item whose key is at least its own.
pub open spec fn sort_desc(s: Seq<usize>, keys: Seq<Rational>) -> Seq<usize>
    decreases s.len(),
{
    if s.len() == 0 {
        Seq::empty()
    } else {
        let p = sort_desc(s.drop_last(), keys);
        p.insert(insert_pos(p, keys, keys[s.last() as int]) as int, s.last())
    }
}

/// Each group's members sorted by `sort_desc`; group order and keys unchanged.
pub open spec fn sort_groups(gs: Seq<(u64, Seq<usize>)>, keys: Seq<Rational>) -> Seq<(u64, Seq<usize>)> {
    gs.map_values(|g: (u64, Seq<usize>)| (g.0, sort_desc(g.1, keys)))
}

proof fn lemma_insert_pos_bound(s: Seq<usize>, keys: Seq<Rational>, kx: Rational)
    ensures
        insert_pos(s, keys, kx) <= s.len(),
    decreases s.len(),
{
    if s.len() > 0 {
        lemma_insert_pos_bound(s.drop_first(), keys, kx);
    }
}

proof fn lemma_sort_desc_len(s: Seq<usize>, keys: Seq<Rational>)
    ensures
        sort_desc(s, keys).len() == s.len(),
        sort_desc(s, keys).to_multiset() =~= s.to_multiset(),
    decreases s.len(),
{
    broadcast use vstd::seq_lib::group_to_multiset_ensures;

    if s.len() > 0 {
        lemma_sort_desc_len(s.drop_last(), keys);
        let p = sort_desc(s.drop_last(), keys);
        lemma_insert_pos_bound(p, keys, keys[s.last() as int]);
        vstd::seq_lib::to_multiset_insert(p, insert_pos(p, keys, keys[s.last() as int]) as int, s.last());
        assert(s =~= s.drop_last().push(s.last()));
    }
}

/// Sorting a group keeps exactly its members.
pub proof fn lemma_sort_keeps_members(s: Seq<usize>, keys: Seq<Rational>)
    ensures
        sort_desc(s, keys).to_multiset() =~= s.to_multiset(),
{
    lemma_sort_desc_len(s, keys);
}

/// Keys never increase along `s`.
pub open spec fn sorted_desc(s: Seq<usize>, keys: Seq<Rational>) -> bool {
    forall|i: int, j: int|
        0 <= i < j < s.len() ==> (#[trigger] keys[s[i] as int]).ge_spec(#[trigger] keys[s[j] as int])
}

proof fn lemma_ge_trans(a: Rational, b: Rational, c: Rational)
    requires
        a.wf(),
        b.wf(),
        c.wf(),
        a.ge_spec(b),
        b.ge_spec(c),
    ensures
        a.ge_spec(c),
{
    let (an, ad, bn, bd, cn, cd) = (a.num as int, a.den as int, b.num as int, b.den as int, c.num as int, c.den as int);
    assert(an * cd >= cn * ad) by (nonlinear_arith)
        requires
            ad > 0,
            bd > 0,
            cd > 0,
            an * bd >= bn * ad,
            bn * cd >= cn * bd,
    {
        assert(an * bd * cd >= bn * ad * cd) by (nonlinear_arith)
            requires
                an * bd >= bn * ad,
                cd > 0,
        ;
        assert(bn * cd * ad >= cn * bd * ad) by (nonlinear_arith)
            requires
                bn * cd >= cn * bd,
                ad > 0,
        ;
        assert(an * cd * bd >= cn * ad * bd);
        assert(an * cd >= cn * ad) by (nonlinear_arith)
            requires
                an * cd * bd >= cn * ad * bd,
                bd > 0,
        ;
    }
}

proof fn lemma_insert_pos_props(s: Seq<usize>, keys: Seq<Rational>, kx: Rational)
    ensures
        insert_pos(s, keys, kx) <= s.len(),
        forall|i: int| 0 <= i < insert_pos(s, keys, kx) ==> (#[trigger] keys[s[i] as int]).ge_spec(kx),
        insert_pos(s, keys, kx) < s.len() ==> !keys[s[insert_pos(s, keys, kx) as int] as int].ge_spec(kx),
    decreases s.len(),
{
    if s.len() > 0 && keys[s[0] as int].ge_spec(kx) {
        let d = s.drop_first();
        lemma_insert_pos_props(d, keys, kx);
        assert forall|i: int| 0 <= i < insert_pos(s, keys, kx) implies (#[trigger] keys[s[i] as int]).ge_spec(kx) by {
            if i > 0 {
                assert(s[i] == d[i - 1]);
            }
        }
        if insert_pos(s, keys, kx) < s.len() {
            assert(s[insert_pos(s, keys, kx) as int] == d[insert_pos(d, keys, kx) as int]);
        }
    }
}

proof fn lemma_sort_desc_below(s: Seq<usize>, keys: Seq<Rational>, n: nat)
    requires
        forall|i: int| 0 <= i < s.len() ==> (#[trigger] s[i]) < n,
    ensures
        forall|i: int| 0 <= i < sort_desc(s, keys).len() ==> (#[trigger] sort_desc(s, keys)[i]) < n,
{
    broadcast use vstd::seq_lib::group_to_multiset_ensures;

    let t = sort_desc(s, keys);
    lemma_sort_desc_len(s, keys);
    assert forall|i: int| 0 <= i < t.len() implies (#[trigger] t[i]) < n by {
        assert(t.contains(t[i]));
        assert(s.to_multiset().count(t[i]) > 0);
    }
}

/// Sorting orders each group's members by key, largest first.
pub proof fn lemma_sort_is_descending(s: Seq<usize>, keys: Seq<Rational>)
    requires
        keys_wf(keys),
        forall|i: int| 0 <= i < s.len() ==> (#[trigger] s[i]) < keys.len(),
    ensures
        sorted_desc(sort_desc(s, keys), keys),
    decreases s.len(),
{
    if s.len() > 0 {
        let d = s.drop_last();
        let x = s.last();
        assert forall|i: int| 0 <= i < d.len() implies (#[trigger] d[i]) < keys.len() by {
            assert(d[i] == s[i]);
        }
        lemma_sort_is_descending(d, keys);
        lemma_sort_desc_below(d, keys, keys.len());
        let p = sort_desc(d, keys);
        let kx = keys[x as int];
        assert(x == s[s.len() - 1]);
        lemma_insert_pos_props(p, keys, kx);
        lemma_sort_desc_len(d, keys);
        let pos = insert_pos(p, keys, kx) as int;
        let t = p.insert(pos, x);
        assert(t == sort_desc(s, keys));
        assert forall|i: int, j: int| 0 <= i < j < t.len() implies (#[trigger] keys[t[i] as int]).ge_spec(
        #[trigger] keys[t[j] as int]) by {
            let ii = if i < pos { i } else { i - 1 };
            let jj = if j <= pos { j } else { j - 1 };
            if i == pos {
                assert(t[i] == x);
                assert(t[j] == p[jj]);
                assert(keys[p[pos] as int].wf() && keys[p[jj] as int].wf() && kx.wf());
                if jj > pos {
                    assert(keys[p[pos] as int].ge_spec(keys[p[jj] as int]));
                }
                assert(kx.ge_spec(keys[p[pos] as int])) by (nonlinear_arith)
                    requires
                        !keys[p[pos] as int].ge_spec(kx),
                ;
                if jj > pos {
                    lemma_ge_trans(kx, keys[p[pos] as int], keys[p[jj] as int]);
                }
            } else if j == pos {
                assert(t[j] == x);
                assert(t[i] == p[i]);
            } else {
                assert(t[i] == p[ii]);
                assert(t[j] == p[jj]);
            }
        }
    }
}

/// Sorting keeps every member a valid position.
pub proof fn lemma_sort_groups_below(gs: Seq<(u64, Seq<usize>)>, keys: Seq<Rational>, n: nat)
    requires
        groups_below(gs, n),
    ensures
        groups_below(sort_groups(gs, keys), n),
{
    broadcast use vstd::seq_lib::group_to_multiset_ensures;

    assert forall|g: int, i: int|
        0 <= g < sort_groups(gs, keys).len() && 0 <= i < sort_groups(gs, keys)[g].1.len()
            implies (#[trigger] sort_groups(gs, keys)[g].1[i]) < n by {
        let s = gs[g].1;
        let t = sort_desc(s, keys);
        lemma_sort_desc_len(s, keys);
        assert(t.contains(t[i]));
        assert(s.to_multiset().count(t[i]) > 0);
        let j = choose|j: int| 0 <= j < s.len() && s[j] == t[i];
        assert(gs[g].1[j] < n);
    }
}

/// Sorts `items` by `keys[item]`, largest first, ties kept in input order.
pub fn sort_members(items: &Vec<usize>, keys: &Vec<Rational>) -> (r: Vec<usize>)
    requires
        keys_wf(keys@),
        forall|i: int| 0 <= i < items.len() ==> (#[trigger] items@[i]) < keys@.len(),
    ensures
        r@ == sort_desc(items@, keys@),
{
    let mut out: Vec<usize> = Vec::new();
    let mut i: usize = 0;
    while i < items.len()
        invariant
            i <= items.len(),
            keys_wf(keys@),
            forall|j: int| 0 <= j < items.len() ==> (#[trigger] items@[j]) < keys@.len(),
            forall|j: int| 0 <= j < out.len() ==> (#[trigger] out@[j]) < keys@.len(),
            out@ == sort_desc(items@.take(i as int), keys@),
        decreases items.len() - i,
    {
        assert(items@.take(i + 1).drop_last() =~= items@.take(i as int));
        let x = items[i];
        let kx = keys[x];
        let mut p: usize = 0;
        assert(out@.skip(0) =~= out@);
        while p < out.len() && keys[out[p]].at_least(&kx)
            invariant
                p <= out.len(),
                keys_wf(keys@),
                x < keys@.len(),
                kx == keys@[x as int],
                forall|j: int| 0 <= j < out.len() ==> (#[trigger] out@[j]) < keys@.len(),
                p + insert_pos(out@.skip(p as int), keys@, kx) == insert_pos(out@, keys@, kx),
            decreases out.len() - p,
        {
            assert(out@.skip(p as int).drop_first() =~= out@.skip(p + 1));
            p = p + 1;
        }
        proof {
            if p < out.len() {
                assert(out@.skip(p as int)[0] == out@[p as int]);
            }
        }
        out.insert(p, x);
        i = i + 1;
    }
    assert(items@.take(items.len() as int) =~= items@);
    out
}

/// Sorts the members of every group by key, largest first, stably.
pub fn sort_by(groups: &Vec<Group>, keys: &Vec<Rational>) -> (r: Vec<Group>)
    requires
        keys_wf(keys@),
        groups_below(grouped_view(groups@), keys@.len()),
    ensures
        grouped_view(r@) == sort_groups(grouped_view(groups@), keys@),
{
    let mut out: Vec<Group> = Vec::new();
    let mut g: usize = 0;
    while g < groups.len()
        invariant
            g <= groups.len(),
            keys_wf(keys@),
            groups_below(grouped_view(groups@), keys@.len()),
            out.len() == g,
            forall|j: int|
                0 <= j < g ==> (#[trigger] out@[j]).key == groups@[j].key && out@[j].members@
                    == sort_desc(groups@[j].members@, keys@),
        decreases groups.len() - g,
    {
        assert forall|i: int| 0 <= i < groups@[g as int].members.len() implies (
        #[trigger] groups@[g as int].members@[i]) < keys@.len() by {
            assert(grouped_view(groups@)[g as int].1[i] == groups@[g as int].members@[i]);
        }
        let members = sort_members(&groups[g].members, keys);
        out.push(Group { key: groups[g].key, members });
        g = g + 1;
    }
    assert(grouped_view(out@) =~= sort_groups(grouped_view(groups@), keys@));
    out
}

/// Flattens a grouped collection: groups concatenated in group order, each
/// group's members in their order.
pub fn ungroup(groups: &Vec<Group>) -> (r: Vec<usize>)
    ensures
        r@ == flatten_groups(grouped_view(groups@)),
{
    let mut out: Vec<usize> = Vec::new();
    let mut g: usize = 0;
    while g < groups.len()
        invariant
            g <= groups.len(),
            out@ == flatten_groups(grouped_view(groups@.take(g as int))),
        decreases groups.len() - g,
    {
        assert(grouped_view(groups@.take(g + 1)).drop_last() =~= grouped_view(groups@.take(g as int)));
        let ghost before = out@;
        let mut i: usize = 0;
        while i < groups[g].members.len()
            invariant
                g < groups.len(),
                i <= groups@[g as int].members.len(),
                out@ == before + groups@[g as int].members@.take(i as int),
            decreases groups@[g as int].members.len() - i,
        {
            assert(groups@[g as int].members@.take(i + 1) =~= groups@[g as int].members@.take(i as int).push(groups@[g as int].members@[i as int]));
            out.push(groups[g].members[i]);
            i = i + 1;
        }
        assert(groups@[g as int].members@.take(i as int) =~= groups@[g as int].members@);
        assert(grouped_view(groups@.take(g + 1)).last().1 == groups@[g as int].members@);
        g = g + 1;
    }
    assert(groups@.take(groups.len() as int) =~= groups@);
    out
}

} // verus!
