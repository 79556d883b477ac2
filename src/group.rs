use vstd::prelude::*;

verus! {

broadcast use vstd::seq_lib::group_to_multiset_ensures;

/// One group of a grouped collection: the shared key and the members, which
/// are positions into the snapshot's entity sequence.
#[derive(Clone, Debug)]
pub struct Group {
    pub key: u64,
    pub members: Vec<usize>,
}

/// The mathematical view of a grouped collection.
pub open spec fn grouped_view(gs: Seq<Group>) -> Seq<(u64, Seq<usize>)> {
    gs.map_values(|g: Group| (g.key, g.members@))
}

/// Every item is a valid position into `keys`.
pub open spec fn all_below(items: Seq<usize>, n: nat) -> bool {
    forall|i: int| 0 <= i < items.len() ==> (#[trigger] items[i]) < n
}

/// The distinct keys of `items`, in the order in which each is first seen.
pub open spec fn first_seen(items: Seq<usize>, keys: Seq<u64>) -> Seq<u64>
    decreases items.len(),
{
    if items.len() == 0 {
        Seq::empty()
    } else {
        let p = first_seen(items.drop_last(), keys);
        let k = keys[items.last() as int];
        if p.contains(k) {
            p
        } else {
            p.push(k)
        }
    }
}

/// The items whose key is `k`, in input order.
pub open spec fn members_of(items: Seq<usize>, keys: Seq<u64>, k: u64) -> Seq<usize>
    decreases items.len(),
{
    if items.len() == 0 {
        Seq::empty()
    } else {
        let p = members_of(items.drop_last(), keys, k);
        if keys[items.last() as int] == k {
            p.push(items.last())
        } else {
            p
        }
    }
}

/// The stable partition of `items` by key, groups in first-seen key order.
pub open spec fn group_spec(items: Seq<usize>, keys: Seq<u64>) -> Seq<(u64, Seq<usize>)> {
    first_seen(items, keys).map_values(|k: u64| (k, members_of(items, keys, k)))
}

/// All members of all groups, concatenated in group order.
pub open spec fn flatten_groups(gs: Seq<(u64, Seq<usize>)>) -> Seq<usize>
    decreases gs.len(),
{
    if gs.len() == 0 {
        Seq::empty()
    } else {
        flatten_groups(gs.drop_last()) + gs.last().1
    }
}

fn contains_key(ks: &Vec<u64>, k: u64) -> (r: bool)
    ensures
        r == ks@.contains(k),
{
    let mut i: usize = 0;
    while i < ks.len()
        invariant
            i <= ks.len(),
            forall|j: int| 0 <= j < i ==> ks@[j] != k,
        decreases ks.len() - i,
    {
        if ks[i] == k {
            return true;
        }
        i = i + 1;
    }
    false
}

fn collect_members(items: &Vec<usize>, keys: &Vec<u64>, k: u64) -> (r: Vec<usize>)
    requires
        all_below(items@, keys@.len()),
    ensures
        r@ == members_of(items@, keys@, k),
{
    let mut r: Vec<usize> = Vec::new();
    let mut i: usize = 0;
    while i < items.len()
        invariant
            i <= items.len(),
            all_below(items@, keys@.len()),
            r@ == members_of(items@.take(i as int), keys@, k),
        decreases items.len() - i,
    {
        assert(items@.take(i + 1).drop_last() =~= items@.take(i as int));
        let x = items[i];
        if keys[x] == k {
            r.push(x);
        }
        i = i + 1;
    }
    assert(items@.take(items.len() as int) =~= items@);
    r
}

/// Partitions `items` by `keys[item]`: one group per distinct key, in
/// first-seen order, each holding its items in input order.
pub fn group_by(items: &Vec<usize>, keys: &Vec<u64>) -> (r: Vec<Group>)
    requires
        all_below(items@, keys@.len()),
    ensures
        grouped_view(r@) == group_spec(items@, keys@),
{
    let mut seen: Vec<u64> = Vec::new();
    let mut i: usize = 0;
    while i < items.len()
        invariant
            i <= items.len(),
            all_below(items@, keys@.len()),
            seen@ == first_seen(items@.take(i as int), keys@),
        decreases items.len() - i,
    {
        assert(items@.take(i + 1).drop_last() =~= items@.take(i as int));
        let k = keys[items[i]];
        if !contains_key(&seen, k) {
            seen.push(k);
        }
        i = i + 1;
    }
    assert(items@.take(items.len() as int) =~= items@);
    let mut out: Vec<Group> = Vec::new();
    let mut g: usize = 0;
    while g < seen.len()
        invariant
            g <= seen.len(),
            all_below(items@, keys@.len()),
            seen@ == first_seen(items@, keys@),
            out.len() == g,
            forall|j: int|
                0 <= j < g ==> (#[trigger] out@[j]).key == seen@[j] && out@[j].members@
                    == members_of(items@, keys@, seen@[j]),
        decreases seen.len() - g,
    {
        let k = seen[g];
        let members = collect_members(items, keys, k);
        out.push(Group { key: k, members });
        g = g + 1;
    }
    assert(grouped_view(out@) =~= group_spec(items@, keys@));
    out
}

proof fn lemma_members_below(items: Seq<usize>, keys: Seq<u64>, k: u64, n: nat)
    requires
        all_below(items, n),
    ensures
        all_below(members_of(items, keys, k), n),
    decreases items.len(),
{
    if items.len() > 0 {
        lemma_members_below(items.drop_last(), keys, k, n);
        assert(items[items.len() - 1] == items.last());
    }
}

/// Every member of every group is an item of the input.
pub proof fn lemma_group_members_below(items: Seq<usize>, keys: Seq<u64>, n: nat)
    requires
        all_below(items, n),
    ensures
        forall|g: int, i: int|
            0 <= g < group_spec(items, keys).len() && 0 <= i < group_spec(items, keys)[g].1.len()
                ==> (#[trigger] group_spec(items, keys)[g].1[i]) < n,
{
    assert forall|g: int, i: int|
        0 <= g < group_spec(items, keys).len() && 0 <= i < group_spec(items, keys)[g].1.len()
            implies (#[trigger] group_spec(items, keys)[g].1[i]) < n by {
        lemma_members_below(items, keys, first_seen(items, keys)[g], n);
    }
}

proof fn lemma_first_seen_distinct(items: Seq<usize>, keys: Seq<u64>)
    requires
        all_below(items, keys.len()),
    ensures
        first_seen(items, keys).no_duplicates(),
    decreases items.len(),
{
    if items.len() > 0 {
        lemma_first_seen_distinct(items.drop_last(), keys);
    }
}

proof fn lemma_members_seen(items: Seq<usize>, keys: Seq<u64>, k: u64)
    requires
        all_below(items, keys.len()),
        !first_seen(items, keys).contains(k),
    ensures
        members_of(items, keys, k) == Seq::<usize>::empty(),
    decreases items.len(),
{
    if items.len() > 0 {
        let p = first_seen(items.drop_last(), keys);
        if p.contains(k) {
            let j = choose|j: int| 0 <= j < p.len() && p[j] == k;
            let kx = keys[items.last() as int];
            if !p.contains(kx) {
                assert(p.push(kx)[j] == k);
            }
        }
        lemma_members_seen(items.drop_last(), keys, k);
        if keys[items.last() as int] == k {
            let kx = keys[items.last() as int];
            if p.contains(kx) {
            } else {
                assert(p.push(kx)[p.len() as int] == k);
            }
        }
    }
}

proof fn lemma_flatten_push_group(gs: Seq<(u64, Seq<usize>)>, k: u64, x: usize)
    ensures
        flatten_groups(gs.push((k, seq![x]))).to_multiset() =~= flatten_groups(
            gs,
        ).to_multiset().insert(x),
{
    assert(gs.push((k, seq![x])).drop_last() =~= gs);
    assert(flatten_groups(gs) + seq![x] =~= flatten_groups(gs).push(x));
}

proof fn lemma_flatten_update_push(gs: Seq<(u64, Seq<usize>)>, j: int, x: usize)
    requires
        0 <= j < gs.len(),
    ensures
        flatten_groups(gs.update(j, (gs[j].0, gs[j].1.push(x)))).to_multiset() =~= flatten_groups(
            gs,
        ).to_multiset().insert(x),
    decreases gs.len(),
{
    broadcast use vstd::seq_lib::lemma_multiset_commutative;

    let u = gs.update(j, (gs[j].0, gs[j].1.push(x)));
    if j == gs.len() - 1 {
        assert(u.drop_last() =~= gs.drop_last());
        assert(u.last().1 =~= gs.last().1.push(x));
    } else {
        assert(u.drop_last() =~= gs.drop_last().update(j, (gs[j].0, gs[j].1.push(x))));
        lemma_flatten_update_push(gs.drop_last(), j, x);
    }
}

/// Grouping neither loses nor duplicates an item: the multiset of all members
/// across all groups equals the multiset of the input.
pub proof fn lemma_group_by_keeps_items(items: Seq<usize>, keys: Seq<u64>)
    requires
        all_below(items, keys.len()),
    ensures
        flatten_groups(group_spec(items, keys)).to_multiset() =~= items.to_multiset(),
    decreases items.len(),
{
    broadcast use vstd::seq_lib::lemma_multiset_commutative;

    if items.len() == 0 {
        assert(group_spec(items, keys) =~= Seq::<(u64, Seq<usize>)>::empty());
    } else {
        let s = items.drop_last();
        let x = items.last();
        let k = keys[x as int];
        assert(items =~= s.push(x));
        lemma_group_by_keeps_items(s, keys);
        let d = first_seen(s, keys);
        let gp = group_spec(s, keys);
        let g = group_spec(items, keys);
        lemma_first_seen_distinct(s, keys);
        if d.contains(k) {
            let j = choose|j: int| 0 <= j < d.len() && d[j] == k;
            assert forall|i: int| 0 <= i < d.len() && i != j implies d[i] != k by {
                if d[i] == k {
                    assert(d[i] == d[j]);
                }
            }
            assert(g =~= gp.update(j, (gp[j].0, gp[j].1.push(x))));
            lemma_flatten_update_push(gp, j, x);
        } else {
            lemma_members_seen(s, keys, k);
            assert(members_of(items, keys, k) =~= seq![x]);
            assert(g =~= gp.push((k, seq![x])));
            lemma_flatten_push_group(gp, k, x);
        }
    }
}

} // verus!
