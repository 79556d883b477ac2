use vstd::prelude::*;
use crate::rational::Rational;
use crate::group::{Group, grouped_view, all_below, group_spec, flatten_groups, group_by, lemma_group_members_below};
use crate::order::{groups_below, sort_groups, sort_by, ungroup, lemma_sort_groups_below};
use crate::filter::{filter_groups, filter_by, lemma_filter_groups_below};
use crate::sample::{Strategy, sample_groups, sample};
use crate::model::{Project, Metric, metric_spec, SECONDS_PER_YEAR};
use crate::export::{csv_spec, render_csv};

verus! {

/// At most this many projects represent each language.
pub const PER_LANGUAGE: usize = 50;

/// A project is kept only if it has at least nine tenths of the commits of
/// the most committed project of its language.
pub const FLOOR_NUM: u128 = 9;

pub const FLOOR_DEN: u64 = 10;

/// A user is experienced after this many seconds of activity.
pub const EXPERIENCED: u64 = 2 * SECONDS_PER_YEAR;

/// Every position of a snapshot of `n` projects, in snapshot order.
pub open spec fn positions(n: nat) -> Seq<usize> {
    Seq::new(n, |i: int| i as usize)
}

pub open spec fn language_seq(ps: Seq<Project>) -> Seq<u64> {
    ps.map_values(|p: Project| p.language)
}

pub open spec fn metric_seq(m: Metric, ps: Seq<Project>) -> Seq<Rational> {
    ps.map_values(|p: Project| metric_spec(m, p))
}

pub open spec fn commit_count_seq(ps: Seq<Project>) -> Seq<u64> {
    ps.map_values(|p: Project| p.commits@.len() as u64)
}

/// The projects grouped by language.
pub open spec fn by_language(ps: Seq<Project>) -> Seq<(u64, Seq<usize>)> {
    group_spec(positions(ps.len()), language_seq(ps))
}

pub open spec fn relevance() -> Strategy {
    Strategy::Distinct(PER_LANGUAGE, Rational { num: FLOOR_NUM, den: FLOOR_DEN })
}

/// `Distinct(Top(PER_LANGUAGE), MinRatio(Commits, 9/10))` over each group,
/// then flattened.
pub open spec fn representatives(ps: Seq<Project>, gs: Seq<(u64, Seq<usize>)>) -> Seq<usize> {
    flatten_groups(sample_groups(relevance(), commit_count_seq(ps), gs))
}

/// Groups sorted by `m`, then their representatives.
pub open spec fn ranked(ps: Seq<Project>, m: Metric, gs: Seq<(u64, Seq<usize>)>) -> Seq<usize> {
    representatives(ps, sort_groups(gs, metric_seq(m, ps)))
}

/// Each position replaced by that project's id.
pub open spec fn ids_spec(ps: Seq<Project>, items: Seq<usize>) -> Seq<u64> {
    items.map_values(|x: usize| ps[x as int].id)
}

fn all_positions(n: usize) -> (r: Vec<usize>)
    ensures
        r@ == positions(n as nat),
{
    let mut r: Vec<usize> = Vec::new();
    let mut i: usize = 0;
    while i < n
        invariant
            i <= n,
            r@ == positions(i as nat),
        decreases n - i,
    {
        assert(positions((i + 1) as nat) =~= positions(i as nat).push(i));
        r.push(i);
        i = i + 1;
    }
    r
}

/// The language of each project, in snapshot order.
pub fn language_keys(ps: &Vec<Project>) -> (r: Vec<u64>)
    ensures
        r@ == language_seq(ps@),
{
    let mut r: Vec<u64> = Vec::new();
    let mut i: usize = 0;
    while i < ps.len()
        invariant
            i <= ps.len(),
            r@ == language_seq(ps@.take(i as int)),
        decreases ps.len() - i,
    {
        assert(language_seq(ps@.take(i + 1)) =~= language_seq(ps@.take(i as int)).push(ps@[i as int].language));
        r.push(ps[i].language);
        i = i + 1;
    }
    assert(ps@.take(i as int) =~= ps@);
    r
}

/// The value of metric `m` on each project, in snapshot order.
pub fn metric_keys(ps: &Vec<Project>, m: Metric) -> (r: Vec<Rational>)
    ensures
        r@ == metric_seq(m, ps@),
        forall|i: int| 0 <= i < r@.len() ==> (#[trigger] r@[i]).wf(),
{
    let mut r: Vec<Rational> = Vec::new();
    let mut i: usize = 0;
    while i < ps.len()
        invariant
            i <= ps.len(),
            r@ == metric_seq(m, ps@.take(i as int)),
            forall|j: int| 0 <= j < r@.len() ==> (#[trigger] r@[j]).wf(),
        decreases ps.len() - i,
    {
        let v = ps[i].metric(m);
        assert(metric_seq(m, ps@.take(i + 1)) =~= metric_seq(m, ps@.take(i as int)).push(v));
        r.push(v);
        i = i + 1;
    }
    assert(ps@.take(i as int) =~= ps@);
    r
}

/// The commit count of each project, in snapshot order.
pub fn commit_counts(ps: &Vec<Project>) -> (r: Vec<u64>)
    ensures
        r@ == commit_count_seq(ps@),
{
    let mut r: Vec<u64> = Vec::new();
    let mut i: usize = 0;
    while i < ps.len()
        invariant
            i <= ps.len(),
            r@ == commit_count_seq(ps@.take(i as int)),
        decreases ps.len() - i,
    {
        let c = ps[i].commits.len() as u64;
        assert(commit_count_seq(ps@.take(i + 1)) =~= commit_count_seq(ps@.take(i as int)).push(c));
        r.push(c);
        i = i + 1;
    }
    assert(ps@.take(i as int) =~= ps@);
    r
}

/// `map_into(Id)`: the id of the project at each position.
pub fn ids_of(ps: &Vec<Project>, items: &Vec<usize>) -> (r: Vec<u64>)
    requires
        forall|i: int| 0 <= i < items.len() ==> (#[trigger] items@[i]) < ps.len(),
    ensures
        r@ == ids_spec(ps@, items@),
{
    let mut r: Vec<u64> = Vec::new();
    let mut i: usize = 0;
    while i < items.len()
        invariant
            i <= items.len(),
            forall|j: int| 0 <= j < items.len() ==> (#[trigger] items@[j]) < ps.len(),
            r@ == ids_spec(ps@, items@.take(i as int)),
        decreases items.len() - i,
    {
        let id = ps[items[i]].id;
        assert(ids_spec(ps@, items@.take(i + 1)) =~= ids_spec(ps@, items@.take(i as int)).push(id));
        r.push(id);
        i = i + 1;
    }
    assert(items@.take(i as int) =~= items@);
    r
}

/// The projects of the snapshot grouped by language.
pub fn group_by_language(ps: &Vec<Project>) -> (r: Vec<Group>)
    ensures
        grouped_view(r@) == by_language(ps@),
        groups_below(grouped_view(r@), ps@.len()),
{
    let items = all_positions(ps.len());
    let langs = language_keys(ps);
    proof {
        lemma_group_members_below(items@, langs@, ps@.len());
    }
    group_by(&items, &langs)
}

/// Samples each group with `Distinct(Top(PER_LANGUAGE), MinRatio(Commits,
/// 9/10))` and flattens the result.
pub fn representatives_of(ps: &Vec<Project>, groups: &Vec<Group>) -> (r: Vec<usize>)
    requires
        groups_below(grouped_view(groups@), ps@.len()),
    ensures
        r@ == representatives(ps@, grouped_view(groups@)),
        all_below(r@, ps@.len()),
{
    proof {
        lemma_representatives_below(ps@, grouped_view(groups@));
    }
    let counts = commit_counts(ps);
    let floor = Rational::new(FLOOR_NUM, FLOOR_DEN);
    let sampled = sample(groups, Strategy::Distinct(PER_LANGUAGE, floor), &counts);
    ungroup(&sampled)
}

/// Sorts each group by `m`, largest first, then takes its representatives.
pub fn ranked_by(ps: &Vec<Project>, m: Metric, groups: &Vec<Group>) -> (r: Vec<usize>)
    requires
        groups_below(grouped_view(groups@), ps@.len()),
    ensures
        r@ == ranked(ps@, m, grouped_view(groups@)),
        all_below(r@, ps@.len()),
{
    let keys = metric_keys(ps, m);
    let sorted = sort_by(groups, &keys);
    proof {
        lemma_sort_groups_below(grouped_view(groups@), keys@, ps@.len());
    }
    representatives_of(ps, &sorted)
}

/// The most starred relevant projects of each language.
pub fn stars(ps: &Vec<Project>) -> (r: Vec<usize>)
    ensures
        r@ == ranked(ps@, Metric::Stars, by_language(ps@)),
        all_below(r@, ps@.len()),
{
    ranked_by(ps, Metric::Stars, &group_by_language(ps))
}

/// The relevant projects of each language with the highest mean number of
/// paths changed per commit.
pub fn mean_changed_paths(ps: &Vec<Project>) -> (r: Vec<usize>)
    ensures
        r@ == ranked(ps@, Metric::MeanChangedPaths, by_language(ps@)),
        all_below(r@, ps@.len()),
{
    ranked_by(ps, Metric::MeanChangedPaths, &group_by_language(ps))
}

/// The same selection as `mean_changed_paths`.
pub fn mean_changes_in_commits(ps: &Vec<Project>) -> (r: Vec<usize>)
    ensures
        r@ == ranked(ps@, Metric::MeanChangedPaths, by_language(ps@)),
        all_below(r@, ps@.len()),
{
    mean_changed_paths(ps)
}

/// The relevant projects of each language with the highest median number of
/// paths changed per commit.
pub fn median_changed_paths(ps: &Vec<Project>) -> (r: Vec<usize>)
    ensures
        r@ == ranked(ps@, Metric::MedianChangedPaths, by_language(ps@)),
        all_below(r@, ps@.len()),
{
    ranked_by(ps, Metric::MedianChangedPaths, &group_by_language(ps))
}

/// The relevant projects of each language with the longest mean commit
/// message.
pub fn mean_commit_message_sizes(ps: &Vec<Project>) -> (r: Vec<usize>)
    ensures
        r@ == ranked(ps@, Metric::MeanMessageLength, by_language(ps@)),
        all_below(r@, ps@.len()),
{
    ranked_by(ps, Metric::MeanMessageLength, &group_by_language(ps))
}

/// The relevant projects of each language with the longest median commit
/// message.
pub fn median_commit_message_sizes(ps: &Vec<Project>) -> (r: Vec<usize>)
    ensures
        r@ == ranked(ps@, Metric::MedianMessageLength, by_language(ps@)),
        all_below(r@, ps@.len()),
{
    ranked_by(ps, Metric::MedianMessageLength, &group_by_language(ps))
}

/// The relevant projects of each language with the most commits.
pub fn commits(ps: &Vec<Project>) -> (r: Vec<usize>)
    ensures
        r@ == ranked(ps@, Metric::Commits, by_language(ps@)),
        all_below(r@, ps@.len()),
{
    ranked_by(ps, Metric::Commits, &group_by_language(ps))
}

/// The relevant projects of each language with the most issues.
pub fn issues(ps: &Vec<Project>) -> (r: Vec<usize>)
    ensures
        r@ == ranked(ps@, Metric::AllIssues, by_language(ps@)),
        all_below(r@, ps@.len()),
{
    ranked_by(ps, Metric::AllIssues, &group_by_language(ps))
}

/// Languages all of whose projects have an experienced user; their relevant
/// projects with the most commits.
pub fn experienced_author(ps: &Vec<Project>) -> (r: Vec<usize>)
    ensures
        r@ == ranked(
            ps@,
            Metric::Commits,
            filter_groups(
                by_language(ps@),
                metric_seq(Metric::ExperiencedUsers(EXPERIENCED), ps@),
                Rational { num: 1, den: 1 },
            ),
        ),
        all_below(r@, ps@.len()),
{
    let groups = group_by_language(ps);
    let experienced = metric_keys(ps, Metric::ExperiencedUsers(EXPERIENCED));
    let one = Rational::from_int(1);
    let kept = filter_by(&groups, &experienced, &one);
    proof {
        lemma_filter_groups_below(grouped_view(groups@), experienced@, one, ps@.len());
    }
    ranked_by(ps, Metric::Commits, &kept)
}

/// Languages all of whose projects have at least two users, at least half of
/// them experienced; their relevant projects in snapshot order.
pub fn experienced_authors_ratio(ps: &Vec<Project>) -> (r: Vec<usize>)
    ensures
        r@ == representatives(
            ps@,
            filter_groups(
                filter_groups(
                    by_language(ps@),
                    metric_seq(Metric::Users, ps@),
                    Rational { num: 2, den: 1 },
                ),
                metric_seq(Metric::ExperiencedShare(EXPERIENCED), ps@),
                Rational { num: 1, den: 2 },
            ),
        ),
        all_below(r@, ps@.len()),
{
    let groups = group_by_language(ps);
    let users = metric_keys(ps, Metric::Users);
    let two = Rational::from_int(2);
    let with_users = filter_by(&groups, &users, &two);
    proof {
        lemma_filter_groups_below(grouped_view(groups@), users@, two, ps@.len());
    }
    let share = metric_keys(ps, Metric::ExperiencedShare(EXPERIENCED));
    let half = Rational::new(1, 2);
    let kept = filter_by(&with_users, &share, &half);
    proof {
        lemma_filter_groups_below(grouped_view(with_users@), share@, half, ps@.len());
    }
    representatives_of(ps, &kept)
}

/// The single most starred project of each language.
pub fn my_query(ps: &Vec<Project>) -> (r: Vec<usize>)
    ensures
        r@ == flatten_groups(
            sample_groups(
                Strategy::Top(1),
                Seq::empty(),
                sort_groups(by_language(ps@), metric_seq(Metric::Stars, ps@)),
            ),
        ),
{
    let groups = group_by_language(ps);
    let keys = metric_keys(ps, Metric::Stars);
    let sorted = sort_by(&groups, &keys);
    let none: Vec<u64> = Vec::new();
    let sampled = sample(&sorted, Strategy::Top(1), &none);
    ungroup(&sampled)
}

/// `map_into(Id)` followed by the exporter: the header line, then the id of
/// each selected project on a line of its own.
pub fn export_ids(ps: &Vec<Project>, items: &Vec<usize>, header: &Vec<u8>) -> (r: Vec<u8>)
    requires
        forall|i: int| 0 <= i < items.len() ==> (#[trigger] items@[i]) < ps.len(),
    ensures
        r@ == csv_spec(header@, ids_spec(ps@, items@)),
{
    let ids = ids_of(ps, items);
    render_csv(header, &ids)
}

/// Every position among the representatives is a project of the snapshot.
pub proof fn lemma_representatives_below(ps: Seq<Project>, gs: Seq<(u64, Seq<usize>)>)
    requires
        groups_below(gs, ps.len()),
    ensures
        forall|i: int| 0 <= i < representatives(ps, gs).len() ==> (#[trigger] representatives(ps, gs)[i]) < ps.len(),
{
    let sg = sample_groups(relevance(), commit_count_seq(ps), gs);
    assert forall|g: int, i: int| 0 <= g < sg.len() && 0 <= i < sg[g].1.len() implies (#[trigger] sg[g].1[i]) < ps.len() by {
        let s = gs[g].1;
        crate::sample::lemma_distinct_within_top(s, PER_LANGUAGE, Rational { num: FLOOR_NUM, den: FLOOR_DEN }, commit_count_seq(ps));
        let t = crate::sample::top_spec(s, PER_LANGUAGE as nat);
        crate::sample::lemma_top_is_prefix(s, PER_LANGUAGE as nat);
        let j = choose|j: int| 0 <= j < t.len() && t[j] == sg[g].1[i];
        assert(s[j] == t[j]);
    }
    lemma_flatten_below(sg, ps.len());
}

proof fn lemma_flatten_below(gs: Seq<(u64, Seq<usize>)>, n: nat)
    requires
        groups_below(gs, n),
    ensures
        forall|i: int| 0 <= i < flatten_groups(gs).len() ==> (#[trigger] flatten_groups(gs)[i]) < n,
    decreases gs.len(),
{
    if gs.len() > 0 {
        let d = gs.drop_last();
        assert forall|g: int, i: int| 0 <= g < d.len() && 0 <= i < d[g].1.len() implies (#[trigger] d[g].1[i]) < n by {
            assert(gs[g].1[i] == d[g].1[i]);
        }
        lemma_flatten_below(d, n);
        let f = flatten_groups(gs);
        let fd = flatten_groups(d);
        assert forall|i: int| 0 <= i < f.len() implies (#[trigger] f[i]) < n by {
            if i >= fd.len() {
                assert(f[i] == gs[gs.len() - 1].1[i - fd.len()]);
            }
        }
    }
}

/// Running a ranked query twice on the same snapshot writes byte-identical
/// output: the rendered file is a function of the snapshot's contents.
pub proof fn lemma_query_reproducible(a: Seq<Project>, b: Seq<Project>, m: Metric, header: Seq<u8>)
    requires
        a =~= b,
    ensures
        csv_spec(header, ids_spec(a, ranked(a, m, by_language(a)))) == csv_spec(
            header,
            ids_spec(b, ranked(b, m, by_language(b))),
        ),
{
}

} // verus!
