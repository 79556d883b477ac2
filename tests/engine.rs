use paper_queries::aggregate::{count_at_least, mean, median, ratio, sorted_values, sum};
use paper_queries::export::render_csv;
use paper_queries::filter::filter_by;
use paper_queries::group::{group_by, Group};
use paper_queries::model::{Commit, Metric, Project, User, SECONDS_PER_YEAR};
use paper_queries::order::{sort_by, sort_members, ungroup};
use paper_queries::query::{
    commits, experienced_author, experienced_authors_ratio, export_ids, group_by_language, ids_of,
    issues, mean_changed_paths, mean_changes_in_commits, mean_commit_message_sizes,
    median_changed_paths, median_commit_message_sizes, metric_keys, my_query, stars,
};
use paper_queries::rational::Rational;
use paper_queries::sample::{sample, Strategy};

const PYTHON: u64 = 1;
const RUST: u64 = 2;

fn project(id: u64, language: u64, stars: u64, n_commits: usize, experience: &[u64]) -> Project {
    let commits = (0..n_commits)
        .map(|i| Commit { paths: (i % 7) as u64 + 1, message_length: (i % 5) as u64 * 10 })
        .collect();
    let users = experience
        .iter()
        .enumerate()
        .map(|(i, e)| User { id: i as u64, experience: *e })
        .collect();
    Project { id, language, stars, issues: 0, commits, users }
}

fn python_group() -> Vec<Project> {
    vec![
        project(10, PYTHON, 100, 500, &[]),
        project(11, PYTHON, 90, 480, &[]),
        project(12, PYTHON, 5, 50, &[]),
        project(13, PYTHON, 1, 1, &[]),
    ]
}

fn sorted(mut v: Vec<usize>) -> Vec<usize> {
    v.sort();
    v
}

#[test]
fn top_two_above_commit_floor_keeps_both() {
    let ps = python_group();
    let groups = group_by_language(&ps);
    let keys = metric_keys(&ps, Metric::Stars);
    let ranked = sort_by(&groups, &keys);
    let counts: Vec<u64> = ps.iter().map(|p| p.commits.len() as u64).collect();
    let picked = sample(&ranked, Strategy::Distinct(2, Rational::new(9, 10)), &counts);
    let flat = ungroup(&picked);
    let star_counts: Vec<u64> = flat.iter().map(|i| ps[*i].stars).collect();
    assert_eq!(star_counts, vec![100, 90]);
}

#[test]
fn commit_floor_drops_negligible_top_project() {
    let mut ps = python_group();
    ps[1].commits.truncate(400);
    let groups = group_by_language(&ps);
    let ranked = sort_by(&groups, &metric_keys(&ps, Metric::Stars));
    let counts: Vec<u64> = ps.iter().map(|p| p.commits.len() as u64).collect();
    let picked = sample(&ranked, Strategy::Distinct(2, Rational::new(9, 10)), &counts);
    let star_counts: Vec<u64> = ungroup(&picked).iter().map(|i| ps[*i].stars).collect();
    assert_eq!(star_counts, vec![100]);
}

#[test]
fn stars_query_orders_languages_first_seen() {
    let ps = vec![
        project(1, RUST, 3, 10, &[]),
        project(2, PYTHON, 50, 10, &[]),
        project(3, RUST, 9, 10, &[]),
        project(4, PYTHON, 70, 10, &[]),
    ];
    let r = stars(&ps);
    assert_eq!(ids_of(&ps, &r), vec![3, 1, 4, 2]);
}

#[test]
fn filter_removes_whole_group_below_user_count() {
    let ps = vec![
        project(1, PYTHON, 1, 1, &[1, 2, 3]),
        project(2, PYTHON, 1, 1, &[1]),
        project(3, RUST, 1, 1, &[1, 2]),
        project(4, RUST, 1, 1, &[5, 6, 7]),
    ];
    let groups = group_by_language(&ps);
    let users = metric_keys(&ps, Metric::Users);
    let kept = filter_by(&groups, &users, &Rational::from_int(2));
    assert_eq!(kept.len(), 1);
    assert_eq!(kept[0].key, RUST);
    assert_eq!(kept[0].members, vec![2, 3]);
}

#[test]
fn export_three_projects_writes_header_and_three_rows() {
    let ps = vec![
        project(7, PYTHON, 3, 1, &[]),
        project(42, PYTHON, 2, 1, &[]),
        project(1000, PYTHON, 1, 1, &[]),
    ];
    let r = stars(&ps);
    assert_eq!(r.len(), 3);
    let bytes = export_ids(&ps, &r, &b"id".to_vec());
    let text = String::from_utf8(bytes).unwrap();
    let lines: Vec<&str> = text.lines().collect();
    assert_eq!(lines.len(), 4);
    assert_eq!(lines, vec!["id", "7", "42", "1000"]);
}

#[test]
fn grouping_keeps_every_item_once() {
    let items: Vec<usize> = vec![0, 1, 2, 3, 4, 5];
    let keys: Vec<u64> = vec![5, 3, 5, 9, 3, 5];
    let groups = group_by(&items, &keys);
    let gk: Vec<u64> = groups.iter().map(|g: &Group| g.key).collect();
    assert_eq!(gk, vec![5, 3, 9]);
    assert_eq!(groups[0].members, vec![0, 2, 5]);
    assert_eq!(groups[1].members, vec![1, 4]);
    assert_eq!(groups[2].members, vec![3]);
    assert_eq!(sorted(ungroup(&groups)), items);
}

#[test]
fn grouping_empty_collection_has_no_groups() {
    let groups = group_by(&Vec::new(), &Vec::new());
    assert!(groups.is_empty());
}

#[test]
fn top_keeps_first_n_in_current_order() {
    let groups = vec![
        Group { key: 1, members: vec![4, 2, 9, 7] },
        Group { key: 2, members: vec![3] },
    ];
    let out = sample(&groups, Strategy::Top(2), &Vec::new());
    assert_eq!(out[0].members, vec![4, 2]);
    assert_eq!(out[1].members, vec![3]);
    let none = sample(&groups, Strategy::Top(0), &Vec::new());
    assert!(none[0].members.is_empty());
}

#[test]
fn distinct_is_subset_of_top_and_above_floor() {
    let values: Vec<u64> = vec![10, 100, 95, 30, 99];
    let groups = vec![Group { key: 1, members: vec![0, 3, 2, 1, 4] }];
    let top = sample(&groups, Strategy::Top(3), &values);
    let distinct = sample(&groups, Strategy::Distinct(3, Rational::new(9, 10)), &values);
    assert_eq!(top[0].members, vec![0, 3, 2]);
    assert_eq!(distinct[0].members, vec![2]);
    for x in &distinct[0].members {
        assert!(top[0].members.contains(x));
        assert!(values[*x] * 10 >= 9 * 100);
    }
}

#[test]
fn floor_over_all_zero_values_keeps_everything() {
    let values: Vec<u64> = vec![0, 0];
    let groups = vec![Group { key: 1, members: vec![1, 0] }];
    let out = sample(&groups, Strategy::Distinct(5, Rational::new(9, 10)), &values);
    assert_eq!(out[0].members, vec![1, 0]);
}

#[test]
fn mean_and_median_of_empty_are_zero() {
    let empty: Vec<u64> = Vec::new();
    let m = mean(&empty);
    assert_eq!((m.num, m.den), (0, 1));
    let d = median(&empty);
    assert_eq!((d.num, d.den), (0, 1));
    let p = project(1, PYTHON, 0, 0, &[]);
    assert_eq!(p.metric(Metric::MeanChangedPaths).num, 0);
    assert_eq!(p.metric(Metric::MedianMessageLength).num, 0);
}

#[test]
fn ratio_one_over_two_equals_one_half() {
    let r = ratio(1, 2);
    let half = Rational::new(1, 2);
    assert!(r.equals(&half));
    assert!(r.at_least(&half));
    assert!(half.at_least(&r));
    assert!(!r.at_least(&Rational::new(500_000_001, 1_000_000_000)));
    let z = ratio(3, 0);
    assert_eq!((z.num, z.den), (0, 1));
}

#[test]
fn running_twice_gives_identical_bytes() {
    let ps = vec![
        project(1, RUST, 3, 10, &[]),
        project(2, PYTHON, 50, 12, &[]),
        project(3, RUST, 3, 10, &[]),
    ];
    let a = export_ids(&ps, &stars(&ps), &b"id".to_vec());
    let b = export_ids(&ps, &stars(&ps), &b"id".to_vec());
    assert_eq!(a, b);
}

#[test]
fn mean_is_exact() {
    let m = mean(&vec![1, 2, 4]);
    assert_eq!((m.num, m.den), (7, 3));
    assert!(m.equals(&Rational::new(14, 6)));
    assert_eq!(sum(&vec![u64::MAX, u64::MAX]), 2 * (u64::MAX as u128));
}

#[test]
fn median_odd_and_even() {
    let odd = median(&vec![9, 1, 5]);
    assert_eq!((odd.num, odd.den), (5, 1));
    let even = median(&vec![8, 1, 3, 10]);
    assert_eq!((even.num, even.den), (11, 2));
    assert_eq!(sorted_values(&vec![3, 1, 3, 0]), vec![0, 1, 3, 3]);
}

#[test]
fn count_at_least_counts_threshold() {
    assert_eq!(count_at_least(&vec![1, 5, 7, 5], 5), 3);
    assert_eq!(count_at_least(&Vec::new(), 0), 0);
}

#[test]
fn rational_compares_large_values_exactly() {
    let a = Rational::new(u128::MAX, u64::MAX);
    let b = Rational::new(u128::MAX - 1, u64::MAX);
    assert!(a.at_least(&b));
    assert!(!b.at_least(&a));
    assert!(Rational::new(2, 4).equals(&Rational::new(1, 2)));
    assert!(!Rational::new(1, 3).at_least(&Rational::new(1, 2)));
}

#[test]
fn sort_is_descending_and_stable() {
    let keys = vec![
        Rational::from_int(1),
        Rational::from_int(5),
        Rational::new(2, 2),
        Rational::from_int(5),
        Rational::from_int(3),
    ];
    assert_eq!(sort_members(&vec![0, 1, 2, 3, 4], &keys), vec![1, 3, 4, 0, 2]);
    assert_eq!(sort_members(&vec![2, 0], &keys), vec![2, 0]);
}

#[test]
fn csv_renders_digits() {
    let out = render_csv(&b"id".to_vec(), &vec![0, 9, 10, u64::MAX]);
    assert_eq!(String::from_utf8(out).unwrap(), "id\n0\n9\n10\n18446744073709551615\n");
    let empty = render_csv(&b"id".to_vec(), &Vec::new());
    assert_eq!(empty, b"id\n".to_vec());
}

#[test]
fn ranked_queries_sort_by_their_metric() {
    let mut a = project(1, PYTHON, 0, 0, &[]);
    a.commits = vec![
        Commit { paths: 1, message_length: 100 },
        Commit { paths: 1, message_length: 2 },
        Commit { paths: 1, message_length: 3 },
    ];
    a.issues = 4;
    let mut b = project(2, PYTHON, 0, 0, &[]);
    b.commits = vec![
        Commit { paths: 10, message_length: 20 },
        Commit { paths: 2, message_length: 20 },
        Commit { paths: 3, message_length: 20 },
    ];
    b.issues = 9;
    let ps = vec![a, b];
    assert_eq!(ids_of(&ps, &mean_changed_paths(&ps)), vec![2, 1]);
    assert_eq!(ids_of(&ps, &mean_changes_in_commits(&ps)), vec![2, 1]);
    assert_eq!(ids_of(&ps, &median_changed_paths(&ps)), vec![2, 1]);
    assert_eq!(ids_of(&ps, &mean_commit_message_sizes(&ps)), vec![1, 2]);
    assert_eq!(ids_of(&ps, &median_commit_message_sizes(&ps)), vec![2, 1]);
    assert_eq!(ids_of(&ps, &issues(&ps)), vec![2, 1]);
    assert_eq!(ids_of(&ps, &commits(&ps)), vec![1, 2]);
}

#[test]
fn experienced_queries_filter_languages() {
    let year = SECONDS_PER_YEAR;
    let ps = vec![
        project(1, PYTHON, 0, 11, &[3 * year, 0]),
        project(2, PYTHON, 0, 12, &[2 * year, 3 * year, 1]),
        project(3, RUST, 0, 10, &[0, 1]),
        project(4, RUST, 0, 10, &[5 * year]),
    ];
    assert_eq!(ids_of(&ps, &experienced_author(&ps)), vec![2, 1]);
    assert_eq!(ids_of(&ps, &experienced_authors_ratio(&ps)), vec![1, 2]);
}

#[test]
fn my_query_takes_top_star_per_language() {
    let ps = vec![
        project(1, RUST, 3, 0, &[]),
        project(2, PYTHON, 50, 0, &[]),
        project(3, RUST, 9, 0, &[]),
        project(4, PYTHON, 50, 0, &[]),
    ];
    assert_eq!(ids_of(&ps, &my_query(&ps)), vec![3, 2]);
}
