use vstd::prelude::*;
use crate::rational::Rational;
use crate::aggregate::{
    mean_spec, median_spec, ratio_spec, count_at_least_spec, mean, median, ratio, count_at_least,
};

verus! {

/// Seconds in a year, as durations of experience are counted.
pub const SECONDS_PER_YEAR: u64 = 31_536_000;

/// A commit: how many paths it changed and the length of its message.
#[derive(Clone, Copy, Debug, PartialEq, Eq)]
pub struct Commit {
    pub paths: u64,
    pub message_length: u64,
}

/// A user: an identity and the experience, in seconds, between their
/// earliest and latest observed activity.
#[derive(Clone, Copy, Debug, PartialEq, Eq)]
pub struct User {
    pub id: u64,
    pub experience: u64,
}

/// A project of the snapshot. `language` is a categorical label code.
#[derive(Clone, Debug)]
pub struct Project {
    pub id: u64,
    pub language: u64,
    pub stars: u64,
    pub issues: u64,
    pub commits: Vec<Commit>,
    pub users: Vec<User>,
}

/// A numeric attribute of a project, raw or aggregated over the project's
/// own commits or users. Each is total: absent data gives 0.
#[derive(Clone, Copy, Debug, PartialEq, Eq)]
pub enum Metric {
    Stars,
    Commits,
    Users,
    AllIssues,
    MeanChangedPaths,
    MedianChangedPaths,
    MeanMessageLength,
    MedianMessageLength,
    /// How many users have at least the given experience, in seconds.
    ExperiencedUsers(u64),
    /// The share of users that have at least the given experience.
    ExperiencedShare(u64),
}

pub open spec fn paths_of(cs: Seq<Commit>) -> Seq<u64> {
    cs.map_values(|c: Commit| c.paths)
}

pub open spec fn message_lengths_of(cs: Seq<Commit>) -> Seq<u64> {
    cs.map_values(|c: Commit| c.message_length)
}

pub open spec fn experience_of(us: Seq<User>) -> Seq<u64> {
    us.map_values(|u: User| u.experience)
}

pub open spec fn int_value(n: int) -> Rational {
    Rational { num: n as u128, den: 1 }
}

/// The value of a metric on one project.
pub open spec fn metric_spec(m: Metric, p: Project) -> Rational {
    match m {
        Metric::Stars => int_value(p.stars as int),
        Metric::Commits => int_value(p.commits@.len() as int),
        Metric::Users => int_value(p.users@.len() as int),
        Metric::AllIssues => int_value(p.issues as int),
        Metric::MeanChangedPaths => mean_spec(paths_of(p.commits@)),
        Metric::MedianChangedPaths => median_spec(paths_of(p.commits@)),
        Metric::MeanMessageLength => mean_spec(message_lengths_of(p.commits@)),
        Metric::MedianMessageLength => median_spec(message_lengths_of(p.commits@)),
        Metric::ExperiencedUsers(t) => int_value(count_at_least_spec(experience_of(p.users@), t) as int),
        Metric::ExperiencedShare(t) => ratio_spec(
            count_at_least_spec(experience_of(p.users@), t) as u64,
            p.users@.len() as u64,
        ),
    }
}

impl Project {
    /// The changed-path count of each commit, in commit order.
    pub fn commit_paths(&self) -> (r: Vec<u64>)
        ensures
            r@ == paths_of(self.commits@),
    {
        let mut r: Vec<u64> = Vec::new();
        let mut i: usize = 0;
        while i < self.commits.len()
            invariant
                i <= self.commits.len(),
                r@ == paths_of(self.commits@.take(i as int)),
            decreases self.commits.len() - i,
        {
            assert(paths_of(self.commits@.take(i + 1)) =~= paths_of(self.commits@.take(i as int)).push(self.commits@[i as int].paths));
            r.push(self.commits[i].paths);
            i = i + 1;
        }
        assert(self.commits@.take(i as int) =~= self.commits@);
        r
    }

    /// The message length of each commit, in commit order.
    pub fn commit_message_lengths(&self) -> (r: Vec<u64>)
        ensures
            r@ == message_lengths_of(self.commits@),
    {
        let mut r: Vec<u64> = Vec::new();
        let mut i: usize = 0;
        while i < self.commits.len()
            invariant
                i <= self.commits.len(),
                r@ == message_lengths_of(self.commits@.take(i as int)),
            decreases self.commits.len() - i,
        {
            assert(message_lengths_of(self.commits@.take(i + 1)) =~= message_lengths_of(self.commits@.take(i as int)).push(self.commits@[i as int].message_length));
            r.push(self.commits[i].message_length);
            i = i + 1;
        }
        assert(self.commits@.take(i as int) =~= self.commits@);
        r
    }

    /// The experience of each user, in user order.
    pub fn user_experience(&self) -> (r: Vec<u64>)
        ensures
            r@ == experience_of(self.users@),
    {
        let mut r: Vec<u64> = Vec::new();
        let mut i: usize = 0;
        while i < self.users.len()
            invariant
                i <= self.users.len(),
                r@ == experience_of(self.users@.take(i as int)),
            decreases self.users.len() - i,
        {
            assert(experience_of(self.users@.take(i + 1)) =~= experience_of(self.users@.take(i as int)).push(self.users@[i as int].experience));
            r.push(self.users[i].experience);
            i = i + 1;
        }
        assert(self.users@.take(i as int) =~= self.users@);
        r
    }

    /// The value of metric `m` on this project.
    pub fn metric(&self, m: Metric) -> (r: Rational)
        ensures
            r.wf(),
            r == metric_spec(m, *self),
    {
        match m {
            Metric::Stars => Rational::from_int(self.stars as u128),
            Metric::Commits => Rational::from_int(self.commits.len() as u128),
            Metric::Users => Rational::from_int(self.users.len() as u128),
            Metric::AllIssues => Rational::from_int(self.issues as u128),
            Metric::MeanChangedPaths => mean(&self.commit_paths()),
            Metric::MedianChangedPaths => median(&self.commit_paths()),
            Metric::MeanMessageLength => mean(&self.commit_message_lengths()),
            Metric::MedianMessageLength => median(&self.commit_message_lengths()),
            Metric::ExperiencedUsers(t) => Rational::from_int(
                count_at_least(&self.user_experience(), t) as u128,
            ),
            Metric::ExperiencedShare(t) => ratio(
                count_at_least(&self.user_experience(), t),
                self.users.len() as u64,
            ),
        }
    }
}

} // verus!
