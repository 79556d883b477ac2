use vstd::prelude::*;
use crate::rational::Rational;

verus! {

/// The total of a sequence of values.
pub open spec fn sum_of(s: Seq<u64>) -> int
    decreases s.len(),
{
    if s.len() == 0 {
        0
    } else {
        sum_of(s.drop_last()) + s.last()
    }
}

/// How many values are at least `t`.
pub open spec fn count_at_least_spec(s: Seq<u64>, t: u64) -> nat
    decreases s.len(),
{
    if s.len() == 0 {
        0
    } else {
        count_at_least_spec(s.drop_last(), t) + if s.last() >= t {
            1nat
        } else {
            0nat
        }
    }
}

/// The arithmetic mean; 0 for an empty sequence.
pub open spec fn mean_spec(s: Seq<u64>) -> Rational {
    if s.len() == 0 {
        Rational { num: 0, den: 1 }
    } else {
        Rational { num: sum_of(s) as u128, den: s.len() as u64 }
    }
}

/// Number of leading values of `s` that are at most `x`.
pub open spec fn insert_asc_pos(s: Seq<u64>, x: u64) -> nat
    decreases s.len(),
{
    if s.len() == 0 {
        0
    } else if s[0] > x {
        0
    } else {
        1 + insert_asc_pos(s.drop_first(), x)
    }
}

/// The values in ascending order, by insertion.
pub open spec fn sort_asc(s: Seq<u64>) -> Seq<u64>
    decreases s.len(),
{
    if s.len() == 0 {
        Seq::empty()
    } else {
        let p = sort_asc(s.drop_last());
        p.insert(insert_asc_pos(p, s.last()) as int, s.last())
    }
}

/// The median: the middle of the sorted values, or the average of the two
/// middle values for an even count; 0 for an empty sequence.
pub open spec fn median_spec(s: Seq<u64>) -> Rational {
    let t = sort_asc(s);
    let n = s.len();
    if n == 0 {
        Rational { num: 0, den: 1 }
    } else if n % 2 == 1 {
        Rational { num: t[(n / 2) as int] as u128, den: 1 }
    } else {
        Rational { num: (t[(n / 2 - 1) as int] + t[(n / 2) as int]) as u128, den: 2 }
    }
}

/// `a / b`, exactly; 0 when `b` is 0.
pub open spec fn ratio_spec(a: u64, b: u64) -> Rational {
    if b == 0 {
        Rational { num: 0, den: 1 }
    } else {
        Rational { num: a as u128, den: b }
    }
}

proof fn lemma_sum_bound(s: Seq<u64>)
    ensures
        0 <= sum_of(s) <= s.len() * u64::MAX,
    decreases s.len(),
{
    if s.len() > 0 {
        lemma_sum_bound(s.drop_last());
        assert((s.len() - 1) * u64::MAX + u64::MAX == s.len() * u64::MAX) by (nonlinear_arith);
    }
}

proof fn lemma_count_bound(s: Seq<u64>, t: u64)
    ensures
        count_at_least_spec(s, t) <= s.len(),
    decreases s.len(),
{
    if s.len() > 0 {
        lemma_count_bound(s.drop_last(), t);
    }
}

proof fn lemma_sort_asc_len(s: Seq<u64>)
    ensures
        sort_asc(s).len() == s.len(),
    decreases s.len(),
{
    if s.len() > 0 {
        lemma_sort_asc_len(s.drop_last());
        lemma_insert_asc_pos_bound(sort_asc(s.drop_last()), s.last());
    }
}

proof fn lemma_insert_asc_pos_bound(s: Seq<u64>, x: u64)
    ensures
        insert_asc_pos(s, x) <= s.len(),
    decreases s.len(),
{
    if s.len() > 0 {
        lemma_insert_asc_pos_bound(s.drop_first(), x);
    }
}

/// `Count` of a conditional projection: how many values are at least `t`.
pub fn count_at_least(v: &Vec<u64>, t: u64) -> (r: u64)
    ensures
        r == count_at_least_spec(v@, t),
{
    let mut c: u64 = 0;
    let mut i: usize = 0;
    while i < v.len()
        invariant
            i <= v.len(),
            c == count_at_least_spec(v@.take(i as int), t),
        decreases v.len() - i,
    {
        assert(v@.take(i + 1).drop_last() =~= v@.take(i as int));
        proof {
            lemma_count_bound(v@.take(i as int), t);
        }
        if v[i] >= t {
            c = c + 1;
        }
        i = i + 1;
    }
    assert(v@.take(v.len() as int) =~= v@);
    c
}

/// `Sum` of the values.
pub fn sum(v: &Vec<u64>) -> (r: u128)
    ensures
        r == sum_of(v@),
{
    let mut total: u128 = 0;
    let mut i: usize = 0;
    while i < v.len()
        invariant
            i <= v.len(),
            total == sum_of(v@.take(i as int)),
        decreases v.len() - i,
    {
        assert(v@.take(i + 1).drop_last() =~= v@.take(i as int));
        proof {
            lemma_sum_bound(v@.take(i + 1));
            assert((i + 1) * u64::MAX <= u64::MAX * u64::MAX + u64::MAX) by (nonlinear_arith)
                requires
                    i + 1 <= u64::MAX + 1,
            ;
        }
        total = total + v[i] as u128;
        i = i + 1;
    }
    assert(v@.take(v.len() as int) =~= v@);
    total
}

/// `Mean` of the values, exact; 0 over an empty collection.
pub fn mean(v: &Vec<u64>) -> (r: Rational)
    ensures
        r.wf(),
        r == mean_spec(v@),
        v@.len() == 0 ==> r.num == 0,
{
    if v.len() == 0 {
        Rational::zero()
    } else {
        let s = sum(v);
        Rational::new(s, v.len() as u64)
    }
}

/// The values in ascending order.
pub fn sorted_values(v: &Vec<u64>) -> (r: Vec<u64>)
    ensures
        r@ == sort_asc(v@),
{
    let mut out: Vec<u64> = Vec::new();
    let mut i: usize = 0;
    while i < v.len()
        invariant
            i <= v.len(),
            out@ == sort_asc(v@.take(i as int)),
        decreases v.len() - i,
    {
        assert(v@.take(i + 1).drop_last() =~= v@.take(i as int));
        let x = v[i];
        let mut p: usize = 0;
        assert(out@.skip(0) =~= out@);
        while p < out.len() && out[p] <= x
            invariant
                p <= out.len(),
                p + insert_asc_pos(out@.skip(p as int), x) == insert_asc_pos(out@, x),
            decreases out.len() - p,
        {
            assert(out@.skip(p as int).drop_first() =~= out@.skip(p + 1));
            p = p + 1;
        }
        proof {
            if p < out.len() {
                assert(out@.skip(p as int)[0] == out@[p as int]);
            }
        }
        out.insert(p, x);
        i = i + 1;
    }
    assert(v@.take(v.len() as int) =~= v@);
    out
}

/// `Median` of the values, exact; 0 over an empty collection.
pub fn median(v: &Vec<u64>) -> (r: Rational)
    ensures
        r.wf(),
        r == median_spec(v@),
        v@.len() == 0 ==> r.num == 0,
{
    let t = sorted_values(v);
    proof {
        lemma_sort_asc_len(v@);
    }
    let n = t.len();
    if n == 0 {
        Rational::zero()
    } else if n % 2 == 1 {
        Rational::from_int(t[n / 2] as u128)
    } else {
        Rational::new(t[n / 2 - 1] as u128 + t[n / 2] as u128, 2)
    }
}

/// `Ratio` of two counts, exact; 0 when the denominator is 0.
pub fn ratio(a: u64, b: u64) -> (r: Rational)
    ensures
        r.wf(),
        r == ratio_spec(a, b),
{
    if b == 0 {
        Rational::zero()
    } else {
        Rational::new(a as u128, b)
    }
}

/// A ratio is compared with a threshold exactly: `a / b >= t` holds just
/// when `a * t.den >= t.num * b`, with no rounding on either side.
pub proof fn lemma_ratio_compares_exactly(a: u64, b: u64, t: Rational)
    requires
        b > 0,
    ensures
        ratio_spec(a, b).ge_spec(t) <==> a * t.den >= t.num * b,
        ratio_spec(a, b).same_value(t) <==> a * t.den == t.num * b,
{
}

} // verus!
