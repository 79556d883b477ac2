use vstd::prelude::*;

verus! {

pub const NEWLINE: u8 = 10;

/// The decimal digits of `n`, most significant first, in ASCII.
pub open spec fn digits(n: nat) -> Seq<u8>
    decreases n,
{
    if n < 10 {
        seq![(48 + n) as u8]
    } else {
        digits(n / 10).push((48 + n % 10) as u8)
    }
}

/// One line per value: its digits, then a newline.
pub open spec fn rows(values: Seq<u64>) -> Seq<u8>
    decreases values.len(),
{
    if values.len() == 0 {
        Seq::empty()
    } else {
        rows(values.drop_last()) + digits(values.last() as nat).push(NEWLINE)
    }
}

/// A header line naming the exported field, then one row per value.
pub open spec fn csv_spec(header: Seq<u8>, values: Seq<u64>) -> Seq<u8> {
    header.push(NEWLINE) + rows(values)
}

/// How many times `b` occurs in `s`.
pub open spec fn count_byte(s: Seq<u8>, b: u8) -> nat
    decreases s.len(),
{
    if s.len() == 0 {
        0
    } else {
        count_byte(s.drop_last(), b) + if s.last() == b {
            1nat
        } else {
            0nat
        }
    }
}

fn push_digits(out: &mut Vec<u8>, n: u64)
    ensures
        final(out)@ == old(out)@ + digits(n as nat),
    decreases n,
{
    if n >= 10 {
        push_digits(out, n / 10);
    }
    out.push(48 + (n % 10) as u8);
    proof {
        if n < 10 {
            assert(old(out)@ + digits(n as nat) =~= old(out)@.push((48 + n) as u8));
        } else {
            assert(old(out)@ + digits(n as nat) =~= (old(out)@ + digits((n / 10) as nat)).push(
                (48 + n % 10) as u8,
            ));
        }
    }
}

/// Renders `values` as a row-oriented file: the header line, then one line
/// per value in order.
pub fn render_csv(header: &Vec<u8>, values: &Vec<u64>) -> (r: Vec<u8>)
    ensures
        r@ == csv_spec(header@, values@),
{
    let mut out: Vec<u8> = Vec::new();
    let mut i: usize = 0;
    while i < header.len()
        invariant
            i <= header.len(),
            out@ == header@.take(i as int),
        decreases header.len() - i,
    {
        assert(header@.take(i + 1) =~= header@.take(i as int).push(header@[i as int]));
        out.push(header[i]);
        i = i + 1;
    }
    assert(header@.take(i as int) =~= header@);
    out.push(NEWLINE);
    let mut j: usize = 0;
    while j < values.len()
        invariant
            j <= values.len(),
            out@ == header@.push(NEWLINE) + rows(values@.take(j as int)),
        decreases values.len() - j,
    {
        assert(values@.take(j + 1).drop_last() =~= values@.take(j as int));
        let ghost before = out@;
        push_digits(&mut out, values[j]);
        out.push(NEWLINE);
        assert(out@ =~= header@.push(NEWLINE) + rows(values@.take(j + 1)));
        j = j + 1;
    }
    assert(values@.take(j as int) =~= values@);
    out
}

proof fn lemma_count_concat(a: Seq<u8>, b: Seq<u8>, x: u8)
    ensures
        count_byte(a + b, x) == count_byte(a, x) + count_byte(b, x),
    decreases b.len(),
{
    if b.len() == 0 {
        assert(a + b =~= a);
    } else {
        assert((a + b).drop_last() =~= a + b.drop_last());
        lemma_count_concat(a, b.drop_last(), x);
    }
}

proof fn lemma_digits_no_newline(n: nat)
    ensures
        count_byte(digits(n), NEWLINE) == 0,
    decreases n,
{
    if n < 10 {
        assert(digits(n).drop_last() =~= Seq::<u8>::empty());
        assert(count_byte(Seq::<u8>::empty(), NEWLINE) == 0);
        assert(digits(n).last() == (48 + n) as u8);
    } else {
        lemma_digits_no_newline(n / 10);
        assert(digits(n).drop_last() =~= digits(n / 10));
        assert(0 <= n % 10 < 10);
        assert(digits(n).last() == (48 + n % 10) as u8);
    }
}

proof fn lemma_rows_lines(values: Seq<u64>)
    ensures
        count_byte(rows(values), NEWLINE) == values.len(),
    decreases values.len(),
{
    if values.len() > 0 {
        lemma_rows_lines(values.drop_last());
        let d = digits(values.last() as nat);
        lemma_digits_no_newline(values.last() as nat);
        assert(d.push(NEWLINE).drop_last() =~= d);
        lemma_count_concat(rows(values.drop_last()), d.push(NEWLINE), NEWLINE);
    }
}

/// Exporting `n` values writes exactly `n + 1` lines: one header line and
/// one data line per value.
pub proof fn lemma_csv_line_count(header: Seq<u8>, values: Seq<u64>)
    requires
        count_byte(header, NEWLINE) == 0,
    ensures
        count_byte(csv_spec(header, values), NEWLINE) == values.len() + 1,
{
    assert(header.push(NEWLINE).drop_last() =~= header);
    lemma_rows_lines(values);
    lemma_count_concat(header.push(NEWLINE), rows(values), NEWLINE);
}

} // verus!
