use vstd::prelude::*;
use crate::clock::{CivilDay, date_key, date_key_spec};
use crate::records::{line_cents_or_zero, parse_line};
use vstd::arithmetic::mul::lemma_mul_inequality;

verus! {

/// One bound on every stored amount: `2^63`, past `|i64|`.
pub open spec fn cent_bound() -> int {
    0x8000_0000_0000_0000
}

/// The tolerant sum of a bucket's lines: every well-formed record line
/// contributes its amount, every other line contributes nothing.
pub open spec fn sum_cents(ls: Seq<String>) -> int
    decreases ls.len(),
{
    if ls.len() == 0 {
        0
    } else {
        sum_cents(ls.drop_last()) + line_cents_or_zero(ls.last()@)
    }
}

/// Sums a bucket's lines tolerantly, skipping what does not parse.
pub fn balance_cents(lines: &Vec<String>) -> (total: i128)
    ensures
        total as int == sum_cents(lines@),
        -(lines@.len() as int) * cent_bound() <= total as int <= (lines@.len() as int)
            * cent_bound(),
{
    let mut total: i128 = 0;
    let mut i: usize = 0;
    while i < lines.len()
        invariant
            0 <= i <= lines@.len(),
            total as int == sum_cents(lines@.subrange(0, i as int)),
            -(i as int) * cent_bound() <= total as int <= (i as int) * cent_bound(),
        decreases lines@.len() - i,
    {
        let c: i64 = match parse_line(lines[i].as_str()) {
            Some(tr) => tr.cents,
            None => 0,
        };
        proof {
            assert(lines@.subrange(0, i + 1).drop_last() =~= lines@.subrange(0, i as int));
            assert(lines@.subrange(0, i + 1).last() == lines@[i as int]);
            assert(c as int == line_cents_or_zero(lines@[i as int]@));
            lemma_mul_inequality(i + 1, usize::MAX as int, cent_bound());
            assert((i + 1) * cent_bound() == i * cent_bound() + cent_bound());
        }
        total = total + (c as i128);
        i = i + 1;
    }
    proof {
        assert(lines@.subrange(0, lines@.len() as int) =~= lines@);
    }
    total
}

/// One date's share of a bucket: the sum of the amounts recorded on the
/// date whose order key is `k`.
pub open spec fn key_sum(days: Seq<CivilDay>, cents: Seq<i64>, k: int) -> int
    decreases days.len(),
{
    if days.len() == 0 || cents.len() == 0 {
        0
    } else {
        key_sum(days.drop_last(), cents.drop_last(), k) + (if date_key_spec(days.last()) == k {
            cents.last() as int
        } else {
            0
        })
    }
}

/// Whether some record of `days` falls on the date with order key `k`.
pub open spec fn key_in_days(days: Seq<CivilDay>, k: int) -> bool {
    exists|i: int| 0 <= i < days.len() && date_key_spec(#[trigger] days[i]) == k
}

/// Whether `ks` lists the key `k`.
pub open spec fn key_listed(ks: Seq<i64>, k: int) -> bool {
    exists|p: int| 0 <= p < ks.len() && #[trigger] ks[p] as int == k
}

/// Whether `d` is one of the dates of `days`.
pub open spec fn day_in(days: Seq<CivilDay>, d: CivilDay) -> bool {
    exists|i: int| 0 <= i < days.len() && #[trigger] days[i] == d
}

/// Whether some group of `g` carries the date with order key `k`.
pub open spec fn key_grouped(g: Seq<DayGroup>, k: int) -> bool {
    exists|p: int| 0 <= p < g.len() && date_key_spec(#[trigger] g[p].date) == k
}

/// Collects the distinct date keys of `days`, in ascending order.
fn sorted_keys(days: &Vec<CivilDay>) -> (ks: Vec<i64>)
    ensures
        forall|p: int, q: int| 0 <= p < q < ks@.len() ==> ks@[p] < ks@[q],
        forall|p: int| 0 <= p < ks@.len() ==> key_in_days(days@, #[trigger] ks@[p] as int),
        forall|i: int| 0 <= i < days@.len() ==> key_listed(ks@, date_key_spec(#[trigger] days@[i])),
{
    let mut ks: Vec<i64> = Vec::new();
    let mut i: usize = 0;
    while i < days.len()
        invariant
            0 <= i <= days@.len(),
            forall|p: int, q: int| 0 <= p < q < ks@.len() ==> ks@[p] < ks@[q],
            forall|p: int| 0 <= p < ks@.len() ==> key_in_days(days@, #[trigger] ks@[p] as int),
            forall|ii: int| 0 <= ii < i ==> key_listed(ks@, date_key_spec(#[trigger] days@[ii])),
        decreases days@.len() - i,
    {
        let k = date_key(&days[i]);
        let mut pos: usize = 0;
        while pos < ks.len() && ks[pos] < k
            invariant
                0 <= pos <= ks@.len(),
                forall|m: int| 0 <= m < pos ==> ks@[m] < k,
                forall|p: int, q: int| 0 <= p < q < ks@.len() ==> ks@[p] < ks@[q],
            decreases ks@.len() - pos,
        {
            pos = pos + 1;
        }
        if pos < ks.len() && ks[pos] == k {
            proof {
                assert(ks@[pos as int] as int == date_key_spec(days@[i as int]));
                assert(key_listed(ks@, date_key_spec(days@[i as int])));
            }
            i = i + 1;
            continue ;
        }
        let ghost old_ks = ks@;
        ks.insert(pos, k);
        proof {
            assert(forall|m: int| 0 <= m < pos ==> ks@[m] == old_ks[m]);
            assert(ks@[pos as int] == k);
            assert(forall|m: int| pos < m < ks@.len() ==> ks@[m] == old_ks[m - 1]);
            assert(forall|m: int| pos < m < ks@.len() ==> ks@[m] > k) by {
                if pos < old_ks.len() {
                    assert(old_ks[pos as int] >= k);
                    assert(old_ks[pos as int] != k);
                }
            }
            assert(forall|p: int, q: int| 0 <= p < q < ks@.len() ==> ks@[p] < ks@[q]);
            assert(key_listed(ks@, date_key_spec(days@[i as int]))) by {
                assert(ks@[pos as int] as int == date_key_spec(days@[i as int]));
            }
            assert forall|ii: int| 0 <= ii < i implies key_listed(
                ks@,
                date_key_spec(#[trigger] days@[ii]),
            ) by {
                let kk = date_key_spec(days@[ii]);
                let pp = choose|pp: int| 0 <= pp < old_ks.len() && #[trigger] old_ks[pp] as int
                    == kk;
                if pp < pos {
                    assert(ks@[pp] == old_ks[pp]);
                } else {
                    assert(ks@[pp + 1] == old_ks[pp]);
                }
            }
        }
        i = i + 1;
    }
    ks
}

/// Sums the amounts recorded on the date whose order key is `k`.
fn key_total(days: &Vec<CivilDay>, cents: &Vec<i64>, k: i64) -> (t: i128)
    requires
        days@.len() == cents@.len(),
    ensures
        t as int == key_sum(days@, cents@, k as int),
        -(days@.len() as int) * cent_bound() <= t as int <= (days@.len() as int) * cent_bound(),
{
    let mut t: i128 = 0;
    let mut i: usize = 0;
    while i < days.len()
        invariant
            0 <= i <= days@.len(),
            days@.len() == cents@.len(),
            t as int == key_sum(days@.subrange(0, i as int), cents@.subrange(0, i as int), k as int),
            -(i as int) * cent_bound() <= t as int <= (i as int) * cent_bound(),
        decreases days@.len() - i,
    {
        proof {
            assert(days@.subrange(0, i + 1).drop_last() =~= days@.subrange(0, i as int));
            assert(cents@.subrange(0, i + 1).drop_last() =~= cents@.subrange(0, i as int));
            assert(days@.subrange(0, i + 1).last() == days@[i as int]);
            assert(cents@.subrange(0, i + 1).last() == cents@[i as int]);
            lemma_mul_inequality(i + 1, usize::MAX as int, cent_bound());
            assert((i + 1) * cent_bound() == i * cent_bound() + cent_bound());
        }
        if date_key(&days[i]) == k {
            let c = cents[i];
            t = t + (c as i128);
        }
        i = i + 1;
    }
    proof {
        assert(days@.subrange(0, days@.len() as int) =~= days@);
        assert(cents@.subrange(0, cents@.len() as int) =~= cents@);
    }
    t
}

/// Picks the first date of `days` whose order key is `k`.
fn first_day_with_key(days: &Vec<CivilDay>, k: i64) -> (d: CivilDay)
    requires
        key_in_days(days@, k as int),
    ensures
        day_in(days@, d),
        date_key_spec(d) == k as int,
{
    let mut i: usize = 0;
    while i < days.len()
        invariant
            0 <= i <= days@.len(),
            key_in_days(days@, k as int),
            forall|m: int| 0 <= m < i ==> date_key_spec(#[trigger] days@[m]) != k as int,
        decreases days@.len() - i,
    {
        if date_key(&days[i]) == k {
            return days[i];
        }
        i = i + 1;
    }
    proof {
        assert(false);
    }
    unreached()
}

/// One line of the per-day report: a date and what its records add to.
pub struct DayGroup {
    pub date: CivilDay,
    pub sum: i128,
}

/// Groups records by their local calendar date. The result has one entry
/// per distinct date, in ascending date order, each carrying that date's
/// own sum; no other date appears.
pub fn group_by_day(days: &Vec<CivilDay>, cents: &Vec<i64>) -> (g: Vec<DayGroup>)
    requires
        days@.len() == cents@.len(),
    ensures
        forall|p: int, q: int|
            0 <= p < q < g@.len() ==> date_key_spec(g@[p].date) < date_key_spec(g@[q].date),
        forall|p: int|
            0 <= p < g@.len() ==> g@[p].sum as int == key_sum(
                days@,
                cents@,
                date_key_spec(#[trigger] g@[p].date),
            ),
        forall|p: int| 0 <= p < g@.len() ==> day_in(days@, #[trigger] g@[p].date),
        forall|i: int| 0 <= i < days@.len() ==> key_grouped(g@, date_key_spec(#[trigger] days@[i])),
        forall|p: int|
            0 <= p < g@.len() ==> -(days@.len() as int) * cent_bound() <= (#[trigger] g@[p]).sum as int
                <= (days@.len() as int) * cent_bound(),
{
    let ks = sorted_keys(days);
    let mut g: Vec<DayGroup> = Vec::new();
    let mut p: usize = 0;
    while p < ks.len()
        invariant
            0 <= p <= ks@.len(),
            g@.len() == p,
            days@.len() == cents@.len(),
            forall|m: int, q: int| 0 <= m < q < ks@.len() ==> ks@[m] < ks@[q],
            forall|m: int| 0 <= m < ks@.len() ==> key_in_days(days@, #[trigger] ks@[m] as int),
            forall|i: int| 0 <= i < days@.len() ==> key_listed(ks@, date_key_spec(#[trigger] days@[i])),
            forall|m: int| 0 <= m < p ==> date_key_spec(#[trigger] g@[m].date) == ks@[m] as int,
            forall|m: int|
                0 <= m < p ==> g@[m].sum as int == key_sum(
                    days@,
                    cents@,
                    date_key_spec(#[trigger] g@[m].date),
                ),
            forall|m: int| 0 <= m < p ==> day_in(days@, #[trigger] g@[m].date),
            forall|m: int|
                0 <= m < p ==> -(days@.len() as int) * cent_bound() <= (#[trigger] g@[m]).sum as int
                    <= (days@.len() as int) * cent_bound(),
        decreases ks@.len() - p,
    {
        let k = ks[p];
        let day = first_day_with_key(days, k);
        let total = key_total(days, cents, k);
        g.push(DayGroup { date: day, sum: total });
        p = p + 1;
    }
    proof {
        assert forall|i: int| 0 <= i < days@.len() implies key_grouped(
            g@,
            date_key_spec(#[trigger] days@[i]),
        ) by {
            let kk = date_key_spec(days@[i]);
            let m = choose|m: int| 0 <= m < ks@.len() && #[trigger] ks@[m] as int == kk;
            assert(date_key_spec(g@[m].date) == ks@[m] as int);
        }
    }
    g
}

} // verus!
