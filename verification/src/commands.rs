use vstd::prelude::*;
use crate::aggregate::{
    balance_cents, cent_bound, day_in, group_by_day, key_grouped, key_sum, sum_cents, DayGroup,
};
use crate::clock::{
    civil_wf, date_key_spec, date_seq, datetime_seq, day_wf, local_civil_of, now_epoch_seconds,
    render_civil, render_day, Civil, CivilDay, TS_MAX, TS_MIN,
};
use crate::errors::LedgerError;
use crate::numerals::{cents_seq, format_cents};
use crate::records::{encode_line, line_seq, parse_line, spec_parse_line, Transaction};
use vstd::arithmetic::mul::lemma_mul_inequality;

verus! {

/// The record a well-formed line denotes.
pub open spec fn rec_at(l: Seq<char>) -> Transaction {
    let pair = spec_parse_line(l)->Some_0;
    Transaction { time: pair.0 as i64, cents: pair.1 as i64 }
}

/// The records of a bucket's lines, in file order.
pub open spec fn recs_of(ls: Seq<String>) -> Seq<Transaction> {
    Seq::new(ls.len(), |i: int| rec_at(ls[i]@))
}

/// The amounts of a bucket's lines, in file order.
pub open spec fn cents_of(ls: Seq<String>) -> Seq<i64> {
    Seq::new(ls.len(), |i: int| rec_at(ls[i]@).cents)
}

/// Whether a fail-fast scan accepts the line: it parses as a record and its
/// timestamp maps to a calendar moment.
pub open spec fn line_renderable(l: Seq<char>) -> bool {
    match spec_parse_line(l) {
        Some(pair) => TS_MIN <= pair.0 <= TS_MAX,
        None => false,
    }
}

/// The full balance report: the tolerant sum with two decimals, one line.
pub fn balance_output(lines: &Vec<String>) -> (out: String)
    ensures
        out@ == cents_seq(sum_cents(lines@)) + seq!['\n'],
{
    let n = lines.len();
    let total = balance_cents(lines);
    proof {
        assert(n as int == lines@.len());
        lemma_mul_inequality(n as int, usize::MAX as int, cent_bound());
    }
    let mut out = format_cents(total);
    proof {
        reveal_strlit("\n");
    }
    out.append("\n");
    proof {
        assert(out@ =~= cents_seq(sum_cents(lines@)) + seq!['\n']);
    }
    out
}

/// Reads every line of a bucket as a record, failing fast on the first line
/// that is none.
pub fn parse_all(lines: &Vec<String>) -> (r: Result<Vec<Transaction>, LedgerError>)
    ensures
        match r {
            Ok(v) => v@.len() == lines@.len() && forall|i: int|
                0 <= i < lines@.len() ==> spec_parse_line((#[trigger] lines@[i])@) == Some(
                    (v@[i].time as int, v@[i].cents as int),
                ),
            Err(e) => e is MalformedRecord && exists|i: int|
                0 <= i < lines@.len() && spec_parse_line((#[trigger] lines@[i])@) is None,
        },
{
    let mut v: Vec<Transaction> = Vec::new();
    let mut i: usize = 0;
    while i < lines.len()
        invariant
            0 <= i <= lines@.len(),
            v@.len() == i,
            forall|m: int|
                0 <= m < i ==> spec_parse_line((#[trigger] lines@[m])@) == Some(
                    (v@[m].time as int, v@[m].cents as int),
                ),
        decreases lines@.len() - i,
    {
        match parse_line(lines[i].as_str()) {
            Some(tr) => {
                v.push(tr);
            },
            None => {
                return Err(LedgerError::MalformedRecord);
            },
        }
        i = i + 1;
    }
    Ok(v)
}

/// The transaction report of given moments and records: one line per record,
/// in file order, `YYYY-MM-DD HH:MM:SS` then the amount with two decimals.
pub open spec fn render_txs(civs: Seq<Civil>, recs: Seq<Transaction>) -> Seq<char>
    decreases recs.len(),
{
    if civs.len() == 0 || recs.len() == 0 {
        Seq::empty()
    } else {
        render_txs(civs.drop_last(), recs.drop_last()) + datetime_seq(civs.last()) + seq![' ']
            + cents_seq(recs.last().cents as int) + seq!['\n']
    }
}

/// The full transaction report: every record on its own line, in append
/// order, timestamps shown in the local time zone.
pub fn transactions_output(lines: &Vec<String>) -> (r: Result<String, LedgerError>)
    ensures
        r is Ok <==> (forall|i: int|
            0 <= i < lines@.len() ==> line_renderable((#[trigger] lines@[i])@)),
        r matches Err(e) ==> e is MalformedRecord,
        r matches Ok(out) ==> exists|civs: Seq<Civil>|
            civs.len() == lines@.len() && (forall|m: int|
                0 <= m < civs.len() ==> civil_wf(#[trigger] civs[m])) && out@ == render_txs(
                civs,
                recs_of(lines@),
            ),
{
    let recs = match parse_all(lines) {
        Ok(v) => v,
        Err(e) => {
            return Err(e);
        },
    };
    let mut out = String::new();
    let ghost mut civs: Seq<Civil> = Seq::empty();
    let mut i: usize = 0;
    proof {
        reveal_strlit(" ");
        reveal_strlit("\n");
    }
    while i < recs.len()
        invariant
            0 <= i <= recs@.len(),
            recs@.len() == lines@.len(),
            forall|m: int|
                0 <= m < lines@.len() ==> spec_parse_line((#[trigger] lines@[m])@) == Some(
                    (recs@[m].time as int, recs@[m].cents as int),
                ),
            civs.len() == i,
            forall|m: int| 0 <= m < i ==> civil_wf(#[trigger] civs[m]),
            forall|m: int| 0 <= m < i ==> line_renderable((#[trigger] lines@[m])@),
            out@ == render_txs(civs, recs@.subrange(0, i as int)),
            " "@ == seq![' '] && "\n"@ == seq!['\n'],
        decreases recs@.len() - i,
    {
        let t = recs[i].time;
        if t < TS_MIN || t > TS_MAX {
            proof {
                assert(!line_renderable(lines@[i as int]@));
            }
            return Err(LedgerError::MalformedRecord);
        }
        let civ = local_civil_of(t);
        let piece = render_civil(&civ);
        out.append(piece.as_str());
        out.append(" ");
        let amount = format_cents(recs[i].cents as i128);
        out.append(amount.as_str());
        out.append("\n");
        proof {
            let pre = recs@.subrange(0, i + 1);
            assert(pre.drop_last() =~= recs@.subrange(0, i as int));
            assert(pre.last() == recs@[i as int]);
            let prev = civs;
            civs = civs.push(civ);
            assert(civs.drop_last() =~= prev);
            assert(civs.last() == civ);
            assert(out@ =~= render_txs(civs, pre));
        }
        i = i + 1;
    }
    proof {
        assert(recs@.subrange(0, recs@.len() as int) =~= recs@);
        assert(recs@ =~= recs_of(lines@));
    }
    Ok(out)
}

/// The per-day report of given groups: `YYYY-MM-DD: ` then the day's sum
/// with two decimals, one line per group, in the groups' order.
pub open spec fn render_groups(g: Seq<DayGroup>) -> Seq<char>
    decreases g.len(),
{
    if g.len() == 0 {
        Seq::empty()
    } else {
        render_groups(g.drop_last()) + date_seq(g.last().date) + seq![':', ' '] + cents_seq(
            g.last().sum as int,
        ) + seq!['\n']
    }
}

/// What a per-day report states for its inputs: `days` are well-formed local
/// dates, one per record, and `g` groups them with one entry per distinct
/// date, ascending, each carrying that date's own sum; `out` renders `g`.
pub open spec fn delta_groups_ok(days: Seq<CivilDay>, g: Seq<DayGroup>, lines: Seq<String>) -> bool {
    days.len() == lines.len() && (forall|m: int| 0 <= m < days.len() ==> day_wf(#[trigger] days[m]))
        && (forall|p: int, q: int|
        0 <= p < q < g.len() ==> date_key_spec(g[p].date) < date_key_spec(g[q].date)) && (forall|
        p: int,
    |
        0 <= p < g.len() ==> (#[trigger] g[p]).sum as int == key_sum(
            days,
            cents_of(lines),
            date_key_spec(g[p].date),
        )) && (forall|p: int| 0 <= p < g.len() ==> day_in(days, (#[trigger] g[p]).date)) && (forall|
        i: int,
    |
        0 <= i < days.len() ==> key_grouped(g, date_key_spec(#[trigger] days[i])))
}

/// What a per-day report states, with its rendering.
pub open spec fn delta_report_ok(
    days: Seq<CivilDay>,
    g: Seq<DayGroup>,
    lines: Seq<String>,
    out: Seq<char>,
) -> bool {
    delta_groups_ok(days, g, lines) && out == render_groups(g)
}

/// Whether `out` is a per-day report of `lines`, for some reading of the
/// records' timestamps as local dates.
pub open spec fn delta_output_ok(lines: Seq<String>, out: Seq<char>) -> bool {
    exists|days: Seq<CivilDay>, g: Seq<DayGroup>|
        #[trigger] delta_report_ok(days, g, lines, out)
}

/// The full per-day report: one line per distinct local calendar date, in
/// ascending date order, each the sum of that date's own records.
#[verifier::rlimit(100)]
pub fn delta_output(lines: &Vec<String>) -> (r: Result<String, LedgerError>)
    ensures
        r is Ok <==> (forall|i: int|
            0 <= i < lines@.len() ==> line_renderable((#[trigger] lines@[i])@)),
        r matches Err(e) ==> e is MalformedRecord,
        r matches Ok(out) ==> delta_output_ok(lines@, out@),
{
    let recs = match parse_all(lines) {
        Ok(v) => v,
        Err(e) => {
            return Err(e);
        },
    };
    let mut days: Vec<CivilDay> = Vec::new();
    let mut cents: Vec<i64> = Vec::new();
    let mut i: usize = 0;
    while i < recs.len()
        invariant
            0 <= i <= recs@.len(),
            recs@.len() == lines@.len(),
            forall|m: int|
                0 <= m < lines@.len() ==> spec_parse_line((#[trigger] lines@[m])@) == Some(
                    (recs@[m].time as int, recs@[m].cents as int),
                ),
            days@.len() == i,
            cents@.len() == i,
            forall|m: int| 0 <= m < i ==> day_wf(#[trigger] days@[m]),
            forall|m: int| 0 <= m < i ==> #[trigger] cents@[m] == recs@[m].cents,
            forall|m: int| 0 <= m < i ==> line_renderable((#[trigger] lines@[m])@),
        decreases recs@.len() - i,
    {
        let t = recs[i].time;
        if t < TS_MIN || t > TS_MAX {
            proof {
                assert(!line_renderable(lines@[i as int]@));
            }
            return Err(LedgerError::MalformedRecord);
        }
        let civ = local_civil_of(t);
        days.push(civ.date);
        cents.push(recs[i].cents);
        i = i + 1;
    }
    let g = group_by_day(&days, &cents);
    proof {
        assert(cents@ =~= cents_of(lines@));
        assert(delta_groups_ok(days@, g@, lines@));
    }
    let dn = days.len();
    let mut out = String::new();
    let mut p: usize = 0;
    proof {
        reveal_strlit(": ");
        reveal_strlit("\n");
        assert(cents@ =~= cents_of(lines@));
    }
    while p < g.len()
        invariant
            0 <= p <= g@.len(),
            dn as int == days@.len(),
            delta_groups_ok(days@, g@, lines@),
            forall|m: int| 0 <= m < g@.len() ==> day_wf((#[trigger] g@[m]).date),
            forall|m: int|
                0 <= m < g@.len() ==> -(days@.len() as int) * cent_bound() <= (
                #[trigger] g@[m]).sum as int <= (days@.len() as int) * cent_bound(),
            out@ == render_groups(g@.subrange(0, p as int)),
            ": "@ == seq![':', ' '] && "\n"@ == seq!['\n'],
        decreases g@.len() - p,
    {
        proof {
            assert(dn as int == days@.len());
            lemma_mul_inequality(dn as int, usize::MAX as int, cent_bound());
        }
        let piece = render_day(&g[p].date);
        out.append(piece.as_str());
        out.append(": ");
        let amount = format_cents(g[p].sum);
        out.append(amount.as_str());
        out.append("\n");
        proof {
            let pre = g@.subrange(0, p + 1);
            assert(pre.drop_last() =~= g@.subrange(0, p as int));
            assert(pre.last() == g@[p as int]);
            assert(out@ =~= render_groups(pre));
        }
        p = p + 1;
    }
    proof {
        assert(g@.subrange(0, g@.len() as int) =~= g@);
        assert(delta_report_ok(days@, g@, lines@, out@));
        assert(delta_output_ok(lines@, out@));
    }
    Ok(out)
}

/// Whether a directory entry's name is a bucket file's: it ends in `.jsonl`
/// with a non-empty stem before it.
pub open spec fn is_bucket_file(name: Seq<char>) -> bool {
    name.len() >= 7 && name.subrange(name.len() - 6, name.len() as int) == seq![
        '.',
        'j',
        's',
        'o',
        'n',
        'l',
    ]
}

/// The listing of the data directory: the stem of every bucket file, one
/// per line, in the entries' order.
pub open spec fn list_seq(es: Seq<String>) -> Seq<char>
    decreases es.len(),
{
    if es.len() == 0 {
        Seq::empty()
    } else {
        list_seq(es.drop_last()) + (if is_bucket_file(es.last()@) {
            es.last()@.subrange(0, es.last()@.len() - 6) + seq!['\n']
        } else {
            Seq::empty()
        })
    }
}

/// The full bucket listing for given directory entries.
pub fn list_output(entries: &Vec<String>) -> (out: String)
    ensures
        out@ == list_seq(entries@),
{
    let mut out = String::new();
    let mut i: usize = 0;
    proof {
        reveal_strlit("\n");
    }
    while i < entries.len()
        invariant
            0 <= i <= entries@.len(),
            out@ == list_seq(entries@.subrange(0, i as int)),
            "\n"@ == seq!['\n'],
        decreases entries@.len() - i,
    {
        let e = &entries[i];
        let n = e.as_str().unicode_len();
        let mut take = false;
        if n >= 7 {
            let ok = e.as_str().get_char(n - 6) == '.' && e.as_str().get_char(n - 5) == 'j'
                && e.as_str().get_char(n - 4) == 's' && e.as_str().get_char(n - 3) == 'o'
                && e.as_str().get_char(n - 2) == 'n' && e.as_str().get_char(n - 1) == 'l';
            if ok {
                proof {
                    assert(e@.subrange(e@.len() - 6, e@.len() as int) =~= seq![
                        '.',
                        'j',
                        's',
                        'o',
                        'n',
                        'l',
                    ]);
                }
                take = true;
            } else {
                proof {
                    let tail = e@.subrange(e@.len() - 6, e@.len() as int);
                    assert(forall|m: int| 0 <= m < 6 ==> #[trigger] tail[m] == e@[e@.len() - 6 + m]);
                }
            }
        }
        if take {
            let stem = e.as_str().substring_char(0, n - 6);
            out.append(stem);
            out.append("\n");
        }
        proof {
            let pre = entries@.subrange(0, i + 1);
            assert(pre.drop_last() =~= entries@.subrange(0, i as int));
            assert(pre.last() == entries@[i as int]);
            assert(out@ =~= list_seq(pre));
        }
        i = i + 1;
    }
    proof {
        assert(entries@.subrange(0, entries@.len() as int) =~= entries@);
    }
    out
}

/// Law: a bucket holds nothing right after `init`, so its balance report
/// reads zero: the tolerant sum of no lines is nothing, and prints as
/// `0.00`. With `init_check`, which admits every valid name, this holds of
/// every bucket a valid name created.
pub proof fn lemma_fresh_bucket_balance()
    ensures
        sum_cents(Seq::<String>::empty()) == 0,
        cents_seq(sum_cents(Seq::<String>::empty())) == "0.00"@,
{
    reveal_strlit("0.00");
    assert(crate::numerals::dec_u(0) == seq!['0']);
    assert(cents_seq(0) =~= "0.00"@);
}

/// Builds the stored line for a new record: the amount with the clock's
/// current moment. The caller appends it, with a newline, to the bucket.
pub fn add_line(cents: i64) -> (line: String)
    ensures
        exists|t: int| i64::MIN <= t <= i64::MAX && line@ == line_seq(t, cents as int),
{
    let t = now_epoch_seconds();
    let line = encode_line(t, cents);
    proof {
        assert(line@ == line_seq(t as int, cents as int));
    }
    line
}

} // verus!
