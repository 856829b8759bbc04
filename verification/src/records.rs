use vstd::prelude::*;
use crate::numerals::{abs_int, cents_seq, dec_u, digit_char, pow10, two_digits};

verus! {

/// One ledger entry: when it was appended and the signed amount it moves,
/// held in hundredths of a unit.
#[derive(PartialEq, Eq, Structural, Clone, Copy, Debug)]
pub struct Transaction {
    /// Unix epoch seconds, UTC.
    pub time: i64,
    /// Signed amount in hundredths of a unit.
    pub cents: i64,
}

/// Whether `c` is a decimal digit character.
pub open spec fn is_digit_char(c: char) -> bool {
    48 <= c as u32 && c as u32 <= 57
}

/// The numeric value of the digit character `c`.
pub open spec fn digit_val(c: char) -> int {
    c as u32 - 48
}

/// Whether every character of `s` is a decimal digit.
pub open spec fn all_digits(s: Seq<char>) -> bool {
    forall|i: int| 0 <= i < s.len() ==> is_digit_char(#[trigger] s[i])
}

/// The number the digit string `s` denotes, most significant digit first.
pub open spec fn digits_val(s: Seq<char>) -> int
    decreases s.len(),
{
    if s.len() == 0 {
        0
    } else {
        digits_val(s.drop_last()) * 10 + digit_val(s.last())
    }
}

/// A canonical digit string: non-empty, digits only, and no leading zero
/// unless it is the single digit `0`.
pub open spec fn canonical_digits(s: Seq<char>) -> bool {
    s.len() > 0 && all_digits(s) && (digit_val(s[0]) == 0 ==> s.len() == 1)
}

/// A canonical integer token: an optional `-` followed by a canonical digit
/// string, with `-0` excluded.
pub open spec fn int_tok_ok(s: Seq<char>) -> bool {
    if s.len() > 0 && s[0] == '-' {
        canonical_digits(s.skip(1)) && digits_val(s.skip(1)) > 0
    } else {
        canonical_digits(s)
    }
}

/// The value of a canonical integer token.
pub open spec fn int_tok_val(s: Seq<char>) -> int {
    if s.len() > 0 && s[0] == '-' {
        -digits_val(s.skip(1))
    } else {
        digits_val(s)
    }
}

/// The position of the first `c` in `s` at or after `from`.
pub open spec fn find_from(s: Seq<char>, c: char, from: nat) -> Option<int>
    decreases s.len() - from,
{
    if from >= s.len() {
        None
    } else if s[from as int] == c {
        Some(from as int)
    } else {
        find_from(s, c, from + 1)
    }
}

/// What `find_from` returns is the first occurrence, and `None` means there
/// is none.
proof fn lemma_find_from(s: Seq<char>, c: char, from: nat)
    ensures
        match find_from(s, c, from) {
            Some(q) => from <= q < s.len() && s[q] == c && (forall|m: int|
                from <= m < q ==> s[m] != c),
            None => forall|m: int| from <= m < s.len() ==> s[m] != c,
        },
    decreases s.len() - from,
{
    if from >= s.len() {
    } else if s[from as int] == c {
    } else {
        lemma_find_from(s, c, from + 1);
    }
}

/// A first occurrence determines what `find_from` returns.
proof fn lemma_find_from_complete(s: Seq<char>, c: char, from: nat, q: int)
    requires
        from <= q < s.len(),
        s[q] == c,
        forall|m: int| from <= m < q ==> s[m] != c,
    ensures
        find_from(s, c, from) == Some(q),
    decreases q - from,
{
    if from < q {
        lemma_find_from_complete(s, c, from + 1, q);
    }
}

/// The value token of a record: an optional `-`, a canonical whole part, and
/// an optional fraction of one or two digits. The result is the amount in
/// hundredths, or `None` where `s` has no such shape.
pub open spec fn num_tok_cents(s: Seq<char>) -> Option<int> {
    let neg = s.len() > 0 && s[0] == '-';
    let b = if neg {
        s.skip(1)
    } else {
        s
    };
    match find_from(b, '.', 0) {
        None => if canonical_digits(b) {
            Some(
                if neg {
                    -(digits_val(b) * 100)
                } else {
                    digits_val(b) * 100
                },
            )
        } else {
            None
        },
        Some(k) => {
            let w = b.subrange(0, k);
            let f = b.subrange(k + 1, b.len() as int);
            if canonical_digits(w) && 1 <= f.len() <= 2 && all_digits(f) {
                let frac = if f.len() == 1 {
                    digit_val(f[0]) * 10
                } else {
                    digits_val(f)
                };
                Some(
                    if neg {
                        -(digits_val(w) * 100 + frac)
                    } else {
                        digits_val(w) * 100 + frac
                    },
                )
            } else {
                None
            }
        },
    }
}

/// The eight characters every record line opens with.
pub open spec fn time_prefix() -> Seq<char> {
    seq!['{', '"', 't', 'i', 'm', 'e', '"', ':']
}

/// The nine characters between the time and the value of a record line.
pub open spec fn value_mid() -> Seq<char> {
    seq![',', '"', 'v', 'a', 'l', 'u', 'e', '"', ':']
}

/// The canonical integer token of `t`.
pub open spec fn int_seq(t: int) -> Seq<char> {
    if t < 0 {
        seq!['-'] + dec_u((-t) as nat)
    } else {
        dec_u(t as nat)
    }
}

/// The one line a record is stored as: `{"time":T,"value":V}` with `T` the
/// canonical integer of the timestamp and `V` the amount with two decimals.
pub open spec fn line_seq(t: int, c: int) -> Seq<char> {
    time_prefix() + int_seq(t) + value_mid() + cents_seq(c) + seq!['}']
}

/// Reads one stored line: `Some((time, cents))` exactly where `s` is a
/// well-formed record line whose numbers fit the machine range.
pub open spec fn spec_parse_line(s: Seq<char>) -> Option<(int, int)> {
    if s.len() < 10 || s.subrange(0, 8) != time_prefix() || s.last() != '}' {
        None
    } else {
        match find_from(s, ',', 8) {
            None => None,
            Some(j) => if j + 9 <= s.len() - 1 && s.subrange(j, j + 9) == value_mid() {
                let ttok = s.subrange(8, j);
                let vtok = s.subrange(j + 9, s.len() - 1);
                if int_tok_ok(ttok) && i64::MIN <= int_tok_val(ttok) <= i64::MAX {
                    match num_tok_cents(vtok) {
                        Some(c) => if i64::MIN <= c <= i64::MAX {
                            Some((int_tok_val(ttok), c))
                        } else {
                            None
                        },
                        None => None,
                    }
                } else {
                    None
                }
            } else {
                None
            },
        }
    }
}

/// The amount a line contributes to a tolerant sum: its cents where it is a
/// well-formed record, nothing where it is not.
pub open spec fn line_cents_or_zero(s: Seq<char>) -> int {
    match spec_parse_line(s) {
        Some((t, c)) => c,
        None => 0,
    }
}

/// Law: a line that is no well-formed record contributes nothing to the
/// tolerant sum a balance reads.
pub proof fn lemma_malformed_line_contributes_nothing(l: Seq<char>)
    requires
        spec_parse_line(l) is None,
    ensures
        line_cents_or_zero(l) == 0,
{
}

/// Digit strings denote values below `10^len`.
proof fn lemma_digits_val_bound(s: Seq<char>)
    requires
        all_digits(s),
    ensures
        0 <= digits_val(s) < pow10(s.len()),
    decreases s.len(),
{
    if s.len() > 0 {
        assert(all_digits(s.drop_last())) by {
            assert(forall|i: int|
                0 <= i < s.len() - 1 ==> is_digit_char(#[trigger] s.drop_last()[i]) == is_digit_char(
                    s[i],
                ));
        }
        lemma_digits_val_bound(s.drop_last());
        assert(digit_val(s.last()) <= 9);
    }
}

/// A canonical digit string of two or more digits denotes at least
/// `10^(len-1)`.
proof fn lemma_digits_val_min(s: Seq<char>)
    requires
        canonical_digits(s),
        s.len() >= 2,
    ensures
        digits_val(s) >= pow10((s.len() - 1) as nat),
    decreases s.len(),
{
    let d = s.drop_last();
    assert(all_digits(d)) by {
        assert(forall|i: int|
            0 <= i < s.len() - 1 ==> is_digit_char(#[trigger] d[i]) == is_digit_char(s[i]));
    }
    assert(d[0] == s[0]);
    assert(canonical_digits(d));
    if s.len() == 2 {
        assert(digits_val(d) == digit_val(d[0])) by {
            assert(d.drop_last().len() == 0);
            assert(digits_val(d.drop_last()) == 0);
            assert(d.last() == d[0]);
        }
        assert(digit_val(d[0]) >= 1);
    } else {
        lemma_digits_val_min(d);
        lemma_digits_val_bound(d);
    }
    assert(is_digit_char(s.last())) by {
        assert(s.last() == s[s.len() - 1]);
    }
    assert(digit_val(s.last()) >= 0);
    assert(digits_val(s) == digits_val(d) * 10 + digit_val(s.last()));
    assert(pow10((s.len() - 1) as nat) == 10 * pow10((s.len() - 2) as nat));
    assert(digits_val(d) >= pow10((s.len() - 2) as nat)) by {
        if s.len() == 2 {
            assert(pow10(0) == 1);
        }
    }
}

/// Powers of ten grow with the exponent.
proof fn lemma_pow10_mono(a: nat, b: nat)
    requires
        a <= b,
    ensures
        pow10(a) <= pow10(b),
    decreases b,
{
    if a < b {
        lemma_pow10_mono(a, (b - 1) as nat);
    }
}

/// The value of `10^19`, past the largest 64-bit integers.
proof fn lemma_pow10_19()
    ensures
        pow10(19) == 10_000_000_000_000_000_000,
{
    reveal_with_fuel(pow10, 21);
}

/// The numeral of `n` is made of digits.
proof fn lemma_dec_u_all_digits(n: nat)
    ensures
        all_digits(dec_u(n)),
        dec_u(n).len() >= 1,
    decreases n,
{
    if n < 10 {
        assert(dec_u(n) == seq![digit_char(n as int)]);
    } else {
        lemma_dec_u_all_digits(n / 10);
        assert(is_digit_char(digit_char((n % 10) as int)));
        assert(forall|i: int|
            0 <= i < dec_u(n / 10).len() ==> dec_u(n)[i] == dec_u(n / 10)[i]);
    }
}

/// The numeral of `n` is canonical and denotes `n`.
proof fn lemma_dec_u_canonical(n: nat)
    ensures
        canonical_digits(dec_u(n)),
        digits_val(dec_u(n)) == n,
        n > 0 ==> digit_val(dec_u(n)[0]) > 0,
    decreases n,
{
    lemma_dec_u_all_digits(n);
    if n < 10 {
        let s = dec_u(n);
        assert(s == seq![digit_char(n as int)]);
        assert(digit_val(digit_char(n as int)) == n);
        assert(s.drop_last().len() == 0);
        assert(digits_val(s.drop_last()) == 0);
        assert(digits_val(s) == digit_val(s.last()));
        assert(s.last() == digit_char(n as int));
    } else {
        lemma_dec_u_canonical(n / 10);
        let s = dec_u(n);
        assert(s == dec_u(n / 10).push(digit_char((n % 10) as int)));
        assert(s.len() >= 2);
        assert(s.drop_last() =~= dec_u(n / 10));
        assert(s.last() == digit_char((n % 10) as int));
        assert(digit_val(s.last()) == n % 10);
        assert(digits_val(s) == digits_val(s.drop_last()) * 10 + digit_val(s.last()));
        assert(digits_val(s.drop_last()) == n / 10);
        assert(digits_val(s) == (n / 10) * 10 + n % 10);
        assert(s[0] == dec_u(n / 10)[0]);
    }
}

/// Scans `s` in `[from, hi)` for `ch` and reports the first occurrence.
fn find_char_bounded(s: &str, ch: char, from: usize, hi: usize) -> (r: Option<usize>)
    requires
        from <= hi <= s@.len(),
    ensures
        match r {
            Some(j) => from <= j < hi && s@[j as int] == ch && (forall|m: int|
                from <= m < j ==> s@[m] != ch),
            None => forall|m: int| from <= m < hi ==> s@[m] != ch,
        },
{
    let mut i: usize = from;
    while i < hi
        invariant
            from <= i <= hi <= s@.len(),
            forall|m: int| from <= m < i ==> s@[m] != ch,
        decreases hi - i,
    {
        if s.get_char(i) == ch {
            return Some(i);
        }
        i = i + 1;
    }
    None
}

/// Reads the digit run `s[lo..hi]` as a number. `None` where the run is not
/// canonical or its value reaches `10^19`, past every 64-bit range.
fn parse_digits_in(s: &str, lo: usize, hi: usize) -> (r: Option<u64>)
    requires
        lo <= hi <= s@.len(),
    ensures
        match r {
            Some(v) => canonical_digits(s@.subrange(lo as int, hi as int)) && digits_val(
                s@.subrange(lo as int, hi as int),
            ) == v as int,
            None => !canonical_digits(s@.subrange(lo as int, hi as int)) || digits_val(
                s@.subrange(lo as int, hi as int),
            ) >= pow10(19),
        },
{
    let ghost tok = s@.subrange(lo as int, hi as int);
    if lo == hi {
        return None;
    }
    if hi - lo > 19 {
        proof {
            if canonical_digits(tok) {
                lemma_digits_val_min(tok);
                lemma_pow10_mono(19, (tok.len() - 1) as nat);
            }
        }
        return None;
    }
    let c0 = s.get_char(lo);
    let u0 = c0 as u32;
    if u0 == 48 && hi - lo > 1 {
        proof {
            assert(tok[0] == c0);
        }
        return None;
    }
    let mut i: usize = lo;
    let mut acc: u64 = 0;
    proof {
        assert(tok.subrange(0, 0).len() == 0);
        lemma_pow10_19();
    }
    while i < hi
        invariant
            lo <= i <= hi <= s@.len(),
            hi - lo <= 19,
            tok == s@.subrange(lo as int, hi as int),
            all_digits(tok.subrange(0, i - lo)),
            acc as int == digits_val(tok.subrange(0, i - lo)),
            acc < pow10((i - lo) as nat),
            pow10(19) == 10_000_000_000_000_000_000,
        decreases hi - i,
    {
        let c = s.get_char(i);
        let u = c as u32;
        if !(48 <= u && u <= 57) {
            proof {
                assert(tok[i - lo] == c);
                assert(!is_digit_char(tok[i - lo]));
            }
            return None;
        }
        let d: u64 = (u - 48) as u64;
        proof {
            let m = i - lo;
            assert(tok.subrange(0, m + 1).drop_last() =~= tok.subrange(0, m));
            assert(tok.subrange(0, m + 1).last() == tok[m]);
            assert(tok[m] == c);
            assert(digits_val(tok.subrange(0, m + 1)) == digits_val(tok.subrange(0, m)) * 10
                + digit_val(tok[m]));
            lemma_pow10_mono(((i - lo) + 1) as nat, 19);
            assert(pow10(((i - lo) + 1) as nat) == 10 * pow10((i - lo) as nat));
        }
        acc = acc * 10 + d;
        i = i + 1;
    }
    proof {
        assert(tok.subrange(0, hi - lo) =~= tok);
        assert(digit_val(tok[0]) == 0 ==> tok.len() == 1) by {
            assert(tok[0] == c0);
        }
    }
    Some(acc)
}

/// Reads `s[lo..hi]` as a canonical integer token. `None` where the token is
/// ill-formed or its value leaves the `i64` range.
fn parse_int_in(s: &str, lo: usize, hi: usize) -> (r: Option<i64>)
    requires
        lo <= hi <= s@.len(),
    ensures
        match r {
            Some(t) => int_tok_ok(s@.subrange(lo as int, hi as int)) && int_tok_val(
                s@.subrange(lo as int, hi as int),
            ) == t as int,
            None => !int_tok_ok(s@.subrange(lo as int, hi as int)) || !(i64::MIN <= int_tok_val(
                s@.subrange(lo as int, hi as int),
            ) <= i64::MAX),
        },
{
    let ghost tok = s@.subrange(lo as int, hi as int);
    proof {
        lemma_pow10_19();
    }
    if lo == hi {
        return None;
    }
    if s.get_char(lo) == '-' {
        proof {
            assert(tok[0] == '-');
            assert(tok.skip(1) =~= s@.subrange(lo + 1, hi as int));
        }
        match parse_digits_in(s, lo + 1, hi) {
            None => None,
            Some(v) => {
                if v == 0 {
                    return None;
                }
                if v > 9_223_372_036_854_775_808u64 {
                    return None;
                }
                if v == 9_223_372_036_854_775_808u64 {
                    Some(i64::MIN)
                } else {
                    Some(-(v as i64))
                }
            },
        }
    } else {
        proof {
            assert(tok[0] != '-');
        }
        match parse_digits_in(s, lo, hi) {
            None => None,
            Some(v) => {
                if v > i64::MAX as u64 {
                    return None;
                }
                Some(v as i64)
            },
        }
    }
}

/// Reads `s[lo..hi]` as a value token and yields the amount in hundredths.
/// `None` where the token is ill-formed or the amount leaves the `i64` range.
fn parse_num_in(s: &str, lo: usize, hi: usize) -> (r: Option<i64>)
    requires
        lo <= hi <= s@.len(),
    ensures
        match r {
            Some(c) => num_tok_cents(s@.subrange(lo as int, hi as int)) == Some(c as int),
            None => match num_tok_cents(s@.subrange(lo as int, hi as int)) {
                Some(c) => !(i64::MIN <= c <= i64::MAX),
                None => true,
            },
        },
{
    let ghost tok = s@.subrange(lo as int, hi as int);
    proof {
        lemma_pow10_19();
    }
    if lo == hi {
        proof {
            assert(tok.len() == 0);
        }
        return None;
    }
    let neg = s.get_char(lo) == '-';
    let bstart: usize = if neg {
        lo + 1
    } else {
        lo
    };
    let ghost b = s@.subrange(bstart as int, hi as int);
    proof {
        assert(tok[0] == s@[lo as int]);
        if neg {
            assert(tok.skip(1) =~= b);
        } else {
            assert(tok =~= b);
        }
    }
    let dot = find_char_bounded(s, '.', bstart, hi);
    match dot {
        None => {
            proof {
                assert(find_from(b, '.', 0) is None) by {
                    lemma_find_from(b, '.', 0);
                    if find_from(b, '.', 0) is Some {
                        let q = find_from(b, '.', 0)->Some_0;
                        assert(b[q] == s@[bstart + q]);
                    }
                }
            }
            match parse_digits_in(s, bstart, hi) {
                None => None,
                Some(v) => {
                    let c128: u128 = (v as u128) * 100;
                    if neg {
                        if c128 > 9_223_372_036_854_775_808u128 {
                            return None;
                        }
                        if c128 == 9_223_372_036_854_775_808u128 {
                            Some(i64::MIN)
                        } else {
                            Some(-(c128 as i64))
                        }
                    } else {
                        if c128 > i64::MAX as u128 {
                            return None;
                        }
                        Some(c128 as i64)
                    }
                },
            }
        },
        Some(k) => {
            proof {
                assert(find_from(b, '.', 0) == Some(k - bstart)) by {
                    assert(b[k - bstart] == s@[k as int]);
                    assert(forall|m: int|
                        0 <= m < k - bstart ==> b[m] == s@[bstart + m] && b[m] != '.');
                    lemma_find_from_complete(b, '.', 0, k - bstart);
                }
            }
            let ghost w = b.subrange(0, k - bstart);
            let ghost f = b.subrange(k - bstart + 1, b.len() as int);
            proof {
                assert(w =~= s@.subrange(bstart as int, k as int));
                assert(f =~= s@.subrange(k + 1, hi as int));
            }
            let flen = hi - (k + 1);
            if flen < 1 || flen > 2 {
                return None;
            }
            let c1 = s.get_char(k + 1);
            let u1 = c1 as u32;
            if !(48 <= u1 && u1 <= 57) {
                proof {
                    assert(f[0] == c1);
                }
                return None;
            }
            let d1: u64 = (u1 - 48) as u64;
            let frac: u64;
            if flen == 2 {
                let c2 = s.get_char(k + 2);
                let u2 = c2 as u32;
                if !(48 <= u2 && u2 <= 57) {
                    proof {
                        assert(f[1] == c2);
                    }
                    return None;
                }
                let d2: u64 = (u2 - 48) as u64;
                frac = d1 * 10 + d2;
                proof {
                    assert(f.drop_last() =~= seq![c1]);
                    assert(f.last() == c2);
                    assert(digits_val(seq![c1]) == digit_val(c1)) by {
                        assert(seq![c1].drop_last().len() == 0);
                        assert(digits_val(seq![c1].drop_last()) == 0);
                    }
                    assert(digits_val(f) == digit_val(c1) * 10 + digit_val(c2));
                    assert(all_digits(f)) by {
                        assert(f.len() == 2 && f[0] == c1 && f[1] == c2);
                    }
                }
            } else {
                frac = d1 * 10;
                proof {
                    assert(f.len() == 1 && f[0] == c1);
                    assert(all_digits(f));
                }
            }
            match parse_digits_in(s, bstart, k) {
                None => None,
                Some(v) => {
                    let c128: u128 = (v as u128) * 100 + (frac as u128);
                    if neg {
                        if c128 > 9_223_372_036_854_775_808u128 {
                            return None;
                        }
                        if c128 == 9_223_372_036_854_775_808u128 {
                            Some(i64::MIN)
                        } else {
                            Some(-(c128 as i64))
                        }
                    } else {
                        if c128 > i64::MAX as u128 {
                            return None;
                        }
                        Some(c128 as i64)
                    }
                },
            }
        },
    }
}

/// Reads one stored line into a record, exactly where the line is a
/// well-formed record line.
pub fn parse_line(line: &str) -> (r: Option<Transaction>)
    ensures
        match r {
            Some(tr) => spec_parse_line(line@) == Some((tr.time as int, tr.cents as int)),
            None => spec_parse_line(line@) is None,
        },
{
    let n = line.unicode_len();
    if n < 10 {
        return None;
    }
    let ok_prefix = line.get_char(0) == '{' && line.get_char(1) == '"' && line.get_char(2) == 't'
        && line.get_char(3) == 'i' && line.get_char(4) == 'm' && line.get_char(5) == 'e'
        && line.get_char(6) == '"' && line.get_char(7) == ':';
    if !ok_prefix {
        proof {
            assert(line@.subrange(0, 8) != time_prefix()) by {
                assert(forall|m: int| 0 <= m < 8 ==> line@.subrange(0, 8)[m] == line@[m]);
            }
        }
        return None;
    }
    proof {
        assert(line@.subrange(0, 8) =~= time_prefix());
    }
    if line.get_char(n - 1) != '}' {
        proof {
            assert(line@.last() == line@[n - 1]);
        }
        return None;
    }
    let j = match find_char_bounded(line, ',', 8, n) {
        None => {
            proof {
                assert(find_from(line@, ',', 8) is None) by {
                    lemma_find_from(line@, ',', 8);
                    if find_from(line@, ',', 8) is Some {
                        let q = find_from(line@, ',', 8)->Some_0;
                    }
                }
            }
            return None;
        },
        Some(j) => {
            proof {
                lemma_find_from_complete(line@, ',', 8, j as int);
            }
            j
        },
    };
    if j > n - 10 {
        return None;
    }
    let ok_mid = line.get_char(j + 1) == '"' && line.get_char(j + 2) == 'v' && line.get_char(j + 3)
        == 'a' && line.get_char(j + 4) == 'l' && line.get_char(j + 5) == 'u' && line.get_char(j + 6)
        == 'e' && line.get_char(j + 7) == '"' && line.get_char(j + 8) == ':';
    if !ok_mid {
        proof {
            assert(line@.subrange(j as int, j + 9) != value_mid()) by {
                assert(forall|m: int|
                    0 <= m < 9 ==> #[trigger] line@.subrange(j as int, j + 9)[m] == line@[j + m]);
            }
        }
        return None;
    }
    proof {
        assert(line@.subrange(j as int, j + 9) =~= value_mid());
    }
    let t = match parse_int_in(line, 8, j) {
        None => {
            return None;
        },
        Some(t) => t,
    };
    let c = match parse_num_in(line, j + 9, n - 1) {
        None => {
            return None;
        },
        Some(c) => c,
    };
    Some(Transaction { time: t, cents: c })
}

/// Writes the stored line of a record: `{"time":T,"value":V}` with a
/// trailing newline left to the caller.
pub fn encode_line(time: i64, cents: i64) -> (r: String)
    ensures
        r@ == line_seq(time as int, cents as int),
{
    proof {
        reveal_strlit("{\"time\":");
        reveal_strlit(",\"value\":");
        reveal_strlit("-");
        reveal_strlit("}");
        assert("{\"time\":"@ =~= time_prefix());
        assert(",\"value\":"@ =~= value_mid());
    }
    let mut s = String::from_str("{\"time\":");
    if time < 0 {
        s.append("-");
        let mag: u128 = (-(time as i128)) as u128;
        let ds = crate::numerals::u128_to_dec(mag);
        s.append(ds.as_str());
        proof {
            assert(seq!['-'] + dec_u(mag as nat) =~= "-"@ + ds@);
            assert(s@ =~= time_prefix() + int_seq(time as int));
        }
    } else {
        let ds = crate::numerals::u128_to_dec(time as u128);
        s.append(ds.as_str());
        proof {
            assert(s@ =~= time_prefix() + int_seq(time as int));
        }
    }
    s.append(",\"value\":");
    let vs = crate::numerals::format_cents(cents as i128);
    s.append(vs.as_str());
    s.append("}");
    proof {
        assert(s@ =~= line_seq(time as int, cents as int));
    }
    s
}

/// Reads a command-line amount: an optional `-`, a whole part, and an
/// optional fraction of one or two digits, as hundredths of a unit.
pub fn parse_value(s: &str) -> (r: Option<i64>)
    ensures
        match r {
            Some(c) => num_tok_cents(s@) == Some(c as int),
            None => match num_tok_cents(s@) {
                Some(c) => !(i64::MIN <= c <= i64::MAX),
                None => true,
            },
        },
{
    let n = s.unicode_len();
    let r = parse_num_in(s, 0, n);
    proof {
        assert(s@.subrange(0, n as int) =~= s@);
    }
    r
}

/// No numeral holds a character that is not a digit.
proof fn lemma_dec_u_free_of(n: nat, ch: char)
    requires
        !is_digit_char(ch),
    ensures
        forall|i: int| 0 <= i < dec_u(n).len() ==> dec_u(n)[i] != ch,
{
    lemma_dec_u_all_digits(n);
}

/// Law: every record line the library writes reads back as the very record
/// it was written from.
#[verifier::rlimit(100)]
pub proof fn lemma_line_round_trip(t: int, c: int)
    requires
        i64::MIN <= t <= i64::MAX,
        i64::MIN <= c <= i64::MAX,
    ensures
        spec_parse_line(line_seq(t, c)) == Some((t, c)),
{
    let s = line_seq(t, c);
    let it = int_seq(t);
    let vt = cents_seq(c);
    let a = abs_int(c);
    let mag = if t < 0 {
        (-t) as nat
    } else {
        t as nat
    };
    lemma_dec_u_canonical(mag);
    lemma_dec_u_all_digits(mag);
    lemma_dec_u_free_of(mag, ',');
    lemma_dec_u_free_of(mag, '-');
    assert(it.len() >= 1);
    let wn = (a / 100) as nat;
    lemma_dec_u_canonical(wn);
    lemma_dec_u_all_digits(wn);
    lemma_dec_u_free_of(wn, '.');
    assert(vt.len() >= 4);
    assert(s.len() == 8 + it.len() + 9 + vt.len() + 1);
    let j = 8 + it.len() as int;
    // the opening eight characters
    assert(s.subrange(0, 8) =~= time_prefix());
    // the closing brace
    assert(s.last() == '}');
    // the first comma stands right after the time token
    assert(s[j] == value_mid()[0]);
    assert(forall|m: int| 8 <= m < j ==> s[m] == it[m - 8]);
    assert(forall|m: int| 8 <= m < j ==> s[m] != ',') by {
        if t < 0 {
            assert(it[0] == '-');
            assert(forall|i: int| 1 <= i < it.len() ==> it[i] == dec_u(mag)[i - 1]);
        } else {
            assert(it =~= dec_u(mag));
        }
    }
    lemma_find_from_complete(s, ',', 8, j);
    // the nine characters between the tokens
    assert(s.subrange(j, j + 9) =~= value_mid());
    // the time token
    let ttok = s.subrange(8, j);
    assert(ttok =~= it);
    if t < 0 {
        assert(it[0] == '-');
        assert(it.skip(1) =~= dec_u(mag));
        assert(int_tok_ok(it));
        assert(int_tok_val(it) == t);
    } else {
        assert(it =~= dec_u(mag));
        assert(it[0] != '-');
        assert(int_tok_ok(it));
        assert(int_tok_val(it) == t);
    }
    // the value token
    let vtok = s.subrange(j + 9, s.len() - 1);
    assert(vtok =~= vt);
    let sign: Seq<char> = if c < 0 {
        seq!['-']
    } else {
        Seq::<char>::empty()
    };
    let core = dec_u(wn) + seq!['.'] + two_digits(a % 100);
    assert(vt =~= sign + core);
    let b = if c < 0 {
        vt.skip(1)
    } else {
        vt
    };
    if c < 0 {
        assert(vt[0] == '-');
        assert(b =~= core);
    } else {
        assert(vt[0] == dec_u(wn)[0]);
        assert(vt[0] != '-');
        assert(b =~= core);
    }
    let kd = dec_u(wn).len() as int;
    assert(b[kd] == '.');
    assert(forall|m: int| 0 <= m < kd ==> b[m] == dec_u(wn)[m]);
    lemma_find_from_complete(b, '.', 0, kd);
    let w = b.subrange(0, kd);
    let f = b.subrange(kd + 1, b.len() as int);
    assert(w =~= dec_u(wn));
    assert(f =~= two_digits(a % 100));
    assert(f.len() == 2);
    let n2 = a % 100;
    assert(f[0] == digit_char(n2 / 10 % 10) && f[1] == digit_char(n2 % 10));
    assert(n2 / 10 % 10 == n2 / 10);
    assert(is_digit_char(f[0]) && digit_val(f[0]) == n2 / 10);
    assert(is_digit_char(f[1]) && digit_val(f[1]) == n2 % 10);
    assert(all_digits(f));
    assert(digits_val(f) == n2) by {
        assert(f.drop_last() =~= seq![f[0]]);
        assert(digits_val(seq![f[0]]) == digit_val(f[0])) by {
            assert(seq![f[0]].drop_last().len() == 0);
            assert(digits_val(seq![f[0]].drop_last()) == 0);
        }
        assert(digits_val(f) == digit_val(f[0]) * 10 + digit_val(f[1]));
    }
    assert(canonical_digits(w));
    assert(digits_val(w) == a / 100);
    assert(num_tok_cents(vt) == Some(c)) by {
        assert(digits_val(w) * 100 + digits_val(f) == (a / 100) * 100 + a % 100);
        assert((a / 100) * 100 + a % 100 == a);
    }
    // every structural test of the reader passes
    assert(s.len() >= 10);
    assert(j + 9 <= s.len() - 1);
    assert(spec_parse_line(s) == Some((t, c)));
}

} // verus!
