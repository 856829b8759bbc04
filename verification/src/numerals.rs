use vstd::prelude::*;

verus! {

/// The power of ten `10^k`.
pub open spec fn pow10(k: nat) -> nat
    decreases k,
{
    if k == 0 {
        1
    } else {
        10 * pow10((k - 1) as nat)
    }
}

/// The character for a single decimal digit.
pub open spec fn digit_char(d: int) -> char {
    if d == 0 {
        '0'
    } else if d == 1 {
        '1'
    } else if d == 2 {
        '2'
    } else if d == 3 {
        '3'
    } else if d == 4 {
        '4'
    } else if d == 5 {
        '5'
    } else if d == 6 {
        '6'
    } else if d == 7 {
        '7'
    } else if d == 8 {
        '8'
    } else {
        '9'
    }
}

/// The canonical decimal numeral of `n`: no sign, no leading zero except for
/// the single digit `0` itself.
pub open spec fn dec_u(n: nat) -> Seq<char>
    decreases n,
{
    if n < 10 {
        seq![digit_char(n as int)]
    } else {
        dec_u(n / 10).push(digit_char((n % 10) as int))
    }
}

/// `n` zero-padded to exactly two digits; meaningful for `0 <= n < 100`.
pub open spec fn two_digits(n: int) -> Seq<char> {
    seq![digit_char(n / 10 % 10), digit_char(n % 10)]
}

/// `n` zero-padded to exactly four digits; meaningful for `0 <= n < 10000`.
pub open spec fn four_digits(n: int) -> Seq<char> {
    seq![
        digit_char(n / 1000 % 10),
        digit_char(n / 100 % 10),
        digit_char(n / 10 % 10),
        digit_char(n % 10),
    ]
}

/// A one-character string for the decimal digit `d`.
pub fn digit_str(d: u8) -> (r: &'static str)
    requires
        d < 10,
    ensures
        r@ =~= seq![digit_char(d as int)],
{
    proof {
        reveal_strlit("0");
        reveal_strlit("1");
        reveal_strlit("2");
        reveal_strlit("3");
        reveal_strlit("4");
        reveal_strlit("5");
        reveal_strlit("6");
        reveal_strlit("7");
        reveal_strlit("8");
        reveal_strlit("9");
    }
    match d {
        0 => "0",
        1 => "1",
        2 => "2",
        3 => "3",
        4 => "4",
        5 => "5",
        6 => "6",
        7 => "7",
        8 => "8",
        _ => "9",
    }
}

/// The digits of `ds` read back to front, as digit characters: the writing
/// order of a numeral collected least-significant first.
pub open spec fn rev_digit_chars(ds: Seq<u8>) -> Seq<char> {
    Seq::new(ds.len(), |i: int| digit_char(ds[ds.len() - 1 - i] as int))
}

/// Renders `n` as its canonical decimal numeral.
pub fn u128_to_dec(n: u128) -> (r: String)
    ensures
        r@ == dec_u(n as nat),
{
    let mut digs: Vec<u8> = Vec::new();
    let mut x: u128 = n;
    while x >= 10
        invariant
            dec_u(n as nat) =~= dec_u(x as nat) + rev_digit_chars(digs@),
            forall|k: int| 0 <= k < digs@.len() ==> digs@[k] < 10,
        decreases x,
    {
        let d: u8 = (x % 10) as u8;
        proof {
            assert(rev_digit_chars(digs@.push(d)) =~= seq![digit_char(d as int)]
                + rev_digit_chars(digs@));
            assert(dec_u(x as nat) == dec_u((x as nat) / 10).push(digit_char(((x as nat) % 10) as int)));
            assert(dec_u((x as nat) / 10) + (seq![digit_char(d as int)] + rev_digit_chars(digs@))
                =~= (dec_u((x as nat) / 10) + seq![digit_char(d as int)]) + rev_digit_chars(digs@));
            assert(dec_u((x as nat) / 10) + seq![digit_char(d as int)] =~= dec_u((x as nat) / 10).push(
                digit_char(d as int),
            ));
        }
        digs.push(d);
        x = x / 10;
    }
    let d0: u8 = x as u8;
    proof {
        assert(rev_digit_chars(digs@.push(d0)) =~= seq![digit_char(d0 as int)]
            + rev_digit_chars(digs@));
        assert(dec_u(x as nat) =~= seq![digit_char(d0 as int)]);
    }
    digs.push(d0);
    let ghost target: Seq<char> = rev_digit_chars(digs@);
    proof {
        assert(dec_u(n as nat) =~= target);
    }
    let mut s = String::new();
    let total: usize = digs.len();
    let mut i: usize = total;
    while i > 0
        invariant
            total == digs@.len(),
            0 <= i <= total,
            target == rev_digit_chars(digs@),
            forall|k: int| 0 <= k < digs@.len() ==> digs@[k] < 10,
            s@ =~= target.subrange(0, total - i),
        decreases i,
    {
        i = i - 1;
        let piece = digit_str(digs[i]);
        proof {
            assert(target.subrange(0, total - i) =~= target.subrange(0, total - i - 1).push(
                target[total - i - 1],
            ));
            assert(target[total - i - 1] == digit_char(digs@[i as int] as int));
        }
        s.append(piece);
    }
    proof {
        assert(s@ =~= target.subrange(0, total as int));
        assert(target.subrange(0, total as int) =~= target);
    }
    s
}

/// The absolute value of `c`.
pub open spec fn abs_int(c: int) -> int {
    if c < 0 {
        -c
    } else {
        c
    }
}

/// An amount of `c` hundredths rendered with exactly two decimal digits and a
/// leading `-` when negative: the shape `-?D+.DD`.
pub open spec fn cents_seq(c: int) -> Seq<char> {
    let a = abs_int(c);
    (if c < 0 {
        seq!['-']
    } else {
        Seq::<char>::empty()
    }) + dec_u((a / 100) as nat) + seq!['.'] + two_digits(a % 100)
}

/// Renders an amount of `c` hundredths with exactly two decimal digits.
pub fn format_cents(c: i128) -> (r: String)
    requires
        c != i128::MIN,
    ensures
        r@ == cents_seq(c as int),
{
    let neg = c < 0;
    let a: u128 = if neg {
        (-c) as u128
    } else {
        c as u128
    };
    let whole: u128 = a / 100;
    let fr: u128 = a % 100;
    let mut s = String::new();
    if neg {
        proof {
            reveal_strlit("-");
        }
        s.append("-");
    }
    let ds = u128_to_dec(whole);
    s.append(ds.as_str());
    proof {
        reveal_strlit(".");
    }
    s.append(".");
    s.append(digit_str((fr / 10) as u8));
    s.append(digit_str((fr % 10) as u8));
    proof {
        assert(a as int == abs_int(c as int));
        assert(s@ =~= cents_seq(c as int));
    }
    s
}

} // verus!
