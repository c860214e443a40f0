//! Rendering the report text.
//!
//! Every piece of the report — numerals, one-decimal values, padded
//! columns, the header and each row — is specified as a function from
//! values to character sequences, and the executable builders are proved
//! to produce exactly that text.

use vstd::prelude::*;
use crate::dec::{Dec, tenths_of, pct_val, pct_fits, sum_mant, scale_of_sum, mant_fits, pd};
use crate::extract::{Mode, Error};
use crate::order::RowM;

verus! {

/// The character of one decimal digit.
pub open spec fn digit_char(d: nat) -> char {
    if d == 0 {
        '0'
    } else if d == 1 {
        '1'
    } else if d == 2 {
        '2'
    } else if d == 3 {
        '3'
    } else if d == 4 {
        '4'
    } else if d == 5 {
        '5'
    } else if d == 6 {
        '6'
    } else if d == 7 {
        '7'
    } else if d == 8 {
        '8'
    } else {
        '9'
    }
}

/// The decimal numeral of a natural number.
pub open spec fn digits_text(n: nat) -> Seq<char>
    decreases n,
{
    if n < 10 {
        seq![digit_char(n)]
    } else {
        digits_text(n / 10).push(digit_char(n % 10))
    }
}

/// The decimal numeral of an integer.
pub open spec fn int_text(v: int) -> Seq<char> {
    if v < 0 {
        seq!['-'] + digits_text((-v) as nat)
    } else {
        digits_text(v as nat)
    }
}

/// A value held in tenths, written with exactly one decimal place.
pub open spec fn tenths_text(t: int) -> Seq<char> {
    if t < 0 {
        seq!['-'] + digits_text(((-t) / 10) as nat) + seq!['.'] + seq![
            digit_char(((-t) % 10) as nat),
        ]
    } else {
        digits_text((t / 10) as nat) + seq!['.'] + seq![digit_char((t % 10) as nat)]
    }
}

/// `n` spaces.
pub open spec fn spaces(n: int) -> Seq<char>
    decreases n,
{
    if n <= 0 {
        Seq::empty()
    } else {
        spaces(n - 1) + seq![' ']
    }
}

/// `s`, right-aligned to at least `w` characters.
pub open spec fn pad_text(s: Seq<char>, w: int) -> Seq<char> {
    if s.len() >= w {
        s
    } else {
        spaces(w - s.len()) + s
    }
}

/// A weight as printed: fractional weights with exactly one decimal
/// place, unit and integral weights as a plain integer.
pub open spec fn weight_text(w: Dec, mode: Mode) -> Seq<char> {
    if mode == Mode::Fractional {
        tenths_text(tenths_of(w))
    } else {
        int_text(w.man as int)
    }
}

/// The label after the total.
pub open spec fn suffix_text(mode: Mode, erase: bool) -> Seq<char> {
    match mode {
        Mode::Unit => Seq::empty(),
        Mode::Integral => if erase {
            " (weighted integral, erased)"@
        } else {
            " (weighted integral)"@
        },
        Mode::Fractional => if erase {
            " (weighted fractional, erased)"@
        } else {
            " (weighted fractional)"@
        },
    }
}

/// The report's first line.
pub open spec fn header_text(total: Dec, mode: Mode, erase: bool) -> Seq<char> {
    weight_text(total, mode) + " counts"@ + suffix_text(mode, erase) + "\n"@
}

/// One report row: rank, weight, percentage, cumulative percentage, line.
pub open spec fn row_text(rank: nat, line: Seq<char>, w: Dec, pct: int, cum: int, mode: Mode)
    -> Seq<char> {
    "("@ + pad_text(digits_text(rank), 3) + ") "@ + pad_text(weight_text(w, mode), 8) + " ("@
        + pad_text(tenths_text(pct), 4) + "%,"@ + pad_text(tenths_text(cum), 5) + "%): "@ + line
        + "\n"@
}

/// The running sum so far, after adding `w` to `acc`.
pub open spec fn acc_after(acc: Dec, w: Dec) -> Dec {
    Dec { man: sum_mant(acc, w) as i128, sc: scale_of_sum(acc, w) }
}

/// The first failure when rendering rows `k..` with running sum `acc`, if
/// any: a percentage or a running sum that leaves the machine range.
pub open spec fn render_err(rows: Seq<RowM>, total: Dec, acc: Dec, k: int) -> Option<Error>
    decreases rows.len() - k,
{
    if k < 0 || k >= rows.len() {
        None
    } else {
        let w = pd(rows[k].1);
        if !pct_fits(w, total) {
            Some(Error::PercentOverflow)
        } else if !mant_fits(sum_mant(acc, w)) {
            Some(Error::SumOverflow)
        } else if !pct_fits(acc_after(acc, w), total) {
            Some(Error::PercentOverflow)
        } else {
            render_err(rows, total, acc_after(acc, w), k + 1)
        }
    }
}

/// The text of rows `k..`, with running sum `acc`; meaningful when
/// `render_err` reports no failure.
pub open spec fn rows_text(rows: Seq<RowM>, total: Dec, mode: Mode, acc: Dec, k: int) -> Seq<char>
    decreases rows.len() - k,
{
    if k < 0 || k >= rows.len() {
        Seq::empty()
    } else {
        let w = pd(rows[k].1);
        let acc2 = acc_after(acc, w);
        row_text((k + 1) as nat, rows[k].0, w, pct_val(w, total), pct_val(acc2, total), mode)
            + rows_text(rows, total, mode, acc2, k + 1)
    }
}

/// One decimal digit as text.
fn digit_str(d: u8) -> (r: &'static str)
    requires
        d < 10,
    ensures
        r@ == seq![digit_char(d as nat)],
{
    let r: &'static str = match d {
        0 => "0",
        1 => "1",
        2 => "2",
        3 => "3",
        4 => "4",
        5 => "5",
        6 => "6",
        7 => "7",
        8 => "8",
        _ => "9",
    };
    proof {
        reveal_strlit("0");
        reveal_strlit("1");
        reveal_strlit("2");
        reveal_strlit("3");
        reveal_strlit("4");
        reveal_strlit("5");
        reveal_strlit("6");
        reveal_strlit("7");
        reveal_strlit("8");
        reveal_strlit("9");
        assert(r@ =~= seq![digit_char(d as nat)]);
    }
    r
}

/// The decimal numeral of a natural number.
pub fn digits_string(n: u128) -> (r: String)
    ensures
        r@ == digits_text(n as nat),
    decreases n,
{
    if n < 10 {
        String::from_str(digit_str(n as u8))
    } else {
        let s = digits_string(n / 10);
        let r = s.concat(digit_str((n % 10) as u8));
        proof {
            assert(r@ =~= digits_text((n / 10) as nat).push(digit_char((n % 10) as nat)));
        }
        r
    }
}

/// The decimal numeral of an integer.
pub fn int_string(v: i128) -> (r: String)
    requires
        v > i128::MIN,
    ensures
        r@ == int_text(v as int),
{
    if v < 0 {
        let d = digits_string((-v) as u128);
        let r = String::from_str("-").concat(d.as_str());
        proof {
            reveal_strlit("-");
            assert(r@ =~= int_text(v as int));
        }
        r
    } else {
        digits_string(v as u128)
    }
}

/// A value held in tenths, written with exactly one decimal place.
pub fn tenths_string(t: i128) -> (r: String)
    requires
        t > i128::MIN,
    ensures
        r@ == tenths_text(t as int),
{
    if t < 0 {
        let m = (-t) as u128;
        let r = String::from_str("-").concat(digits_string(m / 10).as_str()).concat(".").concat(
            digit_str((m % 10) as u8),
        );
        proof {
            reveal_strlit("-");
            reveal_strlit(".");
            assert(r@ =~= tenths_text(t as int));
        }
        r
    } else {
        let m = t as u128;
        let r = digits_string(m / 10).concat(".").concat(digit_str((m % 10) as u8));
        proof {
            reveal_strlit(".");
            assert(r@ =~= tenths_text(t as int));
        }
        r
    }
}

/// Right-align `s` to at least `width` characters.
pub fn pad_string(s: String, width: usize) -> (r: String)
    ensures
        r@ == pad_text(s@, width as int),
{
    let n = s.as_str().unicode_len();
    let mut p = String::new();
    let mut k = n;
    while k < width
        invariant
            n <= k,
            k <= width || k == n,
            n == s@.len(),
            p@ == spaces((k - n) as int),
        decreases width - k,
    {
        p.append(" ");
        proof {
            reveal_strlit(" ");
            assert(p@ =~= spaces((k + 1 - n) as int));
        }
        k = k + 1;
    }
    let r = p.concat(s.as_str());
    proof {
        if n >= width {
            assert(r@ =~= s@);
        }
    }
    r
}

} // verus!
