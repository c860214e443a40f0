//! Weight extraction: find the rightmost numeral run of a line.
//!
//! A line's weight is the last signed numeral whose trailing context holds
//! no further digit. In integral form the numeral is a signed digit run; in
//! fractional form it may continue a digit run that is separated from the
//! final run by a single decimal point. When erasure is requested the whole
//! signed numeral is replaced by the placeholder `NNN` and the rest of the
//! line is kept verbatim.

use vstd::prelude::*;
use crate::dec::{Dec, SCALE_MAX};

verus! {

/// How lines are weighted.
#[derive(Clone, Copy, PartialEq, Eq, Structural, Debug)]
pub enum Mode {
    /// Every line weighs exactly 1.
    Unit,
    /// The trailing numeral, read as a signed integer, is the weight.
    Integral,
    /// The trailing numeral, read as a signed decimal, is the weight.
    Fractional,
}

/// A fatal arithmetic failure: some numeral or sum left the exact range
/// this engine can represent.
#[derive(Clone, Copy, PartialEq, Eq, Structural, Debug)]
pub enum Error {
    /// A parsed numeral run does not fit the weight type.
    NumeralOverflow,
    /// An accumulated sum left the representable mantissa range.
    SumOverflow,
    /// A percentage computation left the representable range.
    PercentOverflow,
}

impl Error {
    /// A short description, as shown to the user of a failing run.
    pub fn describe(&self) -> (r: &'static str)
        ensures
            *self == Error::NumeralOverflow ==> r@ == "numeral out of range"@,
            *self == Error::SumOverflow ==> r@ == "sum out of range"@,
            *self == Error::PercentOverflow ==> r@ == "percentage out of range"@,
    {
        match self {
            Error::NumeralOverflow => "numeral out of range",
            Error::SumOverflow => "sum out of range",
            Error::PercentOverflow => "percentage out of range",
        }
    }
}

/// Decimal digits.
pub open spec fn is_digit(c: char) -> bool {
    48 <= c as u32 && c as u32 <= 57
}

/// The numeric value of a digit character.
pub open spec fn digit_val(c: char) -> nat
    recommends
        is_digit(c),
{
    (c as u32 - 48) as nat
}

/// Whether any character of `s` is a digit.
pub open spec fn has_digit(s: Seq<char>) -> bool {
    exists|i: int| 0 <= i < s.len() && is_digit(s[i])
}

/// The position just after the last digit of `s`; 0 when `s` has no digit.
pub open spec fn last_digit_end(s: Seq<char>) -> int
    decreases s.len(),
{
    if s.len() == 0 {
        0
    } else if is_digit(s.last()) {
        s.len() as int
    } else {
        last_digit_end(s.drop_last())
    }
}

pub proof fn lemma_last_digit_end(s: Seq<char>)
    ensures
        0 <= last_digit_end(s) <= s.len(),
        last_digit_end(s) > 0 ==> is_digit(s[last_digit_end(s) - 1]),
        forall|k: int| last_digit_end(s) <= k < s.len() ==> !is_digit(s[k]),
        last_digit_end(s) > 0 <==> has_digit(s),
    decreases s.len(),
{
    if s.len() == 0 {
    } else if is_digit(s.last()) {
    } else {
        lemma_last_digit_end(s.drop_last());
        assert(forall|i: int|
            0 <= i < s.len() - 1 ==> s.drop_last()[i] == s[i]);
    }
}

/// The start of the digit run that ends just before position `e`:
/// walk left from `e` over digits.
pub open spec fn run_start(s: Seq<char>, e: int) -> int
    decreases e,
{
    if e <= 0 {
        0
    } else if is_digit(s[e - 1]) {
        run_start(s, e - 1)
    } else {
        e
    }
}

pub proof fn lemma_run_start(s: Seq<char>, e: int)
    requires
        0 <= e <= s.len(),
    ensures
        0 <= run_start(s, e) <= e,
        forall|k: int| run_start(s, e) <= k < e ==> is_digit(s[k]),
        run_start(s, e) > 0 ==> !is_digit(s[run_start(s, e) - 1]),
    decreases e,
{
    if e > 0 && is_digit(s[e - 1]) {
        lemma_run_start(s, e - 1);
    }
}

/// Whether the final digit run continues, over a decimal point, a digit run
/// before it — the shape of a fractional numeral.
pub open spec fn frac_part(s: Seq<char>) -> bool {
    let e = last_digit_end(s);
    let i = run_start(s, e);
    i >= 2 && s[i - 1] == '.' && is_digit(s[i - 2])
}

/// The position of the first digit of the numeral (`frac` selects the
/// fractional grammar).
pub open spec fn num_start(s: Seq<char>, frac: bool) -> int {
    let e = last_digit_end(s);
    let i = run_start(s, e);
    if frac && frac_part(s) {
        run_start(s, i - 1)
    } else {
        i
    }
}

/// The position where the signed numeral begins: one before the first
/// digit when that character is a sign.
pub open spec fn sign_start(s: Seq<char>, frac: bool) -> int {
    let d = num_start(s, frac);
    if d > 0 && (s[d - 1] == '+' || s[d - 1] == '-') {
        d - 1
    } else {
        d
    }
}

/// Whether the numeral carries a minus sign.
pub open spec fn is_negative(s: Seq<char>, frac: bool) -> bool {
    let d = num_start(s, frac);
    d > 0 && s[d - 1] == '-'
}

/// The digits of the numeral's mantissa, decimal point elided.
pub open spec fn mant_digits(s: Seq<char>, frac: bool) -> Seq<char> {
    let e = last_digit_end(s);
    let i = run_start(s, e);
    if frac && frac_part(s) {
        s.subrange(run_start(s, i - 1), i - 1) + s.subrange(i, e)
    } else {
        s.subrange(i, e)
    }
}

/// The number of fraction digits of the numeral.
pub open spec fn weight_scale(s: Seq<char>, frac: bool) -> int {
    let e = last_digit_end(s);
    let i = run_start(s, e);
    if frac && frac_part(s) {
        e - i
    } else {
        0
    }
}

/// The value of an unsigned digit string.
pub open spec fn digits_val(s: Seq<char>) -> nat
    decreases s.len(),
{
    if s.len() == 0 {
        0
    } else {
        10 * digits_val(s.drop_last()) + digit_val(s.last())
    }
}

/// The signed mantissa of the line's numeral.
pub open spec fn weight_mant(s: Seq<char>, frac: bool) -> int {
    if is_negative(s, frac) {
        -(digits_val(mant_digits(s, frac)) as int)
    } else {
        digits_val(mant_digits(s, frac)) as int
    }
}

/// Magnitude bound of a non-negative parsed numeral.
pub const POS_MAG_MAX: u64 = 9_223_372_036_854_775_807;

/// Magnitude bound of a negative parsed numeral.
pub const NEG_MAG_MAX: u64 = 9_223_372_036_854_775_808;

/// Whether the numeral of the line fits the weight type.
pub open spec fn parse_fits(s: Seq<char>, frac: bool) -> bool {
    &&& weight_scale(s, frac) <= SCALE_MAX
    &&& if is_negative(s, frac) {
        digits_val(mant_digits(s, frac)) <= NEG_MAG_MAX
    } else {
        digits_val(mant_digits(s, frac)) <= POS_MAG_MAX
    }
}

/// The erasure placeholder.
pub open spec fn placeholder() -> Seq<char> {
    seq!['N', 'N', 'N']
}

/// The line with its signed numeral replaced by the placeholder.
pub open spec fn erased_line(s: Seq<char>, frac: bool) -> Seq<char> {
    s.subrange(0, sign_start(s, frac)) + placeholder() + s.subrange(
        last_digit_end(s),
        s.len() as int,
    )
}

/// The key a line accumulates under.
pub open spec fn extract_key(s: Seq<char>, mode: Mode, erase: bool) -> Seq<char> {
    if mode != Mode::Unit && erase && has_digit(s) {
        erased_line(s, mode == Mode::Fractional)
    } else {
        s
    }
}

/// The weight of a line, as mantissa and scale.
pub open spec fn weight_of(s: Seq<char>, mode: Mode) -> (int, int) {
    if mode == Mode::Unit || !has_digit(s) {
        (1, 0)
    } else {
        (weight_mant(s, mode == Mode::Fractional), weight_scale(s, mode == Mode::Fractional))
    }
}

/// The weight of a line as a decimal; meaningful when extraction succeeds.
pub open spec fn spec_weight(s: Seq<char>, mode: Mode) -> Dec {
    Dec { man: weight_of(s, mode).0 as i128, sc: weight_of(s, mode).1 as u32 }
}

/// Whether extraction succeeds on this line.
pub open spec fn extract_ok(s: Seq<char>, mode: Mode) -> bool {
    mode == Mode::Unit || !has_digit(s) || parse_fits(s, mode == Mode::Fractional)
}

fn is_digit_exec(c: char) -> (b: bool)
    ensures
        b == is_digit(c),
{
    let u = c as u32;
    48 <= u && u <= 57
}

/// The position just after the last digit of `line`.
fn find_last_digit_end(line: &str) -> (r: usize)
    ensures
        r == last_digit_end(line@),
{
    let n = line.unicode_len();
    let mut k = n;
    proof {
        assert(line@.subrange(0, n as int) =~= line@);
    }
    loop
        invariant
            k <= n,
            n == line@.len(),
            last_digit_end(line@) == last_digit_end(line@.subrange(0, k as int)),
        decreases k,
    {
        proof {
            assert(line@.subrange(0, k as int).len() == k);
        }
        if k == 0 {
            proof {
                assert(line@.subrange(0, 0) =~= Seq::<char>::empty());
            }
            return 0;
        }
        let c = line.get_char(k - 1);
        proof {
            assert(line@.subrange(0, k as int).last() == line@[k - 1]);
        }
        if is_digit_exec(c) {
            return k;
        }
        proof {
            assert(line@.subrange(0, k as int).drop_last() =~= line@.subrange(0, k - 1));
        }
        k = k - 1;
    }
}

/// The start of the digit run that ends just before `e`.
fn find_run_start(line: &str, e: usize) -> (r: usize)
    requires
        e <= line@.len(),
    ensures
        r == run_start(line@, e as int),
        r <= e,
{
    let mut i = e;
    loop
        invariant
            i <= e <= line@.len(),
            run_start(line@, e as int) == run_start(line@, i as int),
        decreases i,
    {
        if i == 0 {
            return 0;
        }
        let c = line.get_char(i - 1);
        if !is_digit_exec(c) {
            return i;
        }
        i = i - 1;
    }
}

/// A digit string is worth no less than any of its prefixes.
proof fn lemma_digits_val_prefix(x: Seq<char>, y: Seq<char>)
    ensures
        digits_val(x) <= digits_val(x + y),
    decreases y.len(),
{
    if y.len() == 0 {
        assert(x + y =~= x);
    } else {
        lemma_digits_val_prefix(x, y.drop_last());
        assert((x + y).drop_last() =~= x + y.drop_last());
        assert(digits_val(x + y) == 10 * digits_val(x + y.drop_last()) + digit_val((x + y).last()));
    }
}

/// Accumulate the digits of `line[a..b]` onto `acc0`, the value of the
/// digit string `pref`, capped at `NEG_MAG_MAX`.
fn parse_run(line: &str, a: usize, b: usize, acc0: u64, pref: Ghost<Seq<char>>) -> (r: Option<u64>)
    requires
        a <= b <= line@.len(),
        forall|k: int| a <= k < b ==> is_digit(line@[k]),
        acc0 == digits_val(pref@),
        acc0 <= NEG_MAG_MAX,
    ensures
        match r {
            Some(v) => v == digits_val(pref@ + line@.subrange(a as int, b as int)) && v
                <= NEG_MAG_MAX,
            None => digits_val(pref@ + line@.subrange(a as int, b as int)) > NEG_MAG_MAX,
        },
{
    let mut acc: u64 = acc0;
    let mut idx: usize = a;
    proof {
        assert(pref@ + line@.subrange(a as int, a as int) =~= pref@);
    }
    while idx < b
        invariant
            a <= idx <= b <= line@.len(),
            forall|k: int| a <= k < b ==> is_digit(line@[k]),
            acc == digits_val(pref@ + line@.subrange(a as int, idx as int)),
            acc <= NEG_MAG_MAX,
        decreases b - idx,
    {
        let c = line.get_char(idx);
        let u = c as u32;
        proof {
            assert(is_digit(line@[idx as int]));
        }
        let d = u - 48;
        let t: u128 = (acc as u128) * 10 + (d as u128);
        proof {
            let cur = pref@ + line@.subrange(a as int, idx as int);
            let nxt = pref@ + line@.subrange(a as int, idx as int + 1);
            assert(nxt.drop_last() =~= cur);
            assert(nxt.last() == line@[idx as int]);
            assert(digits_val(nxt) == 10 * digits_val(cur) + digit_val(line@[idx as int]));
        }
        if t > NEG_MAG_MAX as u128 {
            proof {
                let nxt = pref@ + line@.subrange(a as int, idx as int + 1);
                let whole = pref@ + line@.subrange(a as int, b as int);
                assert(nxt + line@.subrange(idx as int + 1, b as int) =~= whole);
                lemma_digits_val_prefix(nxt, line@.subrange(idx as int + 1, b as int));
            }
            return None;
        }
        acc = t as u64;
        idx = idx + 1;
    }
    Some(acc)
}

/// The line with `line[s0..e]` replaced by the placeholder text.
fn build_erased(line: &str, s0: usize, e: usize) -> (t: String)
    requires
        s0 <= e <= line@.len(),
    ensures
        t@ == line@.subrange(0, s0 as int) + placeholder() + line@.subrange(
            e as int,
            line@.len() as int,
        ),
{
    let n = line.unicode_len();
    let pre = line.substring_char(0, s0);
    let suf = line.substring_char(e, n);
    let t = String::from_str(pre).concat("NNN").concat(suf);
    proof {
        reveal_strlit("NNN");
        assert(("NNN")@ =~= placeholder());
    }
    t
}

/// Extract a line's weight and, under erasure, its rewritten key.
///
/// On success the weight is exactly the line's numeral (or 1 when the mode
/// is `Unit` or the line has no digit), and a rewritten line is returned
/// exactly when erasure applies. The only failure is a numeral that does
/// not fit the weight type.
pub fn extract(line: &str, mode: Mode, erase: bool) -> (r: Result<(Option<String>, Dec), Error>)
    ensures
        r is Ok <==> extract_ok(line@, mode),
        r matches Ok(p) ==> {
            &&& p.1.wf()
            &&& p.1.man as int == weight_of(line@, mode).0
            &&& p.1.sc as int == weight_of(line@, mode).1
            &&& (p.0 is Some <==> mode != Mode::Unit && erase && has_digit(line@))
            &&& (p.0 matches Some(t) ==> t@ == erased_line(line@, mode == Mode::Fractional))
        },
        r matches Err(e) ==> e == Error::NumeralOverflow,
{
    let frac = match mode {
        Mode::Fractional => true,
        _ => false,
    };
    match mode {
        Mode::Unit => {
            return Ok((None, Dec { man: 1, sc: 0 }));
        },
        _ => {},
    }
    let ghost s = line@;
    let e = find_last_digit_end(line);
    proof {
        lemma_last_digit_end(s);
    }
    if e == 0 {
        return Ok((None, Dec { man: 1, sc: 0 }));
    }
    let i = find_run_start(line, e);
    proof {
        lemma_run_start(s, e as int);
    }
    // Decide the numeral's shape and find the start of its digits.
    let mut num_a: usize = i;
    let mut int_b: usize = i;  // exclusive end of the integer-part run, frac shape only
    let mut is_frac_shape = false;
    if frac && i >= 2 {
        let c1 = line.get_char(i - 1);
        let c2 = line.get_char(i - 2);
        if c1 == '.' && is_digit_exec(c2) {
            is_frac_shape = true;
            int_b = i - 1;
            num_a = find_run_start(line, i - 1);
            proof {
                lemma_run_start(s, i - 1);
            }
        }
    }
    proof {
        assert(is_frac_shape == (frac && frac_part(s)));
        assert(num_a as int == num_start(s, frac));
    }
    // The scale is the length of the fraction run.
    let scale_usize = if is_frac_shape {
        e - i
    } else {
        0
    };
    if scale_usize > SCALE_MAX as usize {
        return Err(Error::NumeralOverflow);
    }
    let sc: u32 = scale_usize as u32;
    // Parse the mantissa digits.
    let parsed = if is_frac_shape {
        let first = parse_run(line, num_a, int_b, 0, Ghost(Seq::<char>::empty()));
        proof {
            assert(Seq::<char>::empty() + s.subrange(num_a as int, int_b as int) =~= s.subrange(
                num_a as int,
                int_b as int,
            ));
        }
        match first {
            None => None,
            Some(acc1) => parse_run(line, i, e, acc1, Ghost(s.subrange(num_a as int, int_b as int))),
        }
    } else {
        let p = parse_run(line, i, e, 0, Ghost(Seq::<char>::empty()));
        proof {
            assert(Seq::<char>::empty() + s.subrange(i as int, e as int) =~= s.subrange(
                i as int,
                e as int,
            ));
        }
        p
    };
    proof {
        if is_frac_shape {
            assert(mant_digits(s, frac) =~= s.subrange(num_a as int, int_b as int) + s.subrange(
                i as int,
                e as int,
            ));
        } else {
            assert(mant_digits(s, frac) =~= s.subrange(i as int, e as int));
        }
    }
    let mag = match parsed {
        None => {
            proof {
                if is_frac_shape {
                    lemma_digits_val_prefix(
                        s.subrange(num_a as int, int_b as int),
                        s.subrange(i as int, e as int),
                    );
                }
            }
            return Err(Error::NumeralOverflow);
        },
        Some(v) => v,
    };
    // Read the sign.
    let mut neg = false;
    let mut s0: usize = num_a;
    if num_a > 0 {
        let cs = line.get_char(num_a - 1);
        if cs == '-' {
            neg = true;
            s0 = num_a - 1;
        } else if cs == '+' {
            s0 = num_a - 1;
        }
    }
    proof {
        assert(neg == is_negative(s, frac));
        assert(s0 as int == sign_start(s, frac));
    }
    if !neg && mag > POS_MAG_MAX {
        return Err(Error::NumeralOverflow);
    }
    let man: i128 = if neg {
        -(mag as i128)
    } else {
        mag as i128
    };
    let w = Dec { man, sc };
    let rew = if erase {
        Some(build_erased(line, s0, e))
    } else {
        None
    };
    Ok((rew, w))
}

} // verus!
