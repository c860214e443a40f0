//! Unit tests of the extractor, the weight arithmetic and the failure
//! modes.

use counts::dec::Dec;
use counts::extract::{extract, Error, Mode};
use counts::hist::Histogram;

#[test]
fn unit_never_extracts() {
    let (rew, w) = extract("foo 42", Mode::Unit, true).unwrap();
    assert!(rew.is_none());
    assert_eq!(w, Dec { man: 1, sc: 0 });
}

#[test]
fn integral_extracts_rightmost_numeral() {
    let (rew, w) = extract("foo 42", Mode::Integral, false).unwrap();
    assert!(rew.is_none());
    assert_eq!(w, Dec { man: 42, sc: 0 });

    // The run matched is the last one followed by no further digit.
    let (_, w) = extract("baz 23 - 2", Mode::Integral, false).unwrap();
    assert_eq!(w, Dec { man: 2, sc: 0 });

    // An adjacent sign belongs to the numeral.
    let (_, w) = extract("bar + -9", Mode::Integral, false).unwrap();
    assert_eq!(w, Dec { man: -9, sc: 0 });

    // A line without a digit weighs one.
    let (rew, w) = extract("no digits here", Mode::Integral, true).unwrap();
    assert!(rew.is_none());
    assert_eq!(w, Dec { man: 1, sc: 0 });
}

#[test]
fn integral_erasure_rewrites() {
    let (rew, w) = extract("foo -42 ms", Mode::Integral, true).unwrap();
    assert_eq!(rew.unwrap(), "foo NNN ms");
    assert_eq!(w, Dec { man: -42, sc: 0 });

    // Integral matching stops at the decimal point.
    let (rew, w) = extract("ghi (3.7%)", Mode::Integral, true).unwrap();
    assert_eq!(rew.unwrap(), "ghi (3.NNN%)");
    assert_eq!(w, Dec { man: 7, sc: 0 });
}

#[test]
fn fractional_extracts_decimals() {
    let (rew, w) = extract("abc (41.3%)", Mode::Fractional, true).unwrap();
    assert_eq!(rew.unwrap(), "abc (NNN%)");
    assert_eq!(w, Dec { man: 413, sc: 1 });

    // The sign is part of the erased run.
    let (rew, w) = extract("bar + -6.6", Mode::Fractional, true).unwrap();
    assert_eq!(rew.unwrap(), "bar + NNN");
    assert_eq!(w, Dec { man: -66, sc: 1 });

    // Only one decimal point can belong to the numeral.
    let (_, w) = extract("v 1.2.3", Mode::Fractional, false).unwrap();
    assert_eq!(w, Dec { man: 23, sc: 1 });

    // A bare integer parses with no fraction digits.
    let (_, w) = extract("baz 23 - 2", Mode::Fractional, false).unwrap();
    assert_eq!(w, Dec { man: 2, sc: 0 });
}

#[test]
fn numeral_overflow_is_fatal() {
    // More than the 64-bit signed range.
    let r = extract("x 99999999999999999999", Mode::Integral, false);
    assert_eq!(r, Err(Error::NumeralOverflow));

    // The integral bound is asymmetric around zero.
    let (_, w) = extract("x -9223372036854775808", Mode::Integral, false).unwrap();
    assert_eq!(w, Dec { man: -9223372036854775808, sc: 0 });
    let r = extract("x 9223372036854775808", Mode::Integral, false);
    assert_eq!(r, Err(Error::NumeralOverflow));

    // Too many fraction digits for the exact representation.
    let r = extract("x 0.1234567890123456789", Mode::Fractional, false);
    assert_eq!(r, Err(Error::NumeralOverflow));
    let (_, w) = extract("x 0.123456789012345678", Mode::Fractional, false).unwrap();
    assert_eq!(w, Dec { man: 123456789012345678, sc: 18 });
}

#[test]
fn sum_overflow_is_fatal() {
    let mut h = Histogram::new(Mode::Integral, false);
    h.add_line("x 9223372036854775807").unwrap();
    let r = h.add_line("x 9223372036854775807");
    assert_eq!(r, Err(Error::SumOverflow));
}

#[test]
fn percent_overflow_is_fatal() {
    // A tiny total with a huge row: the percentage leaves the range.
    let mut h = Histogram::new(Mode::Fractional, false);
    h.add_line("a 9000000000000000000").unwrap();
    h.add_line("b -9000000000000000000").unwrap();
    h.add_line("c 0.000000000000000001").unwrap();
    let r = h.render();
    assert_eq!(r, Err(Error::PercentOverflow));
}

#[test]
fn add_line_reports_failed_line_and_keeps_state() {
    let mut h = Histogram::new(Mode::Integral, false);
    h.add_line("a 3").unwrap();
    assert_eq!(h.add_line("b 99999999999999999999"), Err(Error::NumeralOverflow));
    // The failed line left the histogram unchanged.
    assert_eq!(h.render().unwrap(), "3 counts (weighted integral)\n(  1)        3 (100.0%,100.0%): a 3\n");
}

#[test]
fn error_descriptions() {
    assert_eq!(Error::NumeralOverflow.describe(), "numeral out of range");
    assert_eq!(Error::SumOverflow.describe(), "sum out of range");
    assert_eq!(Error::PercentOverflow.describe(), "percentage out of range");
}

#[test]
fn zero_total_emits_no_rows() {
    // Signed weights may cancel to zero; then nothing can be ranked.
    let mut h = Histogram::new(Mode::Integral, false);
    h.add_line("a 5").unwrap();
    h.add_line("b -5").unwrap();
    assert_eq!(h.render().unwrap(), "0 counts (weighted integral)\n");
}

#[test]
fn grand_total_is_sum_of_rows() {
    // Weights of all rows add up to the total shown in the header.
    let input = ["a 2", "b 3", "a 2", "c -4"];
    let mut h = Histogram::new(Mode::Integral, false);
    for line in input {
        h.add_line(line).unwrap();
    }
    let report = h.render().unwrap();
    assert_eq!(
        report,
        "3 counts (weighted integral)\n\
         (  1)        4 (133.3%,133.3%): a 2\n\
         (  2)       -4 (-133.3%,  0.0%): c -4\n\
         (  3)        3 (100.0%,100.0%): b 3\n"
    );
}

#[test]
fn ties_rank_lexicographically() {
    let mut h = Histogram::new(Mode::Unit, false);
    for line in ["pear", "apple", "orange"] {
        h.add_line(line).unwrap();
    }
    assert_eq!(
        h.render().unwrap(),
        "3 counts\n\
         (  1)        1 (33.3%, 33.3%): apple\n\
         (  2)        1 (33.3%, 66.7%): orange\n\
         (  3)        1 (33.3%,100.0%): pear\n"
    );
}
