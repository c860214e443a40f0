//! End-to-end report tests: feed lines, compare the rendered report.

use counts::extract::Mode;
use counts::hist::Histogram;

fn run(input: &str, mode: Mode, erase: bool) -> String {
    let mut h = Histogram::new(mode, erase);
    for line in input.lines() {
        h.add_line(line).unwrap();
    }
    h.render().unwrap()
}

#[test]
fn empty() {
    let input = "";
    let tests: Vec<(Mode, bool, &str)> = vec![
        (Mode::Unit, false, "0 counts\n"),
        (Mode::Integral, false, "0 counts (weighted integral)\n"),
        (Mode::Fractional, false, "0.0 counts (weighted fractional)\n"),
        (Mode::Unit, true, "0 counts\n"), // erasure has no effect in unit mode
        (Mode::Integral, true, "0 counts (weighted integral, erased)\n"),
        (Mode::Fractional, true, "0.0 counts (weighted fractional, erased)\n"),
    ];
    for (mode, erase, expected) in tests {
        assert_eq!(run(input, mode, erase), expected);
    }
}

#[test]
fn integral() {
    let input = "\
a 1
b 2
c 3
d 8
c 3
c 3
d 4
b 2
d 4
";
    assert_eq!(
        run(input, Mode::Unit, false),
        "\
9 counts
(  1)        3 (33.3%, 33.3%): c 3
(  2)        2 (22.2%, 55.6%): b 2
(  3)        2 (22.2%, 77.8%): d 4
(  4)        1 (11.1%, 88.9%): a 1
(  5)        1 (11.1%,100.0%): d 8
"
    );
    assert_eq!(
        run(input, Mode::Integral, false),
        "\
30 counts (weighted integral)
(  1)        9 (30.0%, 30.0%): c 3
(  2)        8 (26.7%, 56.7%): d 4
(  3)        8 (26.7%, 83.3%): d 8
(  4)        4 (13.3%, 96.7%): b 2
(  5)        1 ( 3.3%,100.0%): a 1
"
    );
    assert_eq!(
        run(input, Mode::Integral, true),
        "\
30 counts (weighted integral, erased)
(  1)       16 (53.3%, 53.3%): d NNN
(  2)        9 (30.0%, 83.3%): c NNN
(  3)        4 (13.3%, 96.7%): b NNN
(  4)        1 ( 3.3%,100.0%): a NNN
"
    );
    assert_eq!(
        run(input, Mode::Fractional, false),
        "\
30.0 counts (weighted fractional)
(  1)      9.0 (30.0%, 30.0%): c 3
(  2)      8.0 (26.7%, 56.7%): d 4
(  3)      8.0 (26.7%, 83.3%): d 8
(  4)      4.0 (13.3%, 96.7%): b 2
(  5)      1.0 ( 3.3%,100.0%): a 1
"
    );
    assert_eq!(
        run(input, Mode::Fractional, true),
        "\
30.0 counts (weighted fractional, erased)
(  1)     16.0 (53.3%, 53.3%): d NNN
(  2)      9.0 (30.0%, 83.3%): c NNN
(  3)      4.0 (13.3%, 96.7%): b NNN
(  4)      1.0 ( 3.3%,100.0%): a NNN
"
    );
}

#[test]
fn fractional() {
    let input = "\
abc (41.3%)
abc (17.5%)
def (9.4%)
ghi (3.7%)
def (1.2%)
def (0.1%)
";
    // In integral mode only the digits after the decimal point are parsed.
    assert_eq!(
        run(input, Mode::Integral, false),
        "\
22 counts (weighted integral)
(  1)        7 (31.8%, 31.8%): ghi (3.7%)
(  2)        5 (22.7%, 54.5%): abc (17.5%)
(  3)        4 (18.2%, 72.7%): def (9.4%)
(  4)        3 (13.6%, 86.4%): abc (41.3%)
(  5)        2 ( 9.1%, 95.5%): def (1.2%)
(  6)        1 ( 4.5%,100.0%): def (0.1%)
"
    );
    assert_eq!(
        run(input, Mode::Integral, true),
        "\
22 counts (weighted integral, erased)
(  1)        7 (31.8%, 31.8%): ghi (3.NNN%)
(  2)        5 (22.7%, 54.5%): abc (17.NNN%)
(  3)        4 (18.2%, 72.7%): def (9.NNN%)
(  4)        3 (13.6%, 86.4%): abc (41.NNN%)
(  5)        2 ( 9.1%, 95.5%): def (1.NNN%)
(  6)        1 ( 4.5%,100.0%): def (0.NNN%)
"
    );
    assert_eq!(
        run(input, Mode::Fractional, false),
        "\
73.2 counts (weighted fractional)
(  1)     41.3 (56.4%, 56.4%): abc (41.3%)
(  2)     17.5 (23.9%, 80.3%): abc (17.5%)
(  3)      9.4 (12.8%, 93.2%): def (9.4%)
(  4)      3.7 ( 5.1%, 98.2%): ghi (3.7%)
(  5)      1.2 ( 1.6%, 99.9%): def (1.2%)
(  6)      0.1 ( 0.1%,100.0%): def (0.1%)
"
    );
    assert_eq!(
        run(input, Mode::Fractional, true),
        "\
73.2 counts (weighted fractional, erased)
(  1)     58.8 (80.3%, 80.3%): abc (NNN%)
(  2)     10.7 (14.6%, 94.9%): def (NNN%)
(  3)      3.7 ( 5.1%,100.0%): ghi (NNN%)
"
    );
}

#[test]
fn signed_integral() {
    let input = "\
foo +3
foo 4
foo 5
bar + -9
bar + -10
baz 23 - 2
baz 23 - +1
";
    assert_eq!(
        run(input, Mode::Integral, true),
        "\
-4 counts (weighted integral, erased)
(  1)      -19 (475.0%,475.0%): bar + NNN
(  2)       12 (-300.0%,175.0%): foo NNN
(  3)        3 (-75.0%,100.0%): baz 23 - NNN
"
    );
}

#[test]
fn signed_fractional() {
    let input = "\
foo +3.3
foo 4.4
foo 5.5
bar + -6.6
bar + -7.0
baz 23 - 2
baz 23 - +1
";
    assert_eq!(
        run(input, Mode::Fractional, true),
        "\
2.6 counts (weighted fractional, erased)
(  1)    -13.6 (-523.1%,-523.1%): bar + NNN
(  2)     13.2 (507.7%,-15.4%): foo NNN
(  3)      3.0 (115.4%,100.0%): baz 23 - NNN
"
    );
}

#[test]
fn unit_ranking() {
    // Repeated lines in unit mode rank by how often each line occurs.
    let input = "\
a 1
b 2
c 3
d 4
d 4
c 3
c 3
d 4
b 2
d 4
";
    assert_eq!(
        run(input, Mode::Unit, false),
        "\
10 counts
(  1)        4 (40.0%, 40.0%): d 4
(  2)        3 (30.0%, 70.0%): c 3
(  3)        2 (20.0%, 90.0%): b 2
(  4)        1 (10.0%,100.0%): a 1
"
    );
}

#[test]
fn integral_weighting_accumulates() {
    // The same input weighted by its trailing numerals.
    let input = "\
a 1
b 2
c 3
d 4
d 4
c 3
c 3
d 4
b 2
d 4
";
    assert_eq!(
        run(input, Mode::Integral, false),
        "\
30 counts (weighted integral)
(  1)       16 (53.3%, 53.3%): d 4
(  2)        9 (30.0%, 83.3%): c 3
(  3)        4 (13.3%, 96.7%): b 2
(  4)        1 ( 3.3%,100.0%): a 1
"
    );
}

#[test]
fn erase_collapses_variants() {
    // Lines that differ only in their numeral share one erased key.
    let input = "\
d 4
d 8
";
    assert_eq!(
        run(input, Mode::Integral, true),
        "\
12 counts (weighted integral, erased)
(  1)       12 (100.0%,100.0%): d NNN
"
    );
}

#[test]
fn rerun_is_byte_identical() {
    let input = "\
abc (41.3%)
def (9.4%)
abc (17.5%)
ghi (3.7%)
";
    let first = run(input, Mode::Fractional, true);
    let second = run(input, Mode::Fractional, true);
    assert_eq!(first, second);
}
