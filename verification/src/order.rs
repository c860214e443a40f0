//! The report's row order.
//!
//! Rows are ranked by descending weight magnitude; rows of equal magnitude
//! are ranked by ascending line text, by code point — the byte order of the
//! lines' UTF-8 forms. The relation is a total order over row models, which
//! makes the sorted report unique.

use vstd::prelude::*;
use vstd::relations::total_ordering;
use crate::dec::{Dec, pair_wf, pair_scaled, scaled_exec};

verus! {

/// The model of one report row: line content and accumulated weight pair.
pub type RowM = (Seq<char>, (i128, u32));

/// Lexicographic order on character sequences, by code point.
pub open spec fn lex_leq(a: Seq<char>, b: Seq<char>) -> bool
    decreases a.len(),
{
    if a.len() == 0 {
        true
    } else if b.len() == 0 {
        false
    } else if a[0] == b[0] {
        lex_leq(a.drop_first(), b.drop_first())
    } else {
        (a[0] as u32) < (b[0] as u32)
    }
}

pub proof fn lemma_lex_refl(a: Seq<char>)
    ensures
        lex_leq(a, a),
    decreases a.len(),
{
    if a.len() > 0 {
        lemma_lex_refl(a.drop_first());
    }
}

pub proof fn lemma_lex_conn(a: Seq<char>, b: Seq<char>)
    ensures
        lex_leq(a, b) || lex_leq(b, a),
    decreases a.len(),
{
    if a.len() == 0 {
    } else if b.len() == 0 {
    } else if a[0] == b[0] {
        lemma_lex_conn(a.drop_first(), b.drop_first());
    } else {
        if a[0] as u32 == b[0] as u32 {
            lemma_char_eq(a[0], b[0]);
        }
    }
}

pub proof fn lemma_lex_antisym(a: Seq<char>, b: Seq<char>)
    requires
        lex_leq(a, b),
        lex_leq(b, a),
    ensures
        a == b,
    decreases a.len(),
{
    if a.len() == 0 {
        assert(b.len() == 0);
        assert(a =~= b);
    } else {
        assert(b.len() > 0);
        if a[0] == b[0] {
            lemma_lex_antisym(a.drop_first(), b.drop_first());
            assert forall|i: int| 0 <= i < a.len() implies a[i] == b[i] by {
                if i > 0 {
                    assert(a.drop_first()[i - 1] == b.drop_first()[i - 1]);
                }
            }
            assert(a =~= b);
        } else {
            if a[0] as u32 == b[0] as u32 {
                lemma_char_eq(a[0], b[0]);
            }
        }
    }
}

pub proof fn lemma_lex_trans(a: Seq<char>, b: Seq<char>, c: Seq<char>)
    requires
        lex_leq(a, b),
        lex_leq(b, c),
    ensures
        lex_leq(a, c),
    decreases a.len(),
{
    if a.len() == 0 {
    } else {
        assert(b.len() > 0);
        assert(c.len() > 0);
        if a[0] == b[0] && b[0] == c[0] {
            lemma_lex_trans(a.drop_first(), b.drop_first(), c.drop_first());
        }
    }
}

/// A shared prefix does not affect the lexicographic comparison.
pub proof fn lemma_lex_skip(a: Seq<char>, b: Seq<char>, i: int)
    requires
        0 <= i <= a.len(),
        i <= b.len(),
        forall|k: int| 0 <= k < i ==> a[k] == b[k],
    ensures
        lex_leq(a, b) == lex_leq(a.skip(i), b.skip(i)),
    decreases i,
{
    if i == 0 {
        assert(a.skip(0) =~= a);
        assert(b.skip(0) =~= b);
    } else {
        assert(a.len() > 0 && b.len() > 0 && a[0] == b[0]);
        lemma_lex_skip(a.drop_first(), b.drop_first(), i - 1);
        assert(a.drop_first().skip(i - 1) =~= a.skip(i));
        assert(b.drop_first().skip(i - 1) =~= b.skip(i));
        assert(forall|k: int| 0 <= k < i - 1 ==> a.drop_first()[k] == b.drop_first()[k]);
    }
}


proof fn lemma_char_eq(c1: char, c2: char)
    requires
        c1 as u32 == c2 as u32,
    ensures
        c1 == c2,
{
}

/// The absolute value.
pub open spec fn abs_i(x: int) -> int {
    if x < 0 {
        -x
    } else {
        x
    }
}

/// The row order: larger weight magnitude first; among equal magnitudes,
/// lines in ascending lexicographic order; rows of one line finally by
/// their stored weight pair, which makes the relation a total order.
pub open spec fn row_le(a: RowM, b: RowM) -> bool {
    let aa = abs_i(pair_scaled(a.1));
    let ab = abs_i(pair_scaled(b.1));
    if aa != ab {
        aa > ab
    } else if a.0 != b.0 {
        lex_leq(a.0, b.0)
    } else if a.1.0 != b.1.0 {
        a.1.0 < b.1.0
    } else {
        a.1.1 <= b.1.1
    }
}

/// The row order as a first-class relation.
pub open spec fn row_le_fn() -> spec_fn(RowM, RowM) -> bool {
    |a: RowM, b: RowM| row_le(a, b)
}

/// The row order is a total order.
pub proof fn lemma_row_le_total()
    ensures
        total_ordering(row_le_fn()),
{
    let leq = row_le_fn();
    assert forall|a: RowM| #[trigger] leq(a, a) by {
        lemma_lex_refl(a.0);
    }
    assert forall|a: RowM, b: RowM| #[trigger] leq(a, b) && #[trigger] leq(b, a) implies a == b by {
        if a.0 != b.0 {
            lemma_lex_antisym(a.0, b.0);
        }
        assert(a.0 == b.0);
        assert(a.1.0 == b.1.0);
        assert(a.1.1 == b.1.1);
        assert(a.1 == b.1);
    }
    assert forall|a: RowM, b: RowM, c: RowM|
        #[trigger] leq(a, b) && #[trigger] leq(b, c) implies leq(a, c) by {
        let aa = abs_i(pair_scaled(a.1));
        let ab = abs_i(pair_scaled(b.1));
        let ac = abs_i(pair_scaled(c.1));
        if aa == ab && ab == ac {
            if a.0 != b.0 && b.0 != c.0 {
                lemma_lex_trans(a.0, b.0, c.0);
                if a.0 == c.0 {
                    lemma_lex_antisym(a.0, b.0);
                }
            }
        }
    }
    assert forall|a: RowM, b: RowM| #[trigger] leq(a, b) || #[trigger] leq(b, a) by {
        let aa = abs_i(pair_scaled(a.1));
        let ab = abs_i(pair_scaled(b.1));
        if aa == ab && a.0 != b.0 {
            lemma_lex_conn(a.0, b.0);
        }
    }
}

/// Three-way comparison of two strings, in code-point order.
fn str_cmp(x: &str, y: &str) -> (r: i8)
    ensures
        (r == 0) <==> x@ == y@,
        (r < 0) <==> (x@ != y@ && lex_leq(x@, y@)),
        (r > 0) <==> (x@ != y@ && !lex_leq(x@, y@)),
{
    let nx = x.unicode_len();
    let ny = y.unicode_len();
    let mut i: usize = 0;
    loop
        invariant
            i <= nx,
            i <= ny,
            nx == x@.len(),
            ny == y@.len(),
            forall|k: int| 0 <= k < i ==> x@[k] == y@[k],
        decreases nx - i,
    {
        proof {
            lemma_lex_skip(x@, y@, i as int);
        }
        if i == nx {
            if i == ny {
                proof {
                    assert(x@ =~= y@);
                }
                return 0;
            }
            proof {
                assert(x@.skip(i as int).len() == 0);
                assert(x@.len() != y@.len());
            }
            return -1;
        }
        if i == ny {
            proof {
                assert(y@.skip(i as int).len() == 0);
                assert(x@.skip(i as int).len() > 0);
            }
            return 1;
        }
        let cx = x.get_char(i);
        let cy = y.get_char(i);
        let ux = cx as u32;
        let uy = cy as u32;
        proof {
            assert(x@.skip(i as int)[0] == x@[i as int]);
            assert(y@.skip(i as int)[0] == y@[i as int]);
        }
        if ux < uy {
            proof {
                assert(x@[i as int] != y@[i as int]);
            }
            return -1;
        }
        if ux > uy {
            proof {
                assert(x@[i as int] != y@[i as int]);
            }
            return 1;
        }
        proof {
            assert(cx == cy);
        }
        i = i + 1;
    }
}

/// The model of an owned row.
pub open spec fn row_model(p: (String, (i128, u32))) -> RowM {
    (p.0@, p.1)
}

/// Whether `a` comes no later than `b` in the report.
pub fn row_le_exec(a: &(String, (i128, u32)), b: &(String, (i128, u32))) -> (r: bool)
    requires
        pair_wf(a.1),
        pair_wf(b.1),
    ensures
        r == row_le(row_model(*a), row_model(*b)),
{
    let sa = scaled_exec(Dec { man: a.1.0, sc: a.1.1 });
    let sb = scaled_exec(Dec { man: b.1.0, sc: b.1.1 });
    proof {
        crate::dec::lemma_pow10_18();
    }
    let aa = if sa < 0 {
        -sa
    } else {
        sa
    };
    let ab = if sb < 0 {
        -sb
    } else {
        sb
    };
    if aa != ab {
        return aa > ab;
    }
    let c = str_cmp(a.0.as_str(), b.0.as_str());
    if c != 0 {
        return c < 0;
    }
    proof {
        lemma_lex_refl(a.0@);
    }
    if a.1.0 != b.1.0 {
        return a.1.0 < b.1.0;
    }
    a.1.1 <= b.1.1
}

} // verus!
