//! The laws of the report, proved once and for all.
//!
//! These proof functions state the global properties of a finished report:
//! the grand total accounts for every row's weight, the rows come in
//! report order, the cumulative percentage closes at exactly one hundred
//! percent, and the whole report is determined by the accumulated table
//! alone.

use vstd::prelude::*;
use vstd::relations::sorted_by;
use crate::dec::{
    Dec, pair_scaled, pair_wf, pd, pct_val, sum_mant, mant_fits, lemma_sum_mant_scaled,
    lemma_rat_round_self,
};
use crate::hist::{Histogram, map_sum, lemma_map_sum_empty, lemma_map_sum_insert};
use crate::order::{RowM, row_le, row_le_fn, abs_i, lex_leq};
use crate::sort::{rows_match, canonical_rows, lemma_rows_match_unique};
use crate::text::{render_err, acc_after};

verus! {

broadcast use vstd::set::group_set_axioms, vstd::map::group_map_axioms;

/// The sum of the scaled weights of rows `k..`.
pub open spec fn rows_sum_from(rows: Seq<RowM>, k: int) -> int
    decreases rows.len() - k,
{
    if k < 0 || k >= rows.len() {
        0
    } else {
        pair_scaled(rows[k].1) + rows_sum_from(rows, k + 1)
    }
}

/// The sum of the scaled weights of all rows.
pub open spec fn rows_sum(rows: Seq<RowM>) -> int {
    rows_sum_from(rows, 0)
}

proof fn lemma_rows_sum_from_drop(rows: Seq<RowM>, k: int)
    requires
        rows.len() > 0,
        0 <= k <= rows.len() - 1,
    ensures
        rows_sum_from(rows, k) == rows_sum_from(rows.drop_last(), k) + pair_scaled(
            rows.last().1,
        ),
    decreases rows.len() - k,
{
    assert(rows_sum_from(rows, k) == pair_scaled(rows[k].1) + rows_sum_from(rows, k + 1));
    if k == rows.len() - 1 {
        assert(rows_sum_from(rows, k + 1) == 0);
        assert(rows_sum_from(rows.drop_last(), k) == 0);
        assert(rows[k] == rows.last());
    } else {
        lemma_rows_sum_from_drop(rows, k + 1);
        assert(rows.drop_last()[k] == rows[k]);
        assert(rows_sum_from(rows.drop_last(), k) == pair_scaled(rows.drop_last()[k].1)
            + rows_sum_from(rows.drop_last(), k + 1));
    }
}

/// A listing of a table's entries sums to the table's sum.
proof fn lemma_rows_sum_is_map_sum(rows: Seq<RowM>, m: Map<Seq<char>, (i128, u32)>)
    requires
        m.dom().finite(),
        rows_match(rows, m),
    ensures
        rows_sum(rows) == map_sum(m),
    decreases rows.len(),
{
    if rows.len() == 0 {
        assert(m.dom() =~= Set::empty());
        assert(m =~= Map::empty());
        lemma_map_sum_empty();
    } else {
        let last = rows.last();
        let rest = rows.drop_last();
        let m2 = m.remove(last.0);
        assert(m.contains_pair(last.0, last.1));
        assert(m2.dom() =~= m.dom().remove(last.0));
        assert(rows_match(rest, m2)) by {
            assert forall|i: int| 0 <= i < rest.len() implies m2.contains_pair(
                #[trigger] rest[i].0,
                rest[i].1,
            ) by {
                assert(rest[i] == rows[i]);
                assert(rows[i].0 != last.0);
            }
            assert forall|k: Seq<char>| #[trigger] m2.dom().contains(k) implies exists|i: int|
                0 <= i < rest.len() && #[trigger] rest[i].0 == k by {
                let i = choose|i: int| 0 <= i < rows.len() && #[trigger] rows[i].0 == k;
                assert(i != rows.len() - 1);
                assert(rest[i].0 == k);
            }
        }
        lemma_rows_sum_is_map_sum(rest, m2);
        lemma_map_sum_insert(m2, last.0, last.1);
        assert(m2.insert(last.0, last.1) =~= m);
        lemma_rows_sum_from_drop(rows, 0);
    }
}

/// The grand total accounts for every row: the sum of the weights of any
/// listing of the accumulated table is exactly the grand total.
pub proof fn lemma_total_accounts_for_rows(h: Histogram, rows: Seq<RowM>)
    requires
        h.inv(),
        rows_match(rows, h.contents()),
    ensures
        rows_sum(rows) == h.total_w().scaled(),
{
    lemma_rows_sum_is_map_sum(rows, h.contents());
}

/// In a sorted report the weight magnitude never increases from one row
/// to a later one, and rows of equal magnitude come in ascending
/// lexicographic order of their line text.
pub proof fn lemma_report_order(rows: Seq<RowM>, i: int, j: int)
    requires
        sorted_by(rows, row_le_fn()),
        0 <= i < j < rows.len(),
    ensures
        abs_i(pair_scaled(rows[i].1)) >= abs_i(pair_scaled(rows[j].1)),
        abs_i(pair_scaled(rows[i].1)) == abs_i(pair_scaled(rows[j].1)) ==> lex_leq(
            rows[i].0,
            rows[j].0,
        ),
{
    assert(row_le_fn()(rows[i], rows[j]));
    assert(row_le(rows[i], rows[j]));
    crate::order::lemma_lex_refl(rows[i].0);
}

/// The report is a pure function of the accumulated table: any sorted
/// listing of the table's entries is the one canonical listing, whatever
/// order the entries were visited in. Rendering a table twice therefore
/// yields the same text both times.
pub proof fn lemma_report_deterministic(
    s1: Seq<RowM>,
    s2: Seq<RowM>,
    m: Map<Seq<char>, (i128, u32)>,
)
    requires
        sorted_by(s1, row_le_fn()),
        sorted_by(s2, row_le_fn()),
        rows_match(s1, m),
        rows_match(s2, m),
    ensures
        s1 == s2,
        s1 == canonical_rows(m),
{
    lemma_rows_match_unique(s1, s2, m);
    assert(exists|s: Seq<RowM>| sorted_by(s, row_le_fn()) && rows_match(s, m)) by {
        assert(sorted_by(s1, row_le_fn()) && rows_match(s1, m));
    }
    lemma_rows_match_unique(s1, canonical_rows(m), m);
}

/// The running sum after feeding rows `k..` to `acc`.
pub open spec fn acc_all(rows: Seq<RowM>, acc: Dec, k: int) -> Dec
    decreases rows.len() - k,
{
    if k < 0 || k >= rows.len() {
        acc
    } else {
        acc_all(rows, acc_after(acc, pd(rows[k].1)), k + 1)
    }
}

proof fn lemma_acc_all_scaled(rows: Seq<RowM>, total: Dec, acc: Dec, k: int)
    requires
        0 <= k <= rows.len(),
        acc.wf(),
        total.wf(),
        forall|i: int| 0 <= i < rows.len() ==> pair_wf(#[trigger] rows[i].1),
        render_err(rows, total, acc, k) is None,
    ensures
        acc_all(rows, acc, k).wf(),
        acc_all(rows, acc, k).scaled() == acc.scaled() + rows_sum_from(rows, k),
    decreases rows.len() - k,
{
    if k < rows.len() {
        let w = pd(rows[k].1);
        assert(pair_wf(rows[k].1));
        let acc2 = acc_after(acc, w);
        assert(mant_fits(sum_mant(acc, w)));
        lemma_sum_mant_scaled(acc, w);
        assert(acc2.wf());
        assert(acc2.scaled() == acc.scaled() + w.scaled());
        lemma_acc_all_scaled(rows, total, acc2, k + 1);
    }
}

/// The cumulative percentage closes at exactly one hundred percent: after
/// the last row, the running sum is the grand total, and its percentage
/// against the total is exactly 1000 tenths, printed `100.0`. This holds
/// for any mix of signs, as long as the total is not zero and no sum or
/// percentage left the machine range.
pub proof fn lemma_last_cumulative_is_hundred(rows: Seq<RowM>, total: Dec)
    requires
        total.wf(),
        total.scaled() != 0,
        forall|i: int| 0 <= i < rows.len() ==> pair_wf(#[trigger] rows[i].1),
        render_err(rows, total, Dec { man: 0, sc: 0 }, 0) is None,
        rows_sum(rows) == total.scaled(),
    ensures
        pct_val(acc_all(rows, Dec { man: 0, sc: 0 }, 0), total) == 1000,
{
    let zero = Dec { man: 0, sc: 0 };
    assert(zero.scaled() == 0);
    lemma_acc_all_scaled(rows, total, zero, 0);
    let fin = acc_all(rows, zero, 0);
    assert(fin.scaled() == total.scaled());
    lemma_rat_round_self(total.scaled());
}

} // verus!
