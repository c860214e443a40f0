//! The histogram accumulator.
//!
//! A [`Histogram`] consumes lines one at a time. Each line's weight is
//! extracted, added to the entry of the line's key (the line itself, or its
//! erased form) and to the grand total. The accumulator's invariant ties
//! the grand total to the sum of the table's entries, which is what makes
//! the report's totals add up.

use vstd::prelude::*;
use vstd::set::fold::{is_fun_commutative, lemma_fold_insert, lemma_fold_empty};
use vstd::relations::sorted_by;
use crate::dec::{
    Dec, dec_add, sum_mant, scale_of_sum, mant_fits, pair_wf, pair_scaled, pd, SCALE_MAX,
    pct_tenths, pct_val, round_tenths,
};
use crate::extract::{Mode, Error, extract, extract_ok, extract_key, spec_weight, weight_of};
use crate::table::{Table, table, table_new, table_get, table_update, table_insert, table_drain};
use crate::order::{RowM, row_le_fn};
use crate::sort::{
    sort_rows, models, rows_match, canonical_rows, lemma_rows_match_unique,
    lemma_rows_match_permutation,
};
use crate::text::{
    header_text, suffix_text, rows_text, render_err, row_text, acc_after, digits_string,
    int_string, tenths_string, pad_string,
};

verus! {

broadcast use vstd::set::group_set_axioms, vstd::map::group_map_axioms;

/// Adding up the scaled values of table entries.
pub open spec fn sum_f() -> spec_fn(int, (Seq<char>, (i128, u32))) -> int {
    |acc: int, p: (Seq<char>, (i128, u32))| acc + pair_scaled(p.1)
}

/// The sum of the scaled values of all entries of `m`.
pub open spec fn map_sum(m: Map<Seq<char>, (i128, u32)>) -> int {
    m.kv_pairs().fold(0, sum_f())
}

proof fn lemma_kv_pairs_finite(m: Map<Seq<char>, (i128, u32)>)
    requires
        m.dom().finite(),
    ensures
        m.kv_pairs().finite(),
{
    let f = |k: Seq<char>| (k, m[k]);
    assert(m.kv_pairs() =~= m.dom().map(f));
    m.dom().lemma_map_finite(f);
}

pub proof fn lemma_map_sum_empty()
    ensures
        map_sum(Map::empty()) == 0,
{
    let m = Map::<Seq<char>, (i128, u32)>::empty();
    assert(m.kv_pairs() =~= Set::empty());
    lemma_fold_empty(0int, sum_f());
}

proof fn lemma_map_sum_insert_new(m: Map<Seq<char>, (i128, u32)>, k: Seq<char>, v: (i128, u32))
    requires
        m.dom().finite(),
        !m.dom().contains(k),
    ensures
        map_sum(m.insert(k, v)) == map_sum(m) + pair_scaled(v),
{
    lemma_kv_pairs_finite(m);
    assert(m.insert(k, v).kv_pairs() =~= m.kv_pairs().insert((k, v)));
    assert(is_fun_commutative(sum_f()));
    assert(!m.kv_pairs().contains((k, v)));
    lemma_fold_insert(m.kv_pairs(), 0int, sum_f(), (k, v));
}

/// How an insertion moves the sum of a table.
pub proof fn lemma_map_sum_insert(m: Map<Seq<char>, (i128, u32)>, k: Seq<char>, v: (i128, u32))
    requires
        m.dom().finite(),
    ensures
        m.dom().contains(k) ==> map_sum(m.insert(k, v)) == map_sum(m) - pair_scaled(m[k])
            + pair_scaled(v),
        !m.dom().contains(k) ==> map_sum(m.insert(k, v)) == map_sum(m) + pair_scaled(v),
{
    if m.dom().contains(k) {
        let m0 = m.remove(k);
        assert(m0.dom() =~= m.dom().remove(k));
        assert(m0.insert(k, m[k]) =~= m);
        assert(m.insert(k, v) =~= m0.insert(k, v));
        lemma_map_sum_insert_new(m0, k, m[k]);
        lemma_map_sum_insert_new(m0, k, v);
    } else {
        lemma_map_sum_insert_new(m, k, v);
    }
}

/// A weighted line histogram in the middle of a run.
pub struct Histogram {
    map: Table,
    total: Dec,
    mode: Mode,
    erase: bool,
}

impl Histogram {
    /// The accumulated contents: each key's line text, mapped to the
    /// weight pair accumulated under it.
    pub closed spec fn contents(self) -> Map<Seq<char>, (i128, u32)> {
        table(self.map)
    }

    /// The grand total accumulated so far.
    pub closed spec fn total_w(self) -> Dec {
        self.total
    }

    /// The weight mode of this run.
    pub closed spec fn mode_of(self) -> Mode {
        self.mode
    }

    /// Whether this run erases matched numerals from keys.
    pub closed spec fn erase_of(self) -> bool {
        self.erase
    }

    /// Internal consistency: every stored weight is well formed, and the
    /// grand total is exactly the sum of the entries.
    pub open spec fn inv(self) -> bool {
        &&& self.total_w().wf()
        &&& self.contents().dom().finite()
        &&& forall|k: Seq<char>|
            self.contents().dom().contains(k) ==> pair_wf(#[trigger] self.contents()[k])
        &&& self.total_w().scaled() == map_sum(self.contents())
        &&& self.mode_of() != Mode::Fractional ==> self.total_w().sc == 0 && forall|k: Seq<char>|
            self.contents().dom().contains(k) ==> (#[trigger] self.contents()[k]).1 == 0
    }

    /// A fresh, empty accumulator.
    pub fn new(mode: Mode, erase: bool) -> (h: Histogram)
        ensures
            h.inv(),
            h.contents() =~= Map::empty(),
            h.total_w() == (Dec { man: 0, sc: 0 }),
            h.mode_of() == mode,
            h.erase_of() == erase,
    {
        proof {
            lemma_map_sum_empty();
        }
        Histogram { map: table_new(), total: Dec::zero(), mode, erase }
    }

    /// Feed one line (without its trailing newline) into the histogram.
    ///
    /// On success the line's weight is added to its key's entry and to the
    /// grand total. A numeral that does not fit the weight type, or a sum
    /// that leaves the representable range, fails the run and leaves the
    /// accumulator unchanged.
    #[verifier::rlimit(50)]
    pub fn add_line(&mut self, line: &str) -> (r: Result<(), Error>)
        requires
            old(self).inv(),
        ensures
            final(self).inv(),
            final(self).mode_of() == old(self).mode_of(),
            final(self).erase_of() == old(self).erase_of(),
            ({
                let mode = old(self).mode_of();
                let key = extract_key(line@, mode, old(self).erase_of());
                let w = spec_weight(line@, mode);
                let prev = if old(self).contents().dom().contains(key) {
                    pd(old(self).contents()[key])
                } else {
                    Dec { man: 0, sc: 0 }
                };
                &&& (r is Ok <==> extract_ok(line@, mode) && mant_fits(sum_mant(prev, w))
                    && mant_fits(sum_mant(old(self).total_w(), w)))
                &&& (r is Ok ==> final(self).contents() == old(self).contents().insert(
                    key,
                    (sum_mant(prev, w) as i128, scale_of_sum(prev, w)),
                ) && final(self).total_w() == (Dec {
                    man: sum_mant(old(self).total_w(), w) as i128,
                    sc: scale_of_sum(old(self).total_w(), w),
                }))
                &&& (r matches Err(e) ==> {
                    &&& final(self).contents() == old(self).contents()
                    &&& final(self).total_w() == old(self).total_w()
                    &&& (e == Error::NumeralOverflow <==> !extract_ok(line@, mode))
                    &&& (e == Error::SumOverflow <==> extract_ok(line@, mode))
                })
            }),
    {
        let ghost old_contents = table(self.map);
        let mode = self.mode;
        let (rew, w) = match extract(line, mode, self.erase) {
            Ok(p) => p,
            Err(e) => {
                return Err(e);
            },
        };
        proof {
            assert(w == spec_weight(line@, mode));
        }
        let new_total = match dec_add(self.total, w) {
            Some(t) => t,
            None => {
                return Err(Error::SumOverflow);
            },
        };
        let prev_pair = match &rew {
            Some(k) => table_get(&self.map, k.as_str()),
            None => table_get(&self.map, line),
        };
        let ghost key = extract_key(line@, mode, self.erase);
        let prev = match prev_pair {
            Some(p) => Dec { man: p.0, sc: p.1 },
            None => Dec { man: 0, sc: 0 },
        };
        proof {
            if prev_pair is Some {
                assert(old(self).contents().dom().contains(key));
                assert(pair_wf(old(self).contents()[key]));
            }
        }
        let new_entry = match dec_add(prev, w) {
            Some(t) => t,
            None => {
                return Err(Error::SumOverflow);
            },
        };
        self.total = new_total;
        let pair = (new_entry.man, new_entry.sc);
        // A line is copied into an owned key only on the first occurrence
        // of that key; repeated lines are looked up and updated borrowed.
        match prev_pair {
            Some(_) => {
                let hit = match &rew {
                    Some(k) => table_update(&mut self.map, k.as_str(), pair),
                    None => table_update(&mut self.map, line, pair),
                };
                proof {
                    assert(hit);
                }
            },
            None => {
                let owned = match rew {
                    Some(k) => k,
                    None => String::from_str(line),
                };
                table_insert(&mut self.map, owned, pair);
            },
        }
        proof {
            let gp = (new_entry.man, new_entry.sc);
            lemma_map_sum_insert(old_contents, key, gp);
            assert(table(self.map) == old_contents.insert(key, gp));
            assert(self.contents().dom() =~= old_contents.dom().insert(key));
            assert(pd(gp) == new_entry);
            assert(pair_scaled(gp) == new_entry.scaled());
            assert forall|k2: Seq<char>|
                self.contents().dom().contains(k2) implies pair_wf(
                #[trigger] self.contents()[k2],
            ) by {
                if k2 == key {
                    assert(self.contents()[k2] == gp);
                } else {
                    assert(old_contents.dom().contains(k2));
                    assert(self.contents()[k2] == old_contents[k2]);
                }
            }
            if old_contents.dom().contains(key) {
                assert(old_contents[key] == (prev.man, prev.sc));
                assert(pair_scaled(old_contents[key]) == prev.scaled());
            } else {
                assert(prev.scaled() == 0);
            }
            assert(self.total.scaled() == map_sum(table(self.map)));
            if mode != Mode::Fractional {
                assert(weight_of(line@, mode).1 == 0);
                assert(w.sc == 0);
                assert forall|k2: Seq<char>|
                    self.contents().dom().contains(k2) implies (
                #[trigger] self.contents()[k2]).1 == 0 by {
                    if k2 == key {
                        assert(self.contents()[k2] == gp);
                    } else {
                        assert(old_contents.dom().contains(k2));
                        assert(self.contents()[k2] == old_contents[k2]);
                    }
                }
            }
        }
        Ok(())
    }

    /// The mode of this run.
    pub fn mode(&self) -> (m: Mode)
        ensures
            m == self.mode_of(),
    {
        self.mode
    }

    /// Render the finished histogram as the report text.
    ///
    /// The report is the header line — the grand total with its mode
    /// label — followed, when the total is not zero, by one row per
    /// distinct key in report order. It is a pure function of the
    /// accumulated contents; the only failures are percentages or running
    /// sums that leave the machine range.
    pub fn render(self) -> (r: Result<String, Error>)
        requires
            self.inv(),
        ensures
            r is Ok <==> (self.total_w().scaled() == 0 || render_err(
                canonical_rows(self.contents()),
                self.total_w(),
                Dec { man: 0, sc: 0 },
                0,
            ) is None),
            r matches Ok(t) ==> t@ == report_text(
                self.contents(),
                self.total_w(),
                self.mode_of(),
                self.erase_of(),
            ),
            r matches Err(e) ==> self.total_w().scaled() != 0 && render_err(
                canonical_rows(self.contents()),
                self.total_w(),
                Dec { man: 0, sc: 0 },
                0,
            ) == Some(e),
    {
        let Histogram { map, total, mode, erase } = self;
        let ghost m = table(map);
        let is_frac = match mode {
            Mode::Fractional => true,
            _ => false,
        };
        // The header: the total, the unit label, the mode suffix.
        let mut out = if is_frac {
            tenths_string(round_tenths(total))
        } else {
            int_string(total.man)
        };
        out.append(" counts");
        let suffix: &str = match mode {
            Mode::Unit => "",
            Mode::Integral => if erase {
                " (weighted integral, erased)"
            } else {
                " (weighted integral)"
            },
            Mode::Fractional => if erase {
                " (weighted fractional, erased)"
            } else {
                " (weighted fractional)"
            },
        };
        out.append(suffix);
        out.append("\n");
        proof {
            reveal_strlit("");
            assert(suffix@ == suffix_text(mode, erase)) by {
                if mode == Mode::Unit {
                    assert(suffix@ =~= Seq::<char>::empty());
                }
            }
            assert(out@ == header_text(total, mode, erase));
        }
        proof {
            crate::dec::lemma_pow10_pos((SCALE_MAX - total.sc) as nat);
            if total.man == 0 {
                assert(total.scaled() == 0) by {
                    vstd::arithmetic::mul::lemma_mul_basics_2(
                        crate::dec::pow10((SCALE_MAX - total.sc) as nat),
                    );
                }
            } else {
                assert(total.scaled() != 0) by {
                    vstd::arithmetic::mul::lemma_mul_nonzero(
                        total.man as int,
                        crate::dec::pow10((SCALE_MAX - total.sc) as nat),
                    );
                }
            }
        }
        if total.man == 0 {
            return Ok(out);
        }
        // Collect and rank the rows.
        let drained = table_drain(map);
        proof {
            assert forall|i: int| 0 <= i < drained@.len() implies pair_wf(
                #[trigger] models(drained@)[i].1,
            ) && models(drained@)[i] == (drained@[i].0@, drained@[i].1) by {
                assert(m.contains_pair(drained@[i].0@, drained@[i].1));
            }
            assert(rows_match(models(drained@), m)) by {
                assert forall|k: Seq<char>| #[trigger] m.dom().contains(k) implies exists|i: int|
                    0 <= i < models(drained@).len() && #[trigger] models(drained@)[i].0 == k by {
                    let i = choose|i: int| 0 <= i < drained@.len() && #[trigger] drained@[i].0@ == k;
                    assert(models(drained@)[i].0 == k);
                }
            }
            assert forall|i: int| 0 <= i < drained@.len() implies pair_wf(
                #[trigger] drained@[i].1,
            ) by {
                assert(models(drained@)[i] == (drained@[i].0@, drained@[i].1));
            }
        }
        let rows = sort_rows(drained);
        let ghost rm = models(rows@);
        proof {
            lemma_rows_match_permutation(models(drained@), rm, m);
            assert(exists|s: Seq<RowM>| sorted_by(s, row_le_fn()) && rows_match(s, m)) by {
                assert(sorted_by(rm, row_le_fn()) && rows_match(rm, m));
            }
            lemma_rows_match_unique(rm, canonical_rows(m), m);
            assert forall|i: int| 0 <= i < rows@.len() implies pd(rm[i].1) == (Dec {
                man: rows@[i].1.0,
                sc: rows@[i].1.1,
            }) && pair_wf(rm[i].1) && rm[i].0 == rows@[i].0@ by {
                assert(rm[i] == (rows@[i].0@, rows@[i].1));
            }
        }
        let ghost header = out@;
        let mut acc = Dec::zero();
        let mut idx: usize = 0;
        let n = rows.len();
        while idx < n
            invariant
                idx <= n == rows@.len(),
                rm == models(rows@),
                rm == canonical_rows(m),
                m == self.contents(),
                total == self.total_w(),
                mode == self.mode_of(),
                erase == self.erase_of(),
                forall|i: int|
                    0 <= i < rows@.len() ==> pd(#[trigger] rm[i].1) == (Dec {
                        man: rows@[i].1.0,
                        sc: rows@[i].1.1,
                    }) && pair_wf(rm[i].1) && rm[i].0 == rows@[i].0@,
                total.wf(),
                total.man != 0,
                total.scaled() != 0,
                acc.wf(),
                header == header_text(total, mode, erase),
                render_err(rm, total, Dec { man: 0, sc: 0 }, 0) == render_err(
                    rm,
                    total,
                    acc,
                    idx as int,
                ),
                header + rows_text(rm, total, mode, Dec { man: 0, sc: 0 }, 0) == out@ + rows_text(
                    rm,
                    total,
                    mode,
                    acc,
                    idx as int,
                ),
                is_frac == (mode == Mode::Fractional),
            decreases n - idx,
        {
            let w = Dec { man: rows[idx].1.0, sc: rows[idx].1.1 };
            proof {
                assert(pd(rm[idx as int].1) == w);
                assert(w.wf());
            }
            let pct = match pct_tenths(w, total) {
                Some(p) => p,
                None => {
                    proof {
                        assert(render_err(rm, total, acc, idx as int) == Some(
                            Error::PercentOverflow,
                        ));
                    }
                    return Err(Error::PercentOverflow);
                },
            };
            let acc2 = match dec_add(acc, w) {
                Some(a) => a,
                None => {
                    proof {
                        assert(render_err(rm, total, acc, idx as int) == Some(Error::SumOverflow));
                    }
                    return Err(Error::SumOverflow);
                },
            };
            proof {
                assert(acc2 == acc_after(acc, w));
            }
            let cum = match pct_tenths(acc2, total) {
                Some(p) => p,
                None => {
                    proof {
                        assert(render_err(rm, total, acc, idx as int) == Some(
                            Error::PercentOverflow,
                        ));
                    }
                    return Err(Error::PercentOverflow);
                },
            };
            let rank_s = pad_string(digits_string((idx + 1) as u128), 3);
            let weight_s = if is_frac {
                tenths_string(round_tenths(w))
            } else {
                int_string(w.man)
            };
            let weight_p = pad_string(weight_s, 8);
            let pct_s = pad_string(tenths_string(pct), 4);
            let cum_s = pad_string(tenths_string(cum), 5);
            let mut rs = String::from_str("(");
            rs.append(rank_s.as_str());
            rs.append(") ");
            rs.append(weight_p.as_str());
            rs.append(" (");
            rs.append(pct_s.as_str());
            rs.append("%,");
            rs.append(cum_s.as_str());
            rs.append("%): ");
            rs.append(rows[idx].0.as_str());
            rs.append("\n");
            proof {
                assert(rs@ == row_text(
                    (idx + 1) as nat,
                    rm[idx as int].0,
                    w,
                    pct_val(w, total),
                    pct_val(acc2, total),
                    mode,
                ));
            }
            let ghost out_before = out@;
            out.append(rs.as_str());
            proof {
                assert(rows_text(rm, total, mode, acc, idx as int) == rs@ + rows_text(
                    rm,
                    total,
                    mode,
                    acc2,
                    idx + 1,
                ));
                vstd::seq_lib::lemma_concat_associative(
                    out_before,
                    rs@,
                    rows_text(rm, total, mode, acc2, idx + 1),
                );
            }
            acc = acc2;
            idx = idx + 1;
        }
        proof {
            assert(rows_text(rm, total, mode, acc, idx as int) =~= Seq::<char>::empty());
            assert(out@ + Seq::<char>::empty() =~= out@);
            assert(out@ == header + rows_text(rm, total, mode, Dec { man: 0, sc: 0 }, 0));
        }
        Ok(out)
    }
}

/// The full report of an accumulation: the header, then — when the grand
/// total is not zero — one row per distinct key, in report order.
pub open spec fn report_text(
    m: Map<Seq<char>, (i128, u32)>,
    total: Dec,
    mode: Mode,
    erase: bool,
) -> Seq<char> {
    if total.scaled() == 0 {
        header_text(total, mode, erase)
    } else {
        header_text(total, mode, erase) + rows_text(
            canonical_rows(m),
            total,
            mode,
            Dec { man: 0, sc: 0 },
            0,
        )
    }
}

} // verus!
