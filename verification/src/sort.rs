//! Sorting the accumulated rows, and why the result is unique.
//!
//! The rows of a report are exactly the entries of the accumulation table,
//! arranged by [`row_le`](crate::order::row_le). Because the row order is
//! total and the table holds each line once, there is exactly one such
//! arrangement: the report is a pure function of the table.

use vstd::prelude::*;
use vstd::relations::sorted_by;
use vstd::seq_lib::lemma_sorted_unique;
use vstd::multiset::Multiset;
use crate::order::{RowM, row_le, row_le_fn, row_model, row_le_exec, lemma_row_le_total};
use crate::dec::pair_wf;

verus! {

broadcast use vstd::seq_lib::group_to_multiset_ensures, vstd::multiset::group_multiset_axioms;

/// The models of a sequence of owned rows.
pub open spec fn models(s: Seq<(String, (i128, u32))>) -> Seq<RowM> {
    s.map_values(|p: (String, (i128, u32))| row_model(p))
}

/// Inserting an element at its boundary position keeps a sequence sorted.
proof fn lemma_sorted_insert(s: Seq<RowM>, x: RowM, pos: int)
    requires
        sorted_by(s, row_le_fn()),
        0 <= pos <= s.len(),
        forall|k: int| 0 <= k < pos ==> row_le(#[trigger] s[k], x),
        pos < s.len() ==> !row_le(s[pos], x),
    ensures
        sorted_by(s.insert(pos, x), row_le_fn()),
{
    lemma_row_le_total();
    s.insert_ensures(pos, x);
    let t = s.insert(pos, x);
    let leq = row_le_fn();
    assert forall|k: int| pos <= k < s.len() implies leq(x, #[trigger] s[k]) by {
        assert(leq(s[pos], x) || leq(x, s[pos]));
        assert(leq(x, s[pos]));
        if k > pos {
            assert(leq(s[pos], s[k]));
            assert(leq(x, s[k]));
        }
    }
    assert forall|i: int, j: int| 0 <= i < j < t.len() implies leq(t[i], t[j]) by {
        if i < pos {
            assert(t[i] == s[i]);
        } else if i == pos {
            assert(t[i] == x);
        } else {
            assert(t[i] == s[i - 1]);
        }
        if j < pos {
            assert(t[j] == s[j]);
        } else if j == pos {
            assert(t[j] == x);
        } else {
            assert(t[j] == s[j - 1]);
        }
    }
}

/// Sort rows into report order. The result is a permutation of the input
/// and is sorted by the row order.
pub fn sort_rows(v: Vec<(String, (i128, u32))>) -> (r: Vec<(String, (i128, u32))>)
    requires
        forall|i: int| 0 <= i < v@.len() ==> pair_wf(#[trigger] v@[i].1),
    ensures
        sorted_by(models(r@), row_le_fn()),
        models(r@).to_multiset() == models(v@).to_multiset(),
        forall|i: int| 0 <= i < r@.len() ==> pair_wf(#[trigger] r@[i].1),
{
    let ghost all = models(v@);
    let mut src = v;
    let mut out: Vec<(String, (i128, u32))> = Vec::new();
    proof {
        lemma_row_le_total();
        assert(models(out@) =~= Seq::<RowM>::empty());
        assert(models(out@).to_multiset().add(models(src@).to_multiset()) =~= models(
            src@,
        ).to_multiset());
    }
    loop
        invariant
            forall|i: int| 0 <= i < src@.len() ==> pair_wf(#[trigger] src@[i].1),
            forall|i: int| 0 <= i < out@.len() ==> pair_wf(#[trigger] out@[i].1),
            sorted_by(models(out@), row_le_fn()),
            models(out@).to_multiset().add(models(src@).to_multiset()) == all.to_multiset(),
            all == models(v@),
        decreases src@.len(),
    {
        proof {
            lemma_row_le_total();
        }
        let ghost src_before = src@;
        let x = match src.pop() {
            Some(x) => x,
            None => {
                proof {
                    assert(models(src@) =~= Seq::<RowM>::empty());
                    assert(models(src@).to_multiset() =~= Multiset::<RowM>::empty());
                    assert(models(out@).to_multiset().add(Multiset::<RowM>::empty())
                        =~= models(out@).to_multiset());
                }
                return out;
            },
        };
        proof {
            assert(src_before =~= src@.push(x));
            assert(models(src_before) =~= models(src@).push(row_model(x)));
            assert(models(src_before).to_multiset() =~= models(src@).to_multiset().insert(
                row_model(x),
            ));
        }
        // Find the insertion position: past every row that precedes `x`.
        let mut pos: usize = 0;
        loop
            invariant
                pos <= out@.len(),
                forall|k: int| 0 <= k < pos ==> row_le(#[trigger] models(out@)[k], row_model(x)),
                forall|i: int| 0 <= i < src@.len() ==> pair_wf(#[trigger] src@[i].1),
                forall|i: int| 0 <= i < out@.len() ==> pair_wf(#[trigger] out@[i].1),
                pair_wf(x.1),
                sorted_by(models(out@), row_le_fn()),
                models(out@).to_multiset().add(models(src_before).to_multiset())
                    == all.to_multiset(),
            ensures
                pos <= out@.len(),
                forall|k: int| 0 <= k < pos ==> row_le(#[trigger] models(out@)[k], row_model(x)),
                pos < out@.len() ==> !row_le(models(out@)[pos as int], row_model(x)),
            decreases out@.len() - pos,
        {
            if pos == out.len() {
                break;
            }
            let le = row_le_exec(&out[pos], &x);
            if !le {
                break;
            }
            pos = pos + 1;
        }
        let ghost out_before = out@;
        out.insert(pos, x);
        proof {
            lemma_sorted_insert(models(out_before), row_model(x), pos as int);
            assert(models(out@) =~= models(out_before).insert(pos as int, row_model(x)));
            vstd::seq_lib::to_multiset_insert(models(out_before), pos as int, row_model(x));
            assert(models(out_before).to_multiset().insert(row_model(x)).add(
                models(src@).to_multiset(),
            ) =~= models(out_before).to_multiset().add(
                models(src@).to_multiset().insert(row_model(x)),
            ));
        }
    }
}

/// Whether `s` lists exactly the entries of `m`, each line once.
pub open spec fn rows_match(s: Seq<RowM>, m: Map<Seq<char>, (i128, u32)>) -> bool {
    &&& forall|i: int| 0 <= i < s.len() ==> m.contains_pair(#[trigger] s[i].0, s[i].1)
    &&& forall|i: int, j: int| 0 <= i < j < s.len() ==> s[i].0 != s[j].0
    &&& forall|k: Seq<char>|
        #[trigger] m.dom().contains(k) ==> exists|i: int| 0 <= i < s.len() && #[trigger] s[i].0 == k
}

/// The rows of the report of a table: the unique sorted arrangement of its
/// entries.
pub open spec fn canonical_rows(m: Map<Seq<char>, (i128, u32)>) -> Seq<RowM> {
    choose|s: Seq<RowM>| sorted_by(s, row_le_fn()) && rows_match(s, m)
}

/// Two listings of one table hold the same rows, as a multiset.
proof fn lemma_rows_match_same_multiset(s1: Seq<RowM>, s2: Seq<RowM>, m: Map<Seq<char>, (i128, u32)>)
    requires
        rows_match(s1, m),
        rows_match(s2, m),
    ensures
        s1.to_multiset() == s2.to_multiset(),
{
    lemma_rows_count(s1, m);
    lemma_rows_count(s2, m);
    assert forall|r: RowM| s1.to_multiset().count(r) == s2.to_multiset().count(r) by {}
    assert(s1.to_multiset() =~= s2.to_multiset());
}

/// In a listing of a table, a row appears once when the table holds it and
/// never otherwise.
proof fn lemma_rows_count(s: Seq<RowM>, m: Map<Seq<char>, (i128, u32)>)
    requires
        rows_match(s, m),
    ensures
        forall|r: RowM|
            #[trigger] s.to_multiset().count(r) == if m.contains_pair(r.0, r.1) {
                1nat
            } else {
                0nat
            },
{
    assert(s.no_duplicates()) by {
        assert forall|i: int, j: int|
            0 <= i < s.len() && 0 <= j < s.len() && i != j implies s[i] != s[j] by {
            if i < j {
                assert(s[i].0 != s[j].0);
            } else {
                assert(s[j].0 != s[i].0);
            }
        }
    }
    s.lemma_multiset_has_no_duplicates();
    assert forall|r: RowM|
        #[trigger] s.to_multiset().count(r) == (if m.contains_pair(r.0, r.1) {
            1nat
        } else {
            0nat
        }) by {
        if m.contains_pair(r.0, r.1) {
            let i = choose|i: int| 0 <= i < s.len() && #[trigger] s[i].0 == r.0;
            assert(m.contains_pair(s[i].0, s[i].1));
            assert(s[i] == r);
            assert(s.contains(r));
            assert(s.to_multiset().count(r) >= 1) by {
                s.to_multiset_ensures();
            }
            assert(s.to_multiset().count(r) <= 1);
        } else {
            if s.to_multiset().count(r) > 0 {
                s.to_multiset_ensures();
                assert(s.contains(r));
                let i = choose|i: int| 0 <= i < s.len() && s[i] == r;
                assert(m.contains_pair(s[i].0, s[i].1));
            }
        }
    }
}

/// There is exactly one sorted listing of a table's entries: any two
/// sorted listings are equal. This is what makes the report of a run a
/// pure function of its accumulation table, whatever order the table's
/// entries were visited in.
pub proof fn lemma_rows_match_unique(
    s1: Seq<RowM>,
    s2: Seq<RowM>,
    m: Map<Seq<char>, (i128, u32)>,
)
    requires
        sorted_by(s1, row_le_fn()),
        sorted_by(s2, row_le_fn()),
        rows_match(s1, m),
        rows_match(s2, m),
    ensures
        s1 == s2,
{
    lemma_row_le_total();
    lemma_rows_match_same_multiset(s1, s2, m);
    lemma_sorted_unique(s1, s2, row_le_fn());
}

/// A permutation of a listing of a table is a listing of the same table.
pub proof fn lemma_rows_match_permutation(
    s1: Seq<RowM>,
    s2: Seq<RowM>,
    m: Map<Seq<char>, (i128, u32)>,
)
    requires
        rows_match(s1, m),
        s1.to_multiset() == s2.to_multiset(),
    ensures
        rows_match(s2, m),
{
    lemma_rows_count(s1, m);
    assert forall|i: int| 0 <= i < s2.len() implies m.contains_pair(#[trigger] s2[i].0, s2[i].1) by {
        assert(s2.contains(s2[i]));
        assert(s2.to_multiset().count(s2[i]) >= 1) by {
            s2.to_multiset_ensures();
        }
        assert(s1.to_multiset().count(s2[i]) >= 1);
    }
    assert forall|i: int, j: int| 0 <= i < j < s2.len() implies s2[i].0 != s2[j].0 by {
        if s2[i] == s2[j] {
            lemma_count_two(s2, i, j);
            assert(s1.to_multiset().count(s2[i]) >= 2);
        } else if s2[i].0 == s2[j].0 {
            assert(s2.contains(s2[i]));
            assert(s2.contains(s2[j]));
            s2.to_multiset_ensures();
            assert(s1.to_multiset().count(s2[i]) >= 1);
            assert(s1.to_multiset().count(s2[j]) >= 1);
            s1.to_multiset_ensures();
            assert(s1.contains(s2[i]));
            assert(s1.contains(s2[j]));
            let a = choose|a: int| 0 <= a < s1.len() && s1[a] == s2[i];
            let b = choose|b: int| 0 <= b < s1.len() && s1[b] == s2[j];
            assert(s1[a].0 == s1[b].0);
            assert(a != b);
            if a < b {
                assert(s1[a].0 != s1[b].0);
            } else {
                assert(s1[b].0 != s1[a].0);
            }
        }
    }
    assert forall|k: Seq<char>| #[trigger] m.dom().contains(k) implies exists|i: int|
        0 <= i < s2.len() && #[trigger] s2[i].0 == k by {
        let i = choose|i: int| 0 <= i < s1.len() && #[trigger] s1[i].0 == k;
        assert(s1.contains(s1[i]));
        s1.to_multiset_ensures();
        assert(s2.to_multiset().count(s1[i]) >= 1);
        s2.to_multiset_ensures();
        assert(s2.contains(s1[i]));
        let j = choose|j: int| 0 <= j < s2.len() && s2[j] == s1[i];
        assert(s2[j].0 == k);
    }
}

/// An element at two distinct positions is counted at least twice.
proof fn lemma_count_two(s: Seq<RowM>, i: int, j: int)
    requires
        0 <= i < j < s.len(),
        s[i] == s[j],
    ensures
        s.to_multiset().count(s[i]) >= 2,
{
    let r = s[i];
    let t = s.remove(j);
    vstd::seq_lib::to_multiset_remove(s, j);
    assert(t[i] == r);
    assert(t.contains(r));
    t.to_multiset_ensures();
    assert(t.to_multiset().count(r) >= 1);
    assert(s.to_multiset().count(r) == t.to_multiset().count(r) + 1);
}

} // verus!
