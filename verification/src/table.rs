//! The accumulation table: line text to accumulated weight.
//!
//! The table is a `std::collections::HashMap` keyed by line content and
//! driven by fxhash's deterministic hasher, exactly as fast ad-hoc line
//! counting wants it. Verus sees the table only through the trusted
//! wrappers below, whose contracts speak of the abstract contents
//! [`table`]: a map from character sequences to `(mantissa, scale)` weight
//! pairs.

use vstd::prelude::*;
use std::collections::HashMap;
use std::hash::BuildHasherDefault;

verus! {

#[verifier::external_type_specification]
#[verifier::external_body]
pub struct ExFxHasher(fxhash::FxHasher);

#[verifier::external_type_specification]
#[verifier::external_body]
#[verifier::reject_recursive_types(H)]
pub struct ExBuildHasherDefault<H>(BuildHasherDefault<H>);

/// The accumulation table's concrete type.
pub type Table = HashMap<String, (i128, u32), BuildHasherDefault<fxhash::FxHasher>>;

/// What the table holds: each stored key's character content, mapped to
/// the weight pair stored under it.
pub uninterp spec fn table(m: Table) -> Map<Seq<char>, (i128, u32)>;

/// Relies on `HashMap::default` (with fxhash's stateless default hasher):
/// a fresh map holds nothing.
#[verifier::external_body]
pub fn table_new() -> (r: Table)
    ensures
        table(r) =~= Map::empty(),
{
    fxhash::FxHashMap::default()
}

/// Relies on `HashMap::get`: returns the value stored under exactly this
/// key, or nothing when the key is absent.
#[verifier::external_body]
pub fn table_get(m: &Table, key: &str) -> (r: Option<(i128, u32)>)
    ensures
        match r {
            Some(v) => table(*m).contains_pair(key@, v),
            None => !table(*m).dom().contains(key@),
        },
{
    m.get(key).copied()
}

/// Relies on `HashMap::get_mut`: overwrites the value stored under exactly
/// this key when present, and does nothing when the key is absent.
#[verifier::external_body]
pub fn table_update(m: &mut Table, key: &str, v: (i128, u32)) -> (hit: bool)
    ensures
        hit <==> table(*old(m)).dom().contains(key@),
        hit ==> table(*final(m)) == table(*old(m)).insert(key@, v),
        !hit ==> table(*final(m)) == table(*old(m)),
{
    match m.get_mut(key) {
        Some(slot) => {
            *slot = v;
            true
        },
        None => false,
    }
}

/// Relies on `HashMap::insert`: afterwards exactly this key maps to this
/// value, and every other entry is unchanged.
#[verifier::external_body]
pub fn table_insert(m: &mut Table, key: String, v: (i128, u32))
    ensures
        table(*final(m)) == table(*old(m)).insert(key@, v),
{
    m.insert(key, v);
}

/// Relies on `HashMap::into_iter`: every entry is yielded exactly once, in
/// no particular order.
#[verifier::external_body]
pub fn table_drain(m: Table) -> (r: Vec<(String, (i128, u32))>)
    ensures
        r@.len() == table(m).dom().len(),
        forall|i: int|
            0 <= i < r@.len() ==> table(m).contains_pair(#[trigger] r@[i].0@, r@[i].1),
        forall|i: int, j: int| 0 <= i < j < r@.len() ==> r@[i].0@ != r@[j].0@,
        forall|k: Seq<char>|
            #[trigger] table(m).dom().contains(k) ==> exists|i: int|
                0 <= i < r@.len() && #[trigger] r@[i].0@ == k,
{
    m.into_iter().collect()
}

} // verus!
