use roaring::RoaringTreemap;
use vstd::prelude::*;
use vstd::set_lib::lemma_int_range;

verus! {

/// `roaring::RoaringTreemap`: the compressed bitmap over 64-bit values in
/// which the indexes store sets of vertex ids. Nothing is read of its inside.
#[verifier::external_type_specification]
#[verifier::external_body]
pub struct ExRoaringTreemap(RoaringTreemap);

/// The values that a `RoaringTreemap` holds.
pub uninterp spec fn treemap_values(t: RoaringTreemap) -> Set<u64>;

/// The set that `RoaringTreemap::deserialize_from` reads from a byte string,
/// if it reads one.
pub uninterp spec fn treemap_decoding(bytes: Seq<u8>) -> Option<Set<u64>>;

/// `RoaringTreemap::new`: a bitmap that holds nothing.
#[verifier::external_body]
pub(crate) fn treemap_new() -> (t: RoaringTreemap)
    ensures
        treemap_values(t) == Set::<u64>::empty(),
{
    RoaringTreemap::new()
}

/// `RoaringTreemap::clone`: a bitmap that holds the same values.
#[verifier::external_body]
pub(crate) fn treemap_clone(t: &RoaringTreemap) -> (c: RoaringTreemap)
    ensures
        treemap_values(c) == treemap_values(*t),
{
    t.clone()
}

/// `RoaringTreemap::insert`: adds the value to the set, and says whether it was new.
#[verifier::external_body]
pub(crate) fn treemap_insert(t: &mut RoaringTreemap, value: u64) -> (fresh: bool)
    ensures
        treemap_values(*final(t)) == treemap_values(*old(t)).insert(value),
        fresh == !treemap_values(*old(t)).contains(value),
{
    t.insert(value)
}

/// `RoaringTreemap::remove`: takes the value out of the set, and says whether it was there.
#[verifier::external_body]
pub(crate) fn treemap_remove(t: &mut RoaringTreemap, value: u64) -> (present: bool)
    ensures
        treemap_values(*final(t)) == treemap_values(*old(t)).remove(value),
        present == treemap_values(*old(t)).contains(value),
{
    t.remove(value)
}

/// `RoaringTreemap::is_empty`: whether the set holds no value.
#[verifier::external_body]
pub(crate) fn treemap_is_empty(t: &RoaringTreemap) -> (r: bool)
    ensures
        r == (treemap_values(*t) == Set::<u64>::empty()),
{
    t.is_empty()
}

/// `RoaringTreemap::is_full`: whether the set holds every 64-bit value.
#[verifier::external_body]
pub(crate) fn treemap_is_full(t: &RoaringTreemap) -> (r: bool)
    ensures
        r == (forall|v: u64| treemap_values(*t).contains(v)),
{
    t.is_full()
}

/// `RoaringTreemap::len`: the number of values in the set. The set of all
/// 64-bit values is left out: its size does not fit the result.
#[verifier::external_body]
pub(crate) fn treemap_len(t: &RoaringTreemap) -> (n: u64)
    requires
        exists|v: u64| !treemap_values(*t).contains(v),
    ensures
        n == treemap_values(*t).len(),
{
    t.len()
}

/// `|=` of `RoaringTreemap` with a borrowed operand (`BitOrAssign`): the
/// union of both sets.
#[verifier::external_body]
pub(crate) fn treemap_union_with(t: &mut RoaringTreemap, other: &RoaringTreemap)
    ensures
        treemap_values(*final(t)) == treemap_values(*old(t)).union(treemap_values(*other)),
{
    *t |= other;
}

/// `&=` of `RoaringTreemap` with a borrowed operand (`BitAndAssign`): the
/// intersection of both sets.
#[verifier::external_body]
pub(crate) fn treemap_intersect_with(t: &mut RoaringTreemap, other: &RoaringTreemap)
    ensures
        treemap_values(*final(t)) == treemap_values(*old(t)).intersect(treemap_values(*other)),
{
    *t &= other;
}

/// `-=` of `RoaringTreemap` with a borrowed operand (`SubAssign`): the
/// values of the first set that the second does not hold.
#[verifier::external_body]
pub(crate) fn treemap_subtract(t: &mut RoaringTreemap, other: &RoaringTreemap)
    ensures
        treemap_values(*final(t)) == treemap_values(*old(t)).difference(treemap_values(*other)),
{
    *t -= other;
}

/// Whether a list of values is strictly ascending.
pub open spec fn strictly_ascending(list: Seq<u64>) -> bool {
    forall|i: int, j: int| 0 <= i < j < list.len() ==> list[i] < list[j]
}

/// `RoaringTreemap::iter`, gathered in a vector: the values of the set in
/// ascending order, each once.
#[verifier::external_body]
pub(crate) fn treemap_to_vec(t: &RoaringTreemap) -> (list: Vec<u64>)
    ensures
        strictly_ascending(list@),
        list@.to_set() == treemap_values(*t),
{
    t.iter().collect()
}

/// `RoaringTreemap::deserialize_from` on a byte slice: the bitmap that the
/// bytes decode to, or the reader's error where they do not decode. What
/// comes out depends on the bytes alone.
#[verifier::external_body]
pub(crate) fn treemap_decode(bytes: &[u8]) -> (r: Result<RoaringTreemap, std::io::Error>)
    ensures
        match r {
            Ok(t) => treemap_decoding(bytes@) == Some(treemap_values(t)),
            Err(_) => treemap_decoding(bytes@) is None,
        },
{
    RoaringTreemap::deserialize_from(bytes)
}

/// `RoaringTreemap::serialize_into` a fresh vector: bytes that decode to
/// the same set. It fails only where its writer fails, and the writer of a
/// vector does not fail.
#[verifier::external_body]
pub(crate) fn treemap_encode(t: &RoaringTreemap) -> (r: Result<Vec<u8>, std::io::Error>)
    ensures
        r is Ok,
        r matches Ok(bytes) ==> treemap_decoding(bytes@) == Some(treemap_values(*t)),
{
    let mut bytes = Vec::new();
    t.serialize_into(&mut bytes)?;
    Ok(bytes)
}

/// `bincode::error::EncodeError::OtherString` around the message of the
/// reader's error (`to_string`): the error under which a bitmap that does
/// not decode is reported. Nothing is claimed of it.
#[verifier::external_body]
pub(crate) fn encode_error_of(e: std::io::Error) -> bincode::error::EncodeError {
    bincode::error::EncodeError::OtherString(e.to_string())
}

/// Every set of 64-bit values is finite.
pub proof fn lemma_finite(s: Set<u64>)
    ensures
        s.finite(),
{
    let range = vstd::set_lib::set_int_range(0, 0x1_0000_0000_0000_0000);
    lemma_int_range(0, 0x1_0000_0000_0000_0000);
    let f = |i: int| i as u64;
    range.lemma_map_finite(f);
    let all = range.map(f);
    assert forall|v: u64| s.contains(v) implies all.contains(v) by {
        assert(range.contains(v as int));
        assert(f(v as int) == v);
    }
    vstd::set_lib::lemma_set_subset_finite(all, s);
}

/// The number of values in the bitmap, or the greatest number where the
/// bitmap holds every value there is.
pub(crate) fn treemap_size(t: &RoaringTreemap) -> (n: u64)
    ensures
        n == size_of_set(treemap_values(*t)),
{
    if treemap_is_full(t) {
        u64::MAX
    } else {
        treemap_len(t)
    }
}

/// The size by which the evaluator orders sets: the number of values, with
/// the set of all values counted as the greatest number.
pub open spec fn size_of_set(s: Set<u64>) -> u64 {
    if forall|v: u64| s.contains(v) {
        u64::MAX
    } else {
        s.len() as u64
    }
}

} // verus!
