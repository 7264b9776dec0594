//! Document sets, held as compressed bitmaps of `u32` document ids.
//!
//! The executable representation is `roaring::RoaringBitmap`. The verified
//! code sees a bitmap only through the trusted wrappers below, whose
//! contracts are stated over `docset_seq`, the ascending sequence of ids the
//! bitmap holds, and `docset_view`, the corresponding set.

use vstd::prelude::*;
use roaring::RoaringBitmap;

verus! {

#[verifier::external_type_specification]
#[verifier::external_body]
pub struct ExRoaringBitmap(RoaringBitmap);

/// The ids held by a bitmap, as the ascending sequence that its iterator
/// yields.
pub uninterp spec fn docset_seq(s: RoaringBitmap) -> Seq<u32>;

/// The ids held by a bitmap, as a set. Always finite, being the range of a
/// sequence.
pub open spec fn docset_view(s: RoaringBitmap) -> Set<u32> {
    docset_seq(s).to_set()
}

/// A sequence of ids in strictly increasing order.
pub open spec fn strictly_sorted(s: Seq<u32>) -> bool {
    forall|i: int, j: int| 0 <= i < j < s.len() ==> s[i] < s[j]
}

/// Relies on roaring::RoaringBitmap::new: a freshly created bitmap is empty.
#[verifier::external_body]
pub fn docset_new() -> (r: RoaringBitmap)
    ensures
        docset_seq(r) == Seq::<u32>::empty(),
{
    RoaringBitmap::new()
}

/// Relies on roaring::RoaringBitmap::len: the number of ids in the bitmap.
#[verifier::external_body]
pub fn docset_len(s: &RoaringBitmap) -> (r: u64)
    ensures
        r as int == docset_view(*s).len(),
        r as int == docset_seq(*s).len(),
{
    s.len()
}

/// Relies on roaring::RoaringBitmap::is_empty.
#[verifier::external_body]
pub fn docset_is_empty(s: &RoaringBitmap) -> (r: bool)
    ensures
        r == (docset_seq(*s).len() == 0),
        r == docset_view(*s).is_empty(),
{
    s.is_empty()
}

/// Relies on roaring::RoaringBitmap::contains.
#[verifier::external_body]
pub fn docset_contains(s: &RoaringBitmap, x: u32) -> (r: bool)
    ensures
        r == docset_view(*s).contains(x),
{
    s.contains(x)
}

/// Relies on roaring::RoaringBitmap::insert: afterwards the bitmap holds
/// the former ids plus `x`.
#[verifier::external_body]
pub fn docset_insert(s: &mut RoaringBitmap, x: u32)
    ensures
        docset_view(*final(s)) == docset_view(*old(s)).insert(x),
{
    s.insert(x);
}

/// Relies on roaring::RoaringBitmap::clone: the copy holds the same ids in
/// the same order.
#[verifier::external_body]
pub fn docset_clone(s: &RoaringBitmap) -> (r: RoaringBitmap)
    ensures
        docset_seq(r) == docset_seq(*s),
{
    s.clone()
}

/// Relies on roaring's SubAssign: set difference in place.
#[verifier::external_body]
pub fn docset_sub_assign(a: &mut RoaringBitmap, b: &RoaringBitmap)
    ensures
        docset_view(*final(a)) == docset_view(*old(a)).difference(docset_view(*b)),
{
    *a -= b;
}

/// Relies on roaring's BitOrAssign: set union in place.
#[verifier::external_body]
pub fn docset_or_assign(a: &mut RoaringBitmap, b: &RoaringBitmap)
    ensures
        docset_view(*final(a)) == docset_view(*old(a)).union(docset_view(*b)),
{
    *a |= b;
}

/// Relies on roaring's BitAndAssign: set intersection in place.
#[verifier::external_body]
pub fn docset_and_assign(a: &mut RoaringBitmap, b: &RoaringBitmap)
    ensures
        docset_view(*final(a)) == docset_view(*old(a)).intersect(docset_view(*b)),
{
    *a &= b;
}

/// Relies on roaring::RoaringBitmap::clear.
#[verifier::external_body]
pub fn docset_clear(s: &mut RoaringBitmap)
    ensures
        docset_seq(*final(s)) == Seq::<u32>::empty(),
{
    s.clear();
}

/// Relies on roaring's iterator: it yields each id exactly once, in
/// ascending order.
#[verifier::external_body]
pub fn docset_to_vec(s: &RoaringBitmap) -> (r: Vec<u32>)
    ensures
        r@ == docset_seq(*s),
        strictly_sorted(r@),
{
    s.iter().collect()
}

/// Empties `s` and returns its former contents.
pub fn docset_take(s: &mut RoaringBitmap) -> (r: RoaringBitmap)
    ensures
        docset_seq(r) == docset_seq(*old(s)),
        docset_seq(*final(s)) == Seq::<u32>::empty(),
{
    let r = docset_clone(s);
    docset_clear(s);
    r
}

/// A strictly sorted sequence has no duplicates, so its length equals the
/// cardinality of its set of elements.
pub proof fn lemma_sorted_len(s: Seq<u32>)
    requires
        strictly_sorted(s),
    ensures
        s.no_duplicates(),
        s.to_set().len() == s.len(),
        s.to_set().finite(),
{
    broadcast use vstd::seq_lib::seq_to_set_is_finite;

    assert(s.no_duplicates());
    s.unique_seq_to_set();
}

/// The set view of any bitmap is finite.
pub proof fn lemma_view_finite(s: RoaringBitmap)
    ensures
        docset_view(s).finite(),
{
    broadcast use vstd::seq_lib::seq_to_set_is_finite;

}

} // verus!
