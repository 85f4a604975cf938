//! Compressed identifier sets.
//!
//! A compressed identifier set (CIS) is a set of `u32` element identifiers
//! stored as a roaring bitmap (`croaring::Bitmap`).  Verified code reasons
//! about a bitmap through its mathematical contents, `cis_set`, a `Set<u32>`.
//! Every operation of the underlying library that the index needs is exposed
//! here as a thin trusted wrapper whose contract states, over `cis_set`, what
//! the operation does.

use vstd::prelude::*;

verus! {

#[verifier::external_type_specification]
#[verifier::external_body]
pub struct ExBitmap(croaring::Bitmap);

/// The set of identifiers a bitmap holds.
pub uninterp spec fn cis_set(b: croaring::Bitmap) -> Set<u32>;

/// The set that a serialized bitmap (portable format) decodes to, or `None`
/// when the bytes are not a valid serialized bitmap.  This names the result
/// of `croaring::Bitmap::try_deserialize::<Portable>`, which depends on the
/// input bytes alone.
pub uninterp spec fn cis_from_bytes(bytes: Seq<u8>) -> Option<Set<u32>>;

/// Relies on `croaring::Bitmap::new`: creates an empty bitmap.
#[verifier::external_body]
pub fn cis_new() -> (r: croaring::Bitmap)
    ensures
        cis_set(r) == Set::<u32>::empty(),
        cis_set(r).finite(),
{
    croaring::Bitmap::new()
}

/// Relies on `croaring::Bitmap::clone` (`roaring_bitmap_copy`): the copy
/// holds the same identifiers.
#[verifier::external_body]
pub fn cis_clone(b: &croaring::Bitmap) -> (r: croaring::Bitmap)
    ensures
        cis_set(r) == cis_set(*b),
        cis_set(r).finite(),
{
    b.clone()
}

/// Relies on `croaring::Bitmap::contains`: membership test.
#[verifier::external_body]
pub fn cis_contains(b: &croaring::Bitmap, x: u32) -> (r: bool)
    ensures
        r == cis_set(*b).contains(x),
{
    b.contains(x)
}

/// Relies on `croaring::Bitmap::add_checked`: inserts `x` and reports
/// whether it was newly inserted.
#[verifier::external_body]
pub fn cis_add_checked(b: &mut croaring::Bitmap, x: u32) -> (r: bool)
    ensures
        cis_set(*final(b)) == cis_set(*old(b)).insert(x),
        cis_set(*final(b)).finite() == cis_set(*old(b)).finite(),
        r == !cis_set(*old(b)).contains(x),
{
    b.add_checked(x)
}

/// Relies on `croaring::Bitmap::remove_checked`: erases `x` and reports
/// whether it was present.
#[verifier::external_body]
pub fn cis_remove_checked(b: &mut croaring::Bitmap, x: u32) -> (r: bool)
    ensures
        cis_set(*final(b)) == cis_set(*old(b)).remove(x),
        cis_set(*final(b)).finite() == cis_set(*old(b)).finite(),
        r == cis_set(*old(b)).contains(x),
{
    b.remove_checked(x)
}

/// Relies on `croaring::Bitmap::add_many`: inserts every element of the
/// slice.
#[verifier::external_body]
pub fn cis_add_many(b: &mut croaring::Bitmap, xs: &[u32])
    ensures
        cis_set(*final(b)) == cis_set(*old(b)).union(xs@.to_set()),
        cis_set(*final(b)).finite() == cis_set(*old(b)).finite(),
{
    b.add_many(xs)
}

/// Relies on `croaring::Bitmap::and_inplace`: intersection, stored in
/// `self`.
#[verifier::external_body]
pub fn cis_and_inplace(b: &mut croaring::Bitmap, other: &croaring::Bitmap)
    ensures
        cis_set(*final(b)) == cis_set(*old(b)).intersect(cis_set(*other)),
        cis_set(*old(b)).finite() ==> cis_set(*final(b)).finite(),
{
    b.and_inplace(other)
}

/// Relies on `croaring::Bitmap::or_inplace`: union, stored in `self`.
#[verifier::external_body]
pub fn cis_or_inplace(b: &mut croaring::Bitmap, other: &croaring::Bitmap)
    ensures
        cis_set(*final(b)) == cis_set(*old(b)).union(cis_set(*other)),
        cis_set(*old(b)).finite() && cis_set(*other).finite() ==> cis_set(*final(b)).finite(),
{
    b.or_inplace(other)
}

/// Relies on `croaring::Bitmap::xor_inplace`: symmetric difference, stored
/// in `self`.
#[verifier::external_body]
pub fn cis_xor_inplace(b: &mut croaring::Bitmap, other: &croaring::Bitmap)
    ensures
        cis_set(*final(b)) == cis_set(*old(b)).difference(cis_set(*other)).union(
            cis_set(*other).difference(cis_set(*old(b))),
        ),
        cis_set(*old(b)).finite() && cis_set(*other).finite() ==> cis_set(*final(b)).finite(),
{
    b.xor_inplace(other)
}

/// Relies on `croaring::Bitmap::andnot_inplace`: difference, stored in
/// `self`.
#[verifier::external_body]
pub fn cis_andnot_inplace(b: &mut croaring::Bitmap, other: &croaring::Bitmap)
    ensures
        cis_set(*final(b)) == cis_set(*old(b)).difference(cis_set(*other)),
        cis_set(*old(b)).finite() ==> cis_set(*final(b)).finite(),
{
    b.andnot_inplace(other)
}

/// The union of a sequence of sets, folded from the left.
pub open spec fn union_of_sets(sets: Seq<Set<u32>>) -> Set<u32>
    decreases sets.len(),
{
    if sets.len() == 0 {
        Set::<u32>::empty()
    } else {
        union_of_sets(sets.drop_last()).union(sets.last())
    }
}

/// The symmetric difference of a sequence of sets, folded from the left.
pub open spec fn xor_of_sets(sets: Seq<Set<u32>>) -> Set<u32>
    decreases sets.len(),
{
    if sets.len() == 0 {
        Set::<u32>::empty()
    } else {
        let rest = xor_of_sets(sets.drop_last());
        rest.difference(sets.last()).union(sets.last().difference(rest))
    }
}

/// A fold of unions of finite sets is finite.
pub proof fn lemma_union_of_sets_finite(sets: Seq<Set<u32>>)
    requires
        forall|i: int| 0 <= i < sets.len() ==> (#[trigger] sets[i]).finite(),
    ensures
        union_of_sets(sets).finite(),
    decreases sets.len(),
{
    if sets.len() > 0 {
        lemma_union_of_sets_finite(sets.drop_last());
        assert(sets[sets.len() - 1].finite());
    }
}

/// A fold of symmetric differences of finite sets is finite.
pub proof fn lemma_xor_of_sets_finite(sets: Seq<Set<u32>>)
    requires
        forall|i: int| 0 <= i < sets.len() ==> (#[trigger] sets[i]).finite(),
    ensures
        xor_of_sets(sets).finite(),
    decreases sets.len(),
{
    if sets.len() > 0 {
        lemma_xor_of_sets_finite(sets.drop_last());
        assert(sets[sets.len() - 1].finite());
    }
}

/// Membership in a fold of unions is membership in one of the sets.
pub proof fn lemma_union_of_sets_contains(sets: Seq<Set<u32>>)
    ensures
        forall|x: u32|
            union_of_sets(sets).contains(x) <==> exists|i: int|
                0 <= i < sets.len() && (#[trigger] sets[i]).contains(x),
    decreases sets.len(),
{
    if sets.len() > 0 {
        lemma_union_of_sets_contains(sets.drop_last());
        assert(union_of_sets(sets) == union_of_sets(sets.drop_last()).union(sets.last()));
        assert(sets.last() == sets[sets.len() - 1]);
        assert forall|x: u32| union_of_sets(sets).contains(x) implies exists|i: int|
            0 <= i < sets.len() && (#[trigger] sets[i]).contains(x) by {
            if union_of_sets(sets.drop_last()).contains(x) {
                let i = choose|i: int|
                    0 <= i < sets.drop_last().len() && (#[trigger] sets.drop_last()[i]).contains(
                        x,
                    );
                assert(sets[i].contains(x));
            } else {
                assert(sets[sets.len() - 1].contains(x));
            }
        }
        assert forall|x: u32|
            (exists|i: int| 0 <= i < sets.len() && (#[trigger] sets[i]).contains(x)) implies
            union_of_sets(sets).contains(x) by {
            let i = choose|i: int| 0 <= i < sets.len() && (#[trigger] sets[i]).contains(x);
            if i < sets.len() - 1 {
                assert(sets.drop_last()[i].contains(x));
            }
        }
    }
}

/// The contents of a sequence of borrowed bitmaps.
pub open spec fn sets_of(bs: Seq<&croaring::Bitmap>) -> Seq<Set<u32>> {
    bs.map_values(|b: &croaring::Bitmap| cis_set(*b))
}

/// All bitmaps of a sequence hold finite sets.
pub open spec fn all_finite(bs: Seq<&croaring::Bitmap>) -> bool {
    forall|i: int| 0 <= i < bs.len() ==> (#[trigger] cis_set(*bs[i])).finite()
}

/// Relies on `croaring::Bitmap::fast_or` (`roaring_bitmap_or_many`): the
/// union of all given bitmaps.
#[verifier::external_body]
pub fn cis_fast_or(bs: &Vec<&croaring::Bitmap>) -> (r: croaring::Bitmap)
    ensures
        cis_set(r) == union_of_sets(sets_of(bs@)),
        all_finite(bs@) ==> cis_set(r).finite(),
{
    croaring::Bitmap::fast_or(bs.as_slice())
}

/// Relies on `croaring::Bitmap::fast_xor` (`roaring_bitmap_xor_many`): the
/// symmetric difference of all given bitmaps.
#[verifier::external_body]
pub fn cis_fast_xor(bs: &Vec<&croaring::Bitmap>) -> (r: croaring::Bitmap)
    ensures
        cis_set(r) == xor_of_sets(sets_of(bs@)),
        all_finite(bs@) ==> cis_set(r).finite(),
{
    croaring::Bitmap::fast_xor(bs.as_slice())
}

/// Relies on `croaring::Bitmap::cardinality`
/// (`roaring_bitmap_get_cardinality`): the number of identifiers held.
#[verifier::external_body]
pub fn cis_cardinality(b: &croaring::Bitmap) -> (r: u64)
    ensures
        cis_set(*b).finite() ==> r as nat == cis_set(*b).len(),
{
    b.cardinality()
}

/// Relies on `croaring::Bitmap::and_cardinality`
/// (`roaring_bitmap_and_cardinality`): the size of the intersection, without
/// materializing it.
#[verifier::external_body]
pub fn cis_and_cardinality(b: &croaring::Bitmap, other: &croaring::Bitmap) -> (r: u64)
    ensures
        cis_set(*b).finite() ==> r as nat == cis_set(*b).intersect(cis_set(*other)).len(),
{
    b.and_cardinality(other)
}

/// Relies on `croaring::Bitmap::minimum`: the smallest identifier held, or
/// `None` when the bitmap is empty.
#[verifier::external_body]
pub fn cis_minimum(b: &croaring::Bitmap) -> (r: Option<u32>)
    ensures
        match r {
            Some(m) => cis_set(*b).contains(m) && (forall|x: u32|
                cis_set(*b).contains(x) ==> m <= x),
            None => cis_set(*b) == Set::<u32>::empty(),
        },
{
    b.minimum()
}

/// Relies on `croaring::Bitmap::maximum`: the greatest identifier held, or
/// `None` when the bitmap is empty.
#[verifier::external_body]
pub fn cis_maximum(b: &croaring::Bitmap) -> (r: Option<u32>)
    ensures
        match r {
            Some(m) => cis_set(*b).contains(m) && (forall|x: u32|
                cis_set(*b).contains(x) ==> x <= m),
            None => cis_set(*b) == Set::<u32>::empty(),
        },
{
    b.maximum()
}

/// Relies on `croaring::Bitmap::to_vec`
/// (`roaring_bitmap_to_uint32_array`): all identifiers, in ascending order.
#[verifier::external_body]
pub fn cis_to_vec(b: &croaring::Bitmap) -> (r: Vec<u32>)
    ensures
        forall|i: int, j: int| 0 <= i < j < r@.len() ==> r@[i] < r@[j],
        forall|i: int| 0 <= i < r@.len() ==> cis_set(*b).contains(#[trigger] r@[i]),
        forall|x: u32| cis_set(*b).contains(x) ==> r@.contains(x),
        cis_set(*b).finite() ==> r@.len() == cis_set(*b).len(),
{
    b.to_vec()
}

/// Relies on `croaring::Bitmap::serialize::<Portable>`: the produced bytes
/// deserialize back to a bitmap with the same contents.
#[verifier::external_body]
pub fn cis_serialize(b: &croaring::Bitmap) -> (r: Vec<u8>)
    ensures
        cis_from_bytes(r@) == Some(cis_set(*b)),
{
    b.serialize::<croaring::Portable>()
}

/// Relies on `croaring::Bitmap::try_deserialize::<Portable>`: reconstructs a
/// bitmap from its portable serialization, or returns `None` on invalid
/// input.
#[verifier::external_body]
pub fn cis_try_deserialize(bytes: &[u8]) -> (r: Option<croaring::Bitmap>)
    ensures
        match r {
            Some(b) => cis_from_bytes(bytes@) == Some(cis_set(b)) && cis_set(b).finite(),
            None => cis_from_bytes(bytes@) is None,
        },
{
    croaring::Bitmap::try_deserialize::<croaring::Portable>(bytes)
}

/// Relies on `croaring::Bitmap::run_optimize`: repacks the internal
/// containers without changing the contents.
#[verifier::external_body]
pub fn cis_optimize(b: &mut croaring::Bitmap)
    ensures
        cis_set(*final(b)) == cis_set(*old(b)),
{
    b.run_optimize();
}

/// Relies on `croaring::Bitmap::eq` (`roaring_bitmap_equals`): two bitmaps
/// compare equal exactly when they hold the same identifiers.
#[verifier::external_body]
pub fn cis_eq(a: &croaring::Bitmap, b: &croaring::Bitmap) -> (r: bool)
    ensures
        r == (cis_set(*a) == cis_set(*b)),
{
    a == b
}

} // verus!
