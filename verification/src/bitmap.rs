//! Sets of document ids, kept in `roaring::RoaringBitmap`.
//!
//! Verified code never looks inside a bitmap. It reasons about the set of ids
//! that the bitmap holds, `members`, and reaches the bitmap through the small
//! functions of this module, each of which states what one method of the
//! `roaring` crate does to that set. These statements are taken from the
//! crate's documentation and are not proved here.

use vstd::prelude::*;
use vstd::set_lib::*;
use roaring::RoaringBitmap;

verus! {

#[verifier::external_type_specification]
#[verifier::external_body]
pub struct ExRoaringBitmap(RoaringBitmap);

/// The set of ids that a bitmap holds.
pub uninterp spec fn members(bitmap: RoaringBitmap) -> Set<u32>;

/// Every set of document ids is finite, since there are only finitely many
/// ids.
pub proof fn lemma_docid_sets_finite(s: Set<u32>)
    ensures
        s.finite(),
{
    let all = set_int_range(0, 0x1_0000_0000);
    lemma_int_range(0, 0x1_0000_0000);
    let f = |i: int| i as u32;
    all.lemma_map_finite(f);
    assert forall|d: u32| s.contains(d) implies all.map(f).contains(d) by {
        assert(all.contains(d as int));
        assert(f(d as int) == d);
    }
    lemma_set_subset_finite(all.map(f), s);
}

/// `RoaringBitmap::new`: creates a bitmap that holds no id.
#[verifier::external_body]
pub(crate) fn bitmap_new() -> (bitmap: RoaringBitmap)
    ensures
        members(bitmap) == Set::<u32>::empty(),
{
    RoaringBitmap::new()
}

/// `RoaringBitmap::clone`: the copy holds the ids of the source.
#[verifier::external_body]
pub(crate) fn bitmap_clone(bitmap: &RoaringBitmap) -> (copy: RoaringBitmap)
    ensures
        members(copy) == members(*bitmap),
{
    bitmap.clone()
}

/// `RoaringBitmap::len`: the number of distinct ids in the bitmap.
#[verifier::external_body]
pub(crate) fn bitmap_len(bitmap: &RoaringBitmap) -> (n: u64)
    ensures
        n == members(*bitmap).len(),
{
    bitmap.len()
}

/// `RoaringBitmap::is_empty`: true exactly when the bitmap holds no id.
#[verifier::external_body]
pub(crate) fn bitmap_is_empty(bitmap: &RoaringBitmap) -> (empty: bool)
    ensures
        empty == (forall|d: u32| !members(*bitmap).contains(d)),
{
    bitmap.is_empty()
}

/// `RoaringBitmap::contains`: whether the bitmap holds the id.
#[verifier::external_body]
pub(crate) fn bitmap_contains(bitmap: &RoaringBitmap, docid: u32) -> (held: bool)
    ensures
        held == members(*bitmap).contains(docid),
{
    bitmap.contains(docid)
}

/// `RoaringBitmap::insert`: adds the id to the bitmap and returns whether it
/// was absent before.
#[verifier::external_body]
pub(crate) fn bitmap_insert(bitmap: &mut RoaringBitmap, docid: u32) -> (added: bool)
    ensures
        members(*final(bitmap)) == members(*old(bitmap)).insert(docid),
        added == !members(*old(bitmap)).contains(docid),
{
    bitmap.insert(docid)
}

/// `BitAndAssign<&RoaringBitmap>`: keeps in `bitmap` the ids that `other`
/// holds too.
#[verifier::external_body]
pub(crate) fn bitmap_intersect_with(bitmap: &mut RoaringBitmap, other: &RoaringBitmap)
    ensures
        members(*final(bitmap)) == members(*old(bitmap)).intersect(members(*other)),
{
    *bitmap &= other;
}

/// `BitOrAssign<&RoaringBitmap>`: adds to `bitmap` the ids of `other`.
#[verifier::external_body]
pub(crate) fn bitmap_union_with(bitmap: &mut RoaringBitmap, other: &RoaringBitmap)
    ensures
        members(*final(bitmap)) == members(*old(bitmap)).union(members(*other)),
{
    *bitmap |= other;
}

/// `SubAssign<&RoaringBitmap>`: removes from `bitmap` the ids of `other`.
#[verifier::external_body]
pub(crate) fn bitmap_subtract(bitmap: &mut RoaringBitmap, other: &RoaringBitmap)
    ensures
        members(*final(bitmap)) == members(*old(bitmap)).difference(members(*other)),
{
    *bitmap -= other;
}

/// `RoaringBitmap::iter`, collected: the ids of the bitmap in increasing
/// order, each once.
#[verifier::external_body]
pub(crate) fn bitmap_to_vec(bitmap: &RoaringBitmap) -> (ids: Vec<u32>)
    ensures
        forall|i: int, j: int| 0 <= i < j < ids@.len() ==> ids@[i] < ids@[j],
        forall|d: u32| ids@.contains(d) <==> members(*bitmap).contains(d),
{
    bitmap.iter().collect()
}

/// The list holds the members of the set in increasing order, each once.
pub open spec fn lists_in_order(ids: Seq<u32>, set: Set<u32>) -> bool {
    &&& forall|i: int, j: int| 0 <= i < j < ids.len() ==> ids[i] < ids[j]
    &&& forall|d: u32| ids.contains(d) <==> set.contains(d)
}

/// The members of a set in increasing order.
pub open spec fn in_order(set: Set<u32>) -> Seq<u32> {
    choose|ids: Seq<u32>| lists_in_order(ids, set)
}

/// A set has one list of its members in increasing order at most.
pub proof fn lemma_one_list_in_order(a: Seq<u32>, b: Seq<u32>, set: Set<u32>)
    requires
        lists_in_order(a, set),
        lists_in_order(b, set),
    ensures
        a == b,
    decreases a.len(),
{
    if a.len() == 0 {
        if b.len() > 0 {
            assert(b.contains(b[0]));
            assert(a.contains(b[0]));
        }
        assert(a =~= b);
    } else {
        let top = a.last();
        assert(a.contains(top));
        assert(b.contains(top));
        let at = choose|k: int| 0 <= k < b.len() && b[k] == top;
        if at < b.len() - 1 {
            assert(b.contains(b.last()));
            assert(a.contains(b.last()));
            let back = choose|k: int| 0 <= k < a.len() && a[k] == b.last();
            assert(a[back] <= top);
        }
        let rest = set.remove(top);
        assert forall|d: u32| a.drop_last().contains(d) <==> rest.contains(d) by {
            if a.drop_last().contains(d) {
                let k = choose|k: int| 0 <= k < a.drop_last().len() && a.drop_last()[k] == d;
                assert(a[k] == d);
                assert(a.contains(d));
            }
            if rest.contains(d) {
                assert(a.contains(d));
                let k = choose|k: int| 0 <= k < a.len() && a[k] == d;
                assert(a.drop_last()[k] == d);
            }
        }
        assert forall|d: u32| b.drop_last().contains(d) <==> rest.contains(d) by {
            if b.drop_last().contains(d) {
                let k = choose|k: int| 0 <= k < b.drop_last().len() && b.drop_last()[k] == d;
                assert(b[k] == d);
                assert(b.contains(d));
            }
            if rest.contains(d) {
                assert(b.contains(d));
                let k = choose|k: int| 0 <= k < b.len() && b[k] == d;
                assert(b.drop_last()[k] == d);
            }
        }
        lemma_one_list_in_order(a.drop_last(), b.drop_last(), rest);
        assert(a =~= a.drop_last().push(top));
        assert(b =~= b.drop_last().push(top));
    }
}

/// The members of a set below `n`, in increasing order.
pub open spec fn members_below(set: Set<u32>, n: nat) -> Seq<u32>
    decreases n,
{
    if n == 0 {
        Seq::empty()
    } else if set.contains((n - 1) as u32) {
        members_below(set, (n - 1) as nat).push((n - 1) as u32)
    } else {
        members_below(set, (n - 1) as nat)
    }
}

proof fn lemma_members_below(set: Set<u32>, n: nat)
    requires
        n <= 0x1_0000_0000,
    ensures
        forall|i: int, j: int|
            0 <= i < j < members_below(set, n).len() ==> members_below(set, n)[i] < members_below(
                set,
                n,
            )[j],
        forall|i: int| 0 <= i < members_below(set, n).len() ==> members_below(set, n)[i] < n,
        forall|d: u32| members_below(set, n).contains(d) <==> set.contains(d) && d < n,
    decreases n,
{
    if n > 0 {
        let before = members_below(set, (n - 1) as nat);
        let now = members_below(set, n);
        lemma_members_below(set, (n - 1) as nat);
        let top = (n - 1) as u32;
        assert forall|d: u32| now.contains(d) <==> set.contains(d) && d < n by {
            if set.contains(top) {
                if now.contains(d) {
                    let k = choose|k: int| 0 <= k < now.len() && now[k] == d;
                    if k < before.len() {
                        assert(before[k] == d);
                        assert(before.contains(d));
                    }
                }
                if set.contains(d) && d < n {
                    if d == top {
                        assert(now[now.len() - 1] == d);
                    } else {
                        assert(before.contains(d));
                        let k = choose|k: int| 0 <= k < before.len() && before[k] == d;
                        assert(now[k] == d);
                    }
                }
            }
        }
    }
}

/// Every set of ids has its list in increasing order.
pub proof fn lemma_in_order_lists(set: Set<u32>)
    ensures
        lists_in_order(in_order(set), set),
        in_order(set).len() == set.len(),
        in_order(set).no_duplicates(),
{
    lemma_members_below(set, 0x1_0000_0000);
    let all = members_below(set, 0x1_0000_0000);
    assert(lists_in_order(all, set));
    let listed = in_order(set);
    assert(lists_in_order(listed, set));
    lemma_docid_sets_finite(set);
    assert(listed.no_duplicates());
    listed.unique_seq_to_set();
    assert(listed.to_set() =~= set);
}

/// The empty set has no member to list.
pub proof fn lemma_in_order_empty()
    ensures
        in_order(Set::<u32>::empty()) == Seq::<u32>::empty(),
{
    assert(lists_in_order(Seq::<u32>::empty(), Set::<u32>::empty()));
    lemma_one_list_in_order(
        Seq::<u32>::empty(),
        in_order(Set::<u32>::empty()),
        Set::<u32>::empty(),
    );
}

/// The ids of a bitmap in increasing order.
pub fn sorted_ids(bitmap: &RoaringBitmap) -> (ids: Vec<u32>)
    ensures
        ids@ == in_order(members(*bitmap)),
        lists_in_order(ids@, members(*bitmap)),
        ids@.len() == members(*bitmap).len(),
{
    let ids = bitmap_to_vec(bitmap);
    proof {
        assert(lists_in_order(ids@, members(*bitmap)));
        lemma_one_list_in_order(ids@, in_order(members(*bitmap)), members(*bitmap));
        lemma_docid_sets_finite(members(*bitmap));
        assert(ids@.no_duplicates());
        ids@.unique_seq_to_set();
        assert(ids@.to_set() =~= members(*bitmap));
    }
    ids
}

} // verus!
