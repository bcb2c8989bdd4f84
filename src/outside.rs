//! The calls this library makes into std and outside crates, with what it
//! relies on of each.
use vstd::prelude::*;
use rayon::slice::ParallelSliceMut;

verus! {

/// Values ordered by a size, largest first.
pub trait SizeOrdered: Sized {
    spec fn size_key(&self) -> u128;

    fn size_of(&self) -> (r: u128)
        ensures
            r == self.size_key(),
    ;
}

/// `s` is ordered by size, largest first.
pub open spec fn sorted_desc<T: SizeOrdered>(s: Seq<T>) -> bool {
    forall|i: int, j: int| 0 <= i < j < s.len() ==> #[trigger] s[i].size_key() >= #[trigger] s[j].size_key()
}

/// Relies on rayon's `ParallelSliceMut::par_sort_by_key`: a stable parallel
/// sort that only reorders the items, here by size taken in reverse.
#[verifier::external_body]
pub fn sort_by_size_desc<T: SizeOrdered + Send>(v: &mut Vec<T>)
    ensures
        final(v)@.to_multiset() == old(v)@.to_multiset(),
        sorted_desc(final(v)@),
{
    v.par_sort_by_key(|x| std::cmp::Reverse(x.size_of()));
}

/// What `str::to_lowercase` makes of a text.
pub uninterp spec fn lower_of(s: Seq<char>) -> Seq<char>;

/// Relies on `str::to_lowercase`: the result depends on the characters alone,
/// and an empty text stays empty.
#[verifier::external_body]
pub fn lowercase(s: &str) -> (r: String)
    ensures
        r@ == lower_of(s@),
        s@.len() == 0 ==> r@.len() == 0,
{
    s.to_lowercase()
}

/// What `str::to_uppercase` makes of a text.
pub uninterp spec fn upper_of(s: Seq<char>) -> Seq<char>;

/// Relies on `str::to_uppercase`: the result depends on the characters alone.
#[verifier::external_body]
pub fn uppercase(s: &str) -> (r: String)
    ensures
        r@ == upper_of(s@),
{
    s.to_uppercase()
}

} // verus!
