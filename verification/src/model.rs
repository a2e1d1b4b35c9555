//! Shared vocabulary for the mathematical models that contracts speak of.

use vstd::prelude::*;

verus! {

/// The views of the items of a sequence.
pub open spec fn views<T: View>(s: Seq<T>) -> Seq<T::V> {
    Seq::new(s.len(), |i: int| s[i]@)
}

/// The view of an optional item.
pub open spec fn opt_view<T: View>(o: Option<T>) -> Option<T::V> {
    match o {
        Some(v) => Some(v@),
        None => None,
    }
}

pub broadcast proof fn lemma_views_push<T: View>(s: Seq<T>, x: T)
    ensures
        #[trigger] views(s.push(x)) == views(s).push(x@),
{
    assert(views(s.push(x)) =~= views(s).push(x@));
}

pub broadcast proof fn lemma_views_empty<T: View>(s: Seq<T>)
    ensures
        s.len() == 0 ==> #[trigger] views(s) == Seq::<T::V>::empty(),
{
    if s.len() == 0 {
        assert(views(s) =~= Seq::<T::V>::empty());
    }
}

/// The views of the items of rows.
pub open spec fn nested<T: View>(rows: Seq<Vec<T>>) -> Seq<Seq<T::V>> {
    Seq::new(rows.len(), |i: int| views(rows[i]@))
}

/// The views of optional items.
pub open spec fn opt_views<T: View>(s: Seq<Option<T>>) -> Seq<Option<T::V>> {
    Seq::new(s.len(), |i: int| opt_view(s[i]))
}

/// The views of the optional items of rows.
pub open spec fn nested_opt<T: View>(rows: Seq<Vec<Option<T>>>) -> Seq<Seq<Option<T::V>>> {
    Seq::new(rows.len(), |i: int| opt_views(rows[i]@))
}

/// Filtering one item more.
pub proof fn lemma_filter_take<T>(s: Seq<T>, i: int, f: spec_fn(T) -> bool)
    requires
        0 <= i < s.len(),
    ensures
        s.take(i + 1).filter(f) == if f(s[i]) {
            s.take(i).filter(f).push(s[i])
        } else {
            s.take(i).filter(f)
        },
{
    reveal(Seq::filter);
    assert(s.take(i + 1).drop_last() =~= s.take(i));
}

/// Filtering nothing.
pub proof fn lemma_filter_nothing<T>(s: Seq<T>, f: spec_fn(T) -> bool)
    ensures
        s.take(0).filter(f) == Seq::<T>::empty(),
{
    reveal(Seq::filter);
    assert(s.take(0).filter(f) =~= Seq::<T>::empty());
}

} // verus!
