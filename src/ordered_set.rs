use vstd::prelude::*;
use vstd::std_specs::cmp::PartialEqSpec;

verus! {

/// Holds when `==` on `T` compares views and `clone` keeps the view: the
/// conditions under which a set of `T` can be reasoned about through views.
pub open spec fn eq_and_clone_by_view<T: PartialEq + Clone + View>() -> bool {
    &&& eq_by_view::<T>()
    &&& forall|x: T, y: T| #[trigger] cloned(x, y) ==> x@ == y@
}

/// Holds when `==` on `T` compares views.
pub open spec fn eq_by_view<T: PartialEq + View>() -> bool {
    &&& T::obeys_eq_spec()
    &&& forall|x: T, y: T| #[trigger] x.eq_spec(&y) <==> (x@ == y@)
}

/// Views of a sequence of values, element by element.
pub open spec fn views_of<T: View>(s: Seq<T>) -> Seq<T::V> {
    s.map_values(|t: T| t@)
}

/// Reversing a sequence keeps its items distinct.
pub proof fn lemma_reverse_keeps_distinct<A>(s: Seq<A>)
    requires
        s.no_duplicates(),
    ensures
        s.reverse().no_duplicates(),
{
    let r = s.reverse();
    assert forall|i: int, j: int| 0 <= i < r.len() && 0 <= j < r.len() && i != j implies r[i] != r[j] by {
        assert(r[i] == s[s.len() - 1 - i]);
        assert(r[j] == s[s.len() - 1 - j]);
    }
}

pub(crate) fn clone_item<T: Clone + View + PartialEq>(x: &T) -> (r: T)
    requires
        eq_and_clone_by_view::<T>(),
    ensures
        r@ == x@,
{
    let r = x.clone();
    assert(cloned(*x, r));
    r
}

/// A set that keeps its items in insertion order and refuses duplicates.
#[derive(Default)]
pub struct OrderedSet<T> {
    items: Vec<T>,
}

impl<T: View> View for OrderedSet<T> {
    type V = Seq<T::V>;

    closed spec fn view(&self) -> Seq<T::V> {
        views_of(self.items@)
    }
}

impl<T: View> OrderedSet<T> {
    /// No two items share a view.
    pub open spec fn wf(&self) -> bool {
        self@.no_duplicates()
    }
}

impl<T: Ord + PartialEq + Clone + View> OrderedSet<T> {
    pub fn new() -> (r: OrderedSet<T>)
        ensures
            r@ == Seq::<T::V>::empty(),
            r.wf(),
    {
        let r = OrderedSet { items: Vec::new() };
        assert(r@ =~= Seq::<T::V>::empty());
        r
    }

    /// Appends `item`, unless an item with its view is already there.
    pub fn push(&mut self, item: T) -> (r: Result<(), &'static str>)
        requires
            old(self).wf(),
            eq_and_clone_by_view::<T>(),
        ensures
            final(self).wf(),
            old(self)@.contains(item@) ==> r is Err && final(self)@ == old(self)@,
            !old(self)@.contains(item@) ==> r is Ok && final(self)@ == old(self)@.push(item@),
    {
        if self.contains(&item) {
            return Err("Cannot add an item to set that already exists in the set");
        }
        let ghost before = self@;
        self.items.push(item);
        assert(self@ =~= before.push(item@));
        Ok(())
    }

    /// The items of `self` in their order, then those of `other` that are not
    /// in `self`, in theirs.
    pub fn union(&self, other: &OrderedSet<T>) -> (r: OrderedSet<T>)
        requires
            self.wf(),
            other.wf(),
            eq_and_clone_by_view::<T>(),
        ensures
            r.wf(),
            r@ == self@ + other@.filter(|v: T::V| !self@.contains(v)),
    {
        let extra = other.difference(self);
        let mut items = self.to_vec();
        let mut more = extra.to_vec();
        let ghost head = views_of(items@);
        let ghost tail = views_of(more@);
        items.append(&mut more);
        proof {
            assert(views_of(items@) =~= head + tail);
            assert forall|i: int, j: int| 0 <= i < head.len() && 0 <= j < tail.len() implies head[i] != tail[j] by {
                other@.lemma_filter_pred(|v: T::V| !self@.contains(v), j);
                assert(self@.contains(head[i]));
            }
            vstd::seq_lib::lemma_no_dup_in_concat(head, tail);
        }
        OrderedSet { items }
    }

    /// The items of `self` that are in `other`.
    pub fn intersection(&self, other: &OrderedSet<T>) -> (r: OrderedSet<T>)
        requires
            self.wf(),
            eq_and_clone_by_view::<T>(),
        ensures
            r.wf(),
            r@ == self@.filter(|v: T::V| other@.contains(v)),
    {
        let r = self.intersection_difference_base(other, true);
        assert((|v: T::V| other@.contains(v) == true) =~= (|v: T::V| other@.contains(v)));
        r
    }

    /// The items of `self` that are not in `other`.
    pub fn difference(&self, other: &OrderedSet<T>) -> (r: OrderedSet<T>)
        requires
            self.wf(),
            eq_and_clone_by_view::<T>(),
        ensures
            r.wf(),
            r@ == self@.filter(|v: T::V| !other@.contains(v)),
    {
        let r = self.intersection_difference_base(other, false);
        assert((|v: T::V| other@.contains(v) == false) =~= (|v: T::V| !other@.contains(v)));
        r
    }

    fn intersection_difference_base(&self, other: &OrderedSet<T>, should_compute_intersection: bool) -> (r: OrderedSet<T>)
        requires
            self.wf(),
            eq_and_clone_by_view::<T>(),
        ensures
            r.wf(),
            r@ == self@.filter(|v: T::V| other@.contains(v) == should_compute_intersection),
    {
        let ghost keep = |v: T::V| other@.contains(v) == should_compute_intersection;
        let mut items: Vec<T> = Vec::new();
        let mut i: usize = 0;
        while i < self.items.len()
            invariant
                eq_and_clone_by_view::<T>(),
                self.wf(),
                keep == (|v: T::V| other@.contains(v) == should_compute_intersection),
                i <= self.items@.len(),
                views_of(items@) == self@.subrange(0, i as int).filter(keep),
                views_of(items@).no_duplicates(),
                forall|k: int| 0 <= k < items@.len() ==> self@.subrange(0, i as int).contains(#[trigger] views_of(items@)[k]),
            decreases self.items@.len() - i,
        {
            let ghost prefix = self@.subrange(0, i as int);
            assert(self@.subrange(0, i + 1) =~= prefix.push(self@[i as int]));
            proof {
                prefix.lemma_filter_push(self@[i as int], keep);
                assert(self@[i as int] == self.items@[i as int]@);
            }
            let found = other.contains(&self.items[i]);
            assert(found == other@.contains(self@[i as int]));
            if found == should_compute_intersection {
                let ghost before = items@;
                let item = clone_item(&self.items[i]);
                items.push(item);
                assert(keep(self@[i as int]));
                assert(self@.subrange(0, i + 1).filter(keep) == prefix.filter(keep).push(self@[i as int]));
                assert(views_of(items@) =~= views_of(before).push(self@[i as int]));
                assert forall|k: int| 0 <= k < views_of(before).len() implies views_of(before)[k] != self@[i as int] by {
                    assert(prefix.contains(views_of(before)[k]));
                }
                assert forall|k: int| 0 <= k < items@.len() implies self@.subrange(0, i + 1).contains(#[trigger] views_of(items@)[k]) by {
                    if k < views_of(before).len() {
                        let j = choose|j: int| 0 <= j < prefix.len() && prefix[j] == views_of(before)[k];
                        assert(self@.subrange(0, i + 1)[j] == views_of(items@)[k]);
                    } else {
                        assert(self@.subrange(0, i + 1)[i as int] == views_of(items@)[k]);
                    }
                }
            } else {
                assert(!keep(self@[i as int]));
                assert(self@.subrange(0, i + 1).filter(keep) == prefix.filter(keep));
                assert forall|k: int| 0 <= k < items@.len() implies self@.subrange(0, i + 1).contains(#[trigger] views_of(items@)[k]) by {
                    let j = choose|j: int| 0 <= j < prefix.len() && prefix[j] == views_of(items@)[k];
                    assert(self@.subrange(0, i + 1)[j] == views_of(items@)[k]);
                }
            }
            i += 1;
        }
        assert(self@.subrange(0, self@.len() as int) =~= self@);
        OrderedSet { items }
    }

    /// Reverses the order of the items in place and returns a copy of the result.
    pub fn reverse(&mut self) -> (r: OrderedSet<T>)
        requires
            old(self).wf(),
            eq_and_clone_by_view::<T>(),
        ensures
            final(self)@ == old(self)@.reverse(),
            final(self).wf(),
            r@ == final(self)@,
            r.wf(),
    {
        let ghost before = self@;
        let mut items: Vec<T> = Vec::new();
        let mut i: usize = self.items.len();
        while i > 0
            invariant
                eq_and_clone_by_view::<T>(),
                before == self@,
                i <= self.items@.len(),
                views_of(items@) =~= self@.subrange(i as int, self@.len() as int).reverse(),
            decreases i,
        {
            i -= 1;
            let item = clone_item(&self.items[i]);
            let ghost done = views_of(items@);
            items.push(item);
            proof {
                assert(self@[i as int] == self.items@[i as int]@);
                assert(views_of(items@) =~= done.push(self@[i as int]));
                assert(self@.subrange(i as int, self@.len() as int).reverse() =~= self@.subrange(i + 1, self@.len() as int).reverse().push(self@[i as int]));
            }
        }
        self.items = items;
        proof {
            assert(before.subrange(0, before.len() as int) =~= before);
            lemma_reverse_keeps_distinct(before);
        }
        self.clone()
    }

    /// Whether no item of `self` is in `other`.
    pub fn is_disjoint(&self, other: &OrderedSet<T>) -> (r: bool)
        requires
            self.wf(),
            eq_and_clone_by_view::<T>(),
        ensures
            r == (forall|v: T::V| self@.contains(v) ==> !other@.contains(v)),
    {
        let common = self.intersection(other);
        let r = common.to_vec().len() == 0;
        proof {
            let keep = |v: T::V| other@.contains(v);
            if !r {
                let v = common@[0];
                self@.lemma_filter_contains_rev(keep, v);
                assert(common@.contains(v));
            } else {
                assert forall|v: T::V| self@.contains(v) implies !other@.contains(v) by {
                    if other@.contains(v) {
                        let j = choose|j: int| 0 <= j < self@.len() && self@[j] == v;
                        self@.lemma_filter_contains(keep, j);
                    }
                }
            }
        }
        r
    }

    /// A copy of the items, in order.
    pub fn to_vec(&self) -> (r: Vec<T>)
        requires
            eq_and_clone_by_view::<T>(),
        ensures
            views_of(r@) == self@,
    {
        let r = self.items.clone();
        assert(views_of(r@) =~= self@);
        r
    }

    fn contains(&self, item: &T) -> (r: bool)
        requires
            eq_and_clone_by_view::<T>(),
        ensures
            r == self@.contains(item@),
    {
        let mut i: usize = 0;
        while i < self.items.len()
            invariant
                eq_and_clone_by_view::<T>(),
                i <= self.items@.len(),
                forall|k: int| 0 <= k < i ==> self@[k] != item@,
            decreases self.items@.len() - i,
        {
            if self.items[i] == *item {
                assert(self@[i as int] == item@);
                return true;
            }
            i += 1;
        }
        proof {
            assert forall|k: int| 0 <= k < self@.len() implies self@[k] != item@ by {}
        }
        false
    }
}

impl<T: Clone + View + PartialEq> Clone for OrderedSet<T> {
    fn clone(&self) -> (r: OrderedSet<T>)
        ensures
            eq_and_clone_by_view::<T>() ==> r@ == self@,
    {
        OrderedSet { items: self.items.clone() }
    }
}

impl<T: PartialEq + View> vstd::std_specs::convert::TryFromSpecImpl<Vec<T>> for OrderedSet<T> {
    open spec fn obeys_try_from_spec() -> bool {
        eq_by_view::<T>()
    }

    closed spec fn try_from_spec(v: Vec<T>) -> Result<OrderedSet<T>, &'static str> {
        if views_of(v@).no_duplicates() {
            Ok(OrderedSet { items: v })
        } else {
            Err("All elements of the set must be unique")
        }
    }
}

impl<T: PartialEq + View> TryFrom<Vec<T>> for OrderedSet<T> {
    type Error = &'static str;

    /// Wraps `vec` as it is, or fails when two of its items are equal.
    fn try_from(vec: Vec<T>) -> (r: Result<OrderedSet<T>, &'static str>)
        ensures
            eq_by_view::<T>() ==> (r is Ok <==> views_of(vec@).no_duplicates()),
            r matches Ok(set) ==> set@ == views_of(vec@),
    {
        let mut i: usize = 0;
        while i < vec.len()
            invariant
                i <= vec@.len(),
                eq_by_view::<T>() ==> views_of(vec@).subrange(0, i as int).no_duplicates(),
            decreases vec@.len() - i,
        {
            let mut j: usize = 0;
            while j < i
                invariant
                    i < vec@.len(),
                    j <= i,
                    eq_by_view::<T>() ==> forall|k: int| 0 <= k < j ==> views_of(vec@)[k] != views_of(vec@)[i as int],
                decreases i - j,
            {
                if vec[j] == vec[i] {
                    proof {
                        if eq_by_view::<T>() {
                            assert(views_of(vec@)[j as int] == views_of(vec@)[i as int]);
                            assert(!views_of(vec@).no_duplicates());
                        }
                    }
                    return Err("All elements of the set must be unique");
                }
                j += 1;
            }
            proof {
                if eq_by_view::<T>() {
                    let p = views_of(vec@).subrange(0, i + 1);
                    assert forall|a: int, b: int| 0 <= a < p.len() && 0 <= b < p.len() && a != b implies p[a] != p[b] by {
                        if a < i && b < i {
                            assert(views_of(vec@).subrange(0, i as int)[a] == p[a]);
                            assert(views_of(vec@).subrange(0, i as int)[b] == p[b]);
                        }
                    }
                }
            }
            i += 1;
        }
        proof {
            assert(views_of(vec@).subrange(0, vec@.len() as int) =~= views_of(vec@));
        }
        Ok(OrderedSet { items: vec })
    }
}

} // verus!
