//! Finite sets of facts, held in a vector without repetition.

use crate::text::str_eq;
use vstd::prelude::*;
use vstd::seq_lib::seq_to_set_is_finite;

verus! {

/// What a set can hold: a value that is known by its view, can be compared
/// by it and copied.
pub trait Elem: View + Sized {
    /// Whether two values have the same view.
    fn same(&self, other: &Self) -> (r: bool)
        ensures
            r == (self@ == other@),
    ;

    /// A copy with the same view.
    fn dup(&self) -> (r: Self)
        ensures
            r@ == self@,
    ;
}

impl Elem for usize {
    fn same(&self, other: &Self) -> (r: bool) {
        *self == *other
    }

    fn dup(&self) -> (r: Self) {
        *self
    }
}

impl Elem for String {
    fn same(&self, other: &Self) -> (r: bool) {
        str_eq(self.as_str(), other.as_str())
    }

    fn dup(&self) -> (r: Self) {
        self.clone()
    }
}

/// The views of the items of a sequence.
pub open spec fn keys_of<T: View>(items: Seq<T>) -> Seq<T::V> {
    Seq::new(items.len(), |i: int| items[i]@)
}

/// A finite set. Its members are told apart by their views alone.
pub struct VecSet<T: Elem> {
    items: Vec<T>,
}

impl<T: Elem> View for VecSet<T> {
    type V = Set<T::V>;

    closed spec fn view(&self) -> Set<T::V> {
        keys_of(self.items@).to_set()
    }
}

impl<T: Elem> VecSet<T> {
    /// The views of the members, in the order in which they are held.
    pub closed spec fn keys(&self) -> Seq<T::V> {
        keys_of(self.items@)
    }

    /// Whether no member is held twice.
    pub closed spec fn wf(&self) -> bool {
        keys_of(self.items@).no_duplicates()
    }

    /// The set is finite; it holds what `keys` lists, each once.
    pub proof fn lemma_keys(&self)
        requires
            self.wf(),
        ensures
            self@.finite(),
            self@ == self.keys().to_set(),
            self.keys().no_duplicates(),
            self@.len() == self.keys().len(),
    {
        seq_to_set_is_finite(self.keys());
        self.keys().unique_seq_to_set();
    }

    /// The empty set.
    pub fn new() -> (r: Self)
        ensures
            r.wf(),
            r@ == Set::<T::V>::empty(),
    {
        let items: Vec<T> = Vec::new();
        assert(keys_of(items@).to_set() =~= Set::<T::V>::empty());
        VecSet { items }
    }

    /// The number of members.
    pub fn len(&self) -> (r: usize)
        requires
            self.wf(),
        ensures
            r == self@.len(),
            self@.finite(),
    {
        proof {
            self.lemma_keys();
        }
        self.items.len()
    }

    /// The members, each once, in the order in which they are held.
    pub fn items(&self) -> (r: &Vec<T>)
        requires
            self.wf(),
        ensures
            keys_of(r@) == self.keys(),
            self.keys().no_duplicates(),
            self.keys().to_set() == self@,
            self@.finite(),
    {
        proof {
            self.lemma_keys();
        }
        &self.items
    }

    /// Whether `x` is a member.
    pub fn contains(&self, x: &T) -> (r: bool)
        ensures
            r == self@.contains(x@),
    {
        let mut i: usize = 0;
        while i < self.items.len()
            invariant
                i <= self.items@.len(),
                forall|k: int| 0 <= k < i ==> keys_of(self.items@)[k] != x@,
            decreases self.items@.len() - i,
        {
            if self.items[i].same(x) {
                assert(keys_of(self.items@)[i as int] == x@);
                return true;
            }
            i += 1;
        }
        false
    }

    /// Adds `x`. Returns whether it was new to the set.
    pub fn insert(&mut self, x: T) -> (r: bool)
        requires
            old(self).wf(),
        ensures
            final(self).wf(),
            final(self)@ == old(self)@.insert(x@),
            r == !old(self)@.contains(x@),
    {
        if self.contains(&x) {
            assert(self@.insert(x@) =~= self@);
            false
        } else {
            proof {
                let keys = keys_of(self.items@);
                assert(keys_of(self.items@.push(x)) =~= keys.push(x@));
                assert(keys.push(x@).no_duplicates());
                keys.lemma_push_to_set_commute(x@);
            }
            self.items.push(x);
            true
        }
    }

    /// Takes `x` out. Returns whether it was a member.
    pub fn remove(&mut self, x: &T) -> (r: bool)
        requires
            old(self).wf(),
        ensures
            final(self).wf(),
            final(self)@ == old(self)@.remove(x@),
            r == old(self)@.contains(x@),
    {
        let mut i: usize = 0;
        while i < self.items.len()
            invariant
                i <= self.items@.len(),
                *self == *old(self),
                keys_of(self.items@).no_duplicates(),
                forall|k: int| 0 <= k < i ==> keys_of(self.items@)[k] != x@,
            decreases self.items@.len() - i,
        {
            if self.items[i].same(x) {
                proof {
                    let keys = keys_of(self.items@);
                    let rest = keys.remove(i as int);
                    assert(keys[i as int] == x@);
                    assert(keys_of(self.items@.remove(i as int)) =~= rest);
                    assert(rest.no_duplicates()) by {
                        assert forall|a: int, b: int|
                            0 <= a < rest.len() && 0 <= b < rest.len() && a != b implies rest[a]
                            != rest[b] by {
                            let a0 = if a < i { a } else { a + 1 };
                            let b0 = if b < i { b } else { b + 1 };
                            assert(rest[a] == keys[a0] && rest[b] == keys[b0]);
                        }
                    }
                    assert(rest.to_set() =~= keys.to_set().remove(x@)) by {
                        assert forall|v: T::V| rest.to_set().contains(v) <==> keys.to_set().remove(
                            x@,
                        ).contains(v) by {
                            if rest.to_set().contains(v) {
                                let a = choose|a: int| 0 <= a < rest.len() && rest[a] == v;
                                let a0 = if a < i { a } else { a + 1 };
                                assert(keys[a0] == v);
                            }
                            if keys.to_set().remove(x@).contains(v) {
                                let a0 = choose|a0: int| 0 <= a0 < keys.len() && keys[a0] == v;
                                let a = if a0 < i { a0 } else { a0 - 1 };
                                assert(rest[a] == v);
                            }
                        }
                    }
                }
                self.items.remove(i);
                return true;
            }
            i += 1;
        }
        assert(self@.remove(x@) =~= self@);
        false
    }

    /// Adds every member of `other`.
    pub fn union_with(&mut self, other: &VecSet<T>)
        requires
            old(self).wf(),
            other.wf(),
        ensures
            final(self).wf(),
            final(self)@ == old(self)@.union(other@),
    {
        let items = other.items();
        let mut i: usize = 0;
        assert(self@ =~= old(self)@.union(keys_of(items@).subrange(0, 0).to_set()));
        while i < items.len()
            invariant
                i <= items@.len(),
                self.wf(),
                keys_of(items@).to_set() == other@,
                self@ == old(self)@.union(keys_of(items@).subrange(0, i as int).to_set()),
            decreases items@.len() - i,
        {
            self.insert(items[i].dup());
            proof {
                let keys = keys_of(items@);
                assert(keys.subrange(0, i + 1) =~= keys.subrange(0, i as int).push(keys[i as int]));
                keys.subrange(0, i as int).lemma_push_to_set_commute(keys[i as int]);
                assert(self@ =~= old(self)@.union(keys.subrange(0, i + 1).to_set()));
            }
            i += 1;
        }
        assert(keys_of(items@).subrange(0, i as int) =~= keys_of(items@));
    }

    /// A copy of the set.
    pub fn dup(&self) -> (r: VecSet<T>)
        requires
            self.wf(),
        ensures
            r.wf(),
            r@ == self@,
    {
        let mut out: VecSet<T> = VecSet::new();
        out.union_with(self);
        assert(out@ =~= self@);
        out
    }

    /// The members as a vector, each once.
    pub fn to_vec(&self) -> (r: Vec<T>)
        requires
            self.wf(),
        ensures
            keys_of(r@).no_duplicates(),
            keys_of(r@).to_set() == self@,
    {
        let mut out: Vec<T> = Vec::new();
        let mut i: usize = 0;
        while i < self.items.len()
            invariant
                i <= self.items@.len(),
                keys_of(out@) == keys_of(self.items@).subrange(0, i as int),
            decreases self.items@.len() - i,
        {
            let ghost before = keys_of(out@);
            out.push(self.items[i].dup());
            assert(keys_of(out@) =~= before.push(keys_of(self.items@)[i as int]));
            assert(keys_of(out@) =~= keys_of(self.items@).subrange(0, i + 1));
            i += 1;
        }
        assert(keys_of(out@) =~= keys_of(self.items@));
        out
    }
}

} // verus!
