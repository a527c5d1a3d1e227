//! A vector of at most 64 items that lives on the stack.

use vstd::prelude::*;
use vstd::laws_cmp::obeys_cmp;
use vstd::std_specs::cmp::{PartialEqSpec, PartialOrdIs};

verus! {

/// A vector that holds its items inline in 64 slots.
#[derive(Debug)]
pub struct StackVec64<T> {
    data: [T; 64],
    len: usize,
}

impl<T> View for StackVec64<T> {
    type V = Seq<T>;

    closed spec fn view(&self) -> Seq<T> {
        self.data@.subrange(0, self.len as int)
    }
}

impl<T> StackVec64<T> {
    #[verifier::type_invariant]
    closed spec fn within_capacity(self) -> bool {
        self.len <= 64
    }
}

impl<T: Copy> Clone for StackVec64<T> {
    fn clone(&self) -> (copy: Self)
        ensures
            copy@ == self@,
    {
        proof {
            use_type_invariant(self);
        }
        Self { data: self.data, len: self.len }
    }
}

impl<T: Copy + Default> StackVec64<T> {
    /// An empty vector.
    pub fn new() -> (v: Self)
        ensures
            v@ == Seq::<T>::empty(),
    {
        let v = Self { data: [T::default();64], len: 0 };
        assert(v@ =~= Seq::<T>::empty());
        v
    }

    /// Appends `value`.
    pub fn push(&mut self, value: T)
        requires
            old(self)@.len() < 64,
        ensures
            final(self)@ == old(self)@.push(value),
    {
        proof {
            use_type_invariant(&*self);
        }
        let ghost before = self@;
        self.data[self.len] = value;
        self.len += 1;
        assert(self@ =~= before.push(value));
    }

    /// The number of items.
    pub fn len(&self) -> (n: usize)
        ensures
            n == self@.len(),
            n <= 64,
    {
        proof {
            use_type_invariant(self);
        }
        self.len
    }

    /// Whether the vector holds no item.
    pub fn is_empty(&self) -> (empty: bool)
        ensures
            empty == (self@.len() == 0),
    {
        proof {
            use_type_invariant(self);
        }
        self.len == 0
    }

    /// Removes all items.
    pub fn clear(&mut self)
        ensures
            final(self)@ == Seq::<T>::empty(),
    {
        self.len = 0;
        assert(self@ =~= Seq::<T>::empty());
    }

    /// The item at `index`.
    pub fn get(&self, index: usize) -> (item: T)
        requires
            index < self@.len(),
        ensures
            item == self@[index as int],
    {
        proof {
            use_type_invariant(self);
        }
        self.data[index]
    }

    /// The items as a `Vec`, in order.
    pub fn to_vec(&self) -> (items: Vec<T>)
        ensures
            items@ == self@,
    {
        proof {
            use_type_invariant(self);
        }
        let mut items: Vec<T> = Vec::new();
        let mut i: usize = 0;
        while i < self.len
            invariant
                i <= self.len <= 64,
                items@ == self@.subrange(0, i as int),
            decreases self.len - i,
        {
            items.push(self.data[i]);
            i += 1;
            assert(items@ =~= self@.subrange(0, i as int));
        }
        assert(items@ =~= self@);
        items
    }

    /// An iterator over the items, in order.
    pub fn iter(&self) -> (iter: Iter<'_, T>)
        ensures
            iter.items() == self@,
            iter.position() == 0,
    {
        Iter { vec: self, index: 0 }
    }

    /// Whether some item equals `x`.
    pub fn contains(&self, x: &T) -> (found: bool) where T: PartialEq
        ensures
            T::obeys_eq_spec() ==> found == exists|i: int|
                0 <= i < self@.len() && #[trigger] self@[i].eq_spec(x),
    {
        proof {
            use_type_invariant(self);
        }
        let mut i: usize = 0;
        while i < self.len
            invariant
                i <= self.len <= 64,
                T::obeys_eq_spec() ==> forall|j: int|
                    0 <= j < i ==> !#[trigger] self@[j].eq_spec(x),
            decreases self.len - i,
        {
            if self.data[i] == *x {
                assert(self@[i as int] == self.data[i as int]);
                return true;
            }
            i += 1;
        }
        false
    }

    /// Sorts the items by the key that `f` gives each of them, the lowest
    /// key first; items with equal keys stay in the order they were in.
    ///
    /// This hands the items to `sort_by_key` of the standard library's
    /// slices, which is documented to sort in ascending order of the keys,
    /// to keep the order of items with equal keys, and to need a total
    /// order of the keys. The contract says that of every function that
    /// gives each item the one key that `f` returns for it.
    #[verifier::external_body]
    pub fn sort_by_key<K: Ord, F: FnMut(&T) -> K>(&mut self, f: F)
        requires
            obeys_cmp::<K>(),
            forall|i: int| 0 <= i < old(self)@.len() ==> call_requires(f, (&old(self)@[i],)),
            exists|key: spec_fn(T) -> K| #[trigger] is_key_of(f, old(self)@, key),
        ensures
            final(self)@.to_multiset() == old(self)@.to_multiset(),
            forall|key: spec_fn(T) -> K| #[trigger]
                is_key_of(f, old(self)@, key) ==> exists|from: Seq<int>| #[trigger]
                    sorted_from(old(self)@, final(self)@, from, key),
    {
        self.data[..self.len].sort_by_key(f)
    }
}

/// For each of `items`, `key` gives what `f` returns.
pub open spec fn is_key_of<T, K: Ord, F: FnMut(&T) -> K>(
    f: F,
    items: Seq<T>,
    key: spec_fn(T) -> K,
) -> bool {
    forall|i: int, k: K|
        0 <= i < items.len() && call_ensures(f, (&items[i],), k) ==> k == key(items[i])
}

/// `after` holds the items of `before`, item `i` of `after` being item
/// `from[i]` of `before`, in ascending order of their keys, and items with
/// equal keys in the order they had in `before`.
pub open spec fn sorted_from<T, K: Ord>(
    before: Seq<T>,
    after: Seq<T>,
    from: Seq<int>,
    key: spec_fn(T) -> K,
) -> bool {
    &&& from.len() == before.len()
    &&& after.len() == before.len()
    &&& forall|i: int|
        0 <= i < from.len() ==> 0 <= #[trigger] from[i] < before.len() && after[i]
            == before[from[i]]
    &&& forall|i: int, j: int| 0 <= i < j < from.len() ==> from[i] != from[j]
    &&& forall|i: int, j: int|
        0 <= i < j < after.len() ==> key(#[trigger] after[i]).is_le(&key(#[trigger] after[j]))
            && (key(after[j]).is_le(&key(after[i])) ==> from[i] < from[j])
}

impl<T: Copy + Default> Default for StackVec64<T> {
    fn default() -> (v: Self)
        ensures
            v@ == Seq::<T>::empty(),
    {
        Self::new()
    }
}

/// A walk over the items of a [`StackVec64`].
pub struct Iter<'a, T> {
    vec: &'a StackVec64<T>,
    index: usize,
}

impl<'a, T> Iter<'a, T> {
    /// The items of the vector that is walked.
    pub closed spec fn items(&self) -> Seq<T> {
        self.vec@
    }

    /// How many items have been handed out.
    pub closed spec fn position(&self) -> int {
        self.index as int
    }

    /// The next item, or `None` after the last.
    pub fn next(&mut self) -> (item: Option<&'a T>)
        ensures
            final(self).items() == old(self).items(),
            old(self).position() < old(self).items().len() ==> item == Some(
                &old(self).items()[old(self).position()],
            ) && final(self).position() == old(self).position() + 1,
            old(self).position() >= old(self).items().len() ==> item.is_none()
                && final(self).position() == old(self).position(),
    {
        proof {
            use_type_invariant(self.vec);
        }
        if self.index < self.vec.len {
            let item = &self.vec.data[self.index];
            self.index += 1;
            Some(item)
        } else {
            None
        }
    }
}

} // verus!
