//! A fixed-length array whose length is chosen when it is created.

use vstd::prelude::*;
use vstd::std_specs::convert::FromSpecImpl;

verus! {

/// An array of `size` slots, each filled at creation with a clone of one value.
pub struct NArray<T> {
    data: Vec<T>,
}

impl<T> View for NArray<T> {
    type V = Seq<T>;

    closed spec fn view(&self) -> Seq<T> {
        self.data@
    }
}

impl<T: Clone> NArray<T> {
    /// An array of `size` slots, every one a clone of `value`.
    pub fn new(value: T, size: usize) -> (arr: NArray<T>)
        ensures
            arr@.len() == size,
            forall|i: int| 0 <= i < size ==> cloned(value, #[trigger] arr@[i]),
    {
        let data = vec![value; size];
        NArray { data }
    }

    /// The number of slots.
    pub fn len(&self) -> (n: usize)
        ensures
            n == self@.len(),
    {
        self.data.len()
    }
}

impl<T> NArray<T> {
    /// The slot at `index`.
    pub fn index(&self, index: usize) -> (slot: &T)
        requires
            index < self@.len(),
        ensures
            *slot == self@[index as int],
    {
        &self.data[index]
    }

    /// Overwrites the slot at `index`, leaving every other slot as it was.
    pub fn set(&mut self, index: usize, value: T)
        requires
            index < old(self)@.len(),
        ensures
            final(self)@ == old(self)@.update(index as int, value),
    {
        self.data[index] = value;
    }
}

/// Hands out the slots of an [`NArray`] front to back, each as a clone.
pub struct ArrIter<T> {
    arr: Vec<T>,
    i: usize,
}

impl<T> ArrIter<T> {
    /// The slots the iterator walks over, handed-out ones included.
    pub closed spec fn items(&self) -> Seq<T> {
        self.arr@
    }

    /// How many slots have been handed out so far.
    pub closed spec fn position(&self) -> nat {
        self.i as nat
    }

    /// The iterator never runs past its slots.
    pub closed spec fn wf(&self) -> bool {
        self.i <= self.arr@.len()
    }
}

impl<T: Clone> ArrIter<T> {
    /// The next slot, or `None` once every slot has been handed out.
    pub fn next(&mut self) -> (item: Option<T>)
        requires
            old(self).wf(),
        ensures
            final(self).wf(),
            final(self).items() == old(self).items(),
            old(self).position() < old(self).items().len() ==> {
                &&& item is Some
                &&& cloned(old(self).items()[old(self).position() as int], item->0)
                &&& final(self).position() == old(self).position() + 1
            },
            old(self).position() >= old(self).items().len() ==> {
                &&& item is None
                &&& final(self).position() == old(self).position()
            },
    {
        if self.i < self.arr.len() {
            let r = Some(self.arr[self.i].clone());
            self.i += 1;
            r
        } else {
            None
        }
    }
}

impl<T> NArray<T> {
    /// Turns the array into an iterator over its slots, starting at the front.
    pub fn into_iter(self) -> (it: ArrIter<T>)
        ensures
            it.wf(),
            it.items() == self@,
            it.position() == 0,
    {
        ArrIter { arr: self.data, i: 0 }
    }
}

impl<T> From<NArray<T>> for ArrIter<T> {
    fn from(arr: NArray<T>) -> (it: ArrIter<T>) {
        ArrIter { arr: arr.data, i: 0 }
    }
}

impl<T> FromSpecImpl<NArray<T>> for ArrIter<T> {
    open spec fn obeys_from_spec() -> bool {
        true
    }

    closed spec fn from_spec(arr: NArray<T>) -> ArrIter<T> {
        ArrIter { arr: arr.data, i: 0 }
    }
}

/// An iterator made from an array starts at the front of its slots.
pub proof fn lemma_iter_from_array<T>(arr: NArray<T>)
    ensures
        <ArrIter<T> as vstd::std_specs::convert::FromSpec<NArray<T>>>::from_spec(arr).wf(),
        <ArrIter<T> as vstd::std_specs::convert::FromSpec<NArray<T>>>::from_spec(arr).items() == arr@,
        <ArrIter<T> as vstd::std_specs::convert::FromSpec<NArray<T>>>::from_spec(arr).position() == 0,
{
}

} // verus!
