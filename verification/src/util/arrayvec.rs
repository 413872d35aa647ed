use vstd::prelude::*;

verus! {

/// A vector with a fixed capacity `CAP` (at most 255).
pub struct ArrayVec<T, const CAP: usize> {
    data: Vec<T>,
}

impl<T, const CAP: usize> View for ArrayVec<T, CAP> {
    type V = Seq<T>;

    closed spec fn view(&self) -> Seq<T> {
        self.data@
    }
}

impl<T, const CAP: usize> ArrayVec<T, CAP> {
    #[verifier::type_invariant]
    closed spec fn inv(self) -> bool {
        &&& self.data@.len() <= CAP
        &&& CAP <= 255
    }

    /// The capacity of a vector of this type.
    pub open spec fn cap() -> nat {
        CAP as nat
    }

    /// An empty vector.
    pub fn new() -> (r: Self)
        requires
            CAP <= 255,
        ensures
            r@ == Seq::<T>::empty(),
    {
        ArrayVec { data: Vec::new() }
    }

    /// The number of elements.
    pub fn len(&self) -> (r: usize)
        ensures
            r == self@.len(),
            r <= CAP,
    {
        proof {
            use_type_invariant(self);
        }
        self.data.len()
    }

    pub fn is_empty(&self) -> (r: bool)
        ensures
            r == (self@.len() == 0),
    {
        self.len() == 0
    }

    pub fn capacity(&self) -> (r: usize)
        ensures
            r == CAP,
    {
        CAP
    }

    pub fn is_full(&self) -> (r: bool)
        ensures
            r == (self@.len() == CAP),
    {
        self.len() == self.capacity()
    }

    pub fn remaining_capacity(&self) -> (r: usize)
        ensures
            r == CAP - self@.len(),
    {
        self.capacity() - self.len()
    }

    /// Pushes `element` to the end of the vector, which must not be full.
    pub fn push(&mut self, element: T)
        requires
            old(self)@.len() < CAP,
        ensures
            final(self)@ == old(self)@.push(element),
    {
        proof {
            use_type_invariant(&*self);
        }
        let mut data: Vec<T> = Vec::new();
        std::mem::swap(&mut data, &mut self.data);
        data.push(element);
        self.data = data;
    }

    /// Keeps the first `new_len` elements and drops the rest; no effect when `new_len` is not
    /// below the length.
    pub fn truncate(&mut self, new_len: usize)
        ensures
            new_len < old(self)@.len() ==> final(self)@ == old(self)@.subrange(0, new_len as int),
            new_len >= old(self)@.len() ==> final(self)@ == old(self)@,
    {
        proof {
            use_type_invariant(&*self);
        }
        let mut data: Vec<T> = Vec::new();
        std::mem::swap(&mut data, &mut self.data);
        data.truncate(new_len);
        self.data = data;
    }

    /// Removes all elements.
    pub fn clear(&mut self)
        ensures
            final(self)@ == Seq::<T>::empty(),
    {
        self.truncate(0);
        proof {
            assert(final(self)@ =~= Seq::<T>::empty());
        }
    }

    /// Inserts `element` at position `index`, shifting up the elements after it. `index` must be
    /// at most the length, and the vector must not be full.
    pub fn insert(&mut self, index: usize, element: T)
        requires
            index <= old(self)@.len(),
            old(self)@.len() < CAP,
        ensures
            final(self)@ == old(self)@.insert(index as int, element),
    {
        proof {
            use_type_invariant(&*self);
        }
        let mut data: Vec<T> = Vec::new();
        std::mem::swap(&mut data, &mut self.data);
        data.insert(index, element);
        self.data = data;
    }

    /// The element at `index`.
    pub fn get(&self, index: usize) -> (r: &T)
        requires
            index < self@.len(),
        ensures
            *r == self@[index as int],
    {
        &self.data[index]
    }

    /// The elements, as a slice.
    pub fn as_slice(&self) -> (r: &[T])
        ensures
            r@ == self@,
    {
        self.data.as_slice()
    }

    /// Consumes the vector, handing out its elements by value, first to last.
    pub fn into_iter(self) -> (r: IntoIter<T, CAP>)
        ensures
            r@ == self@,
    {
        IntoIter { v: self.data }
    }
}

impl<T: Clone, const CAP: usize> ArrayVec<T, CAP> {
    /// Appends clones of the elements of `slice`, which must fit.
    pub fn extend_from_slice(&mut self, slice: &[T])
        requires
            old(self)@.len() + slice@.len() <= CAP,
        ensures
            final(self)@.len() == old(self)@.len() + slice@.len(),
            forall|i: int| 0 <= i < old(self)@.len() ==> #[trigger] final(self)@[i] == old(self)@[i],
            forall|i: int|
                0 <= i < slice@.len() ==> cloned(
                    slice@[i],
                    #[trigger] final(self)@[old(self)@.len() + i],
                ),
    {
        proof {
            use_type_invariant(&*self);
        }
        let ghost start = self@;
        let mut data: Vec<T> = Vec::new();
        std::mem::swap(&mut data, &mut self.data);
        let mut i: usize = 0;
        while i < slice.len()
            invariant
                i <= slice@.len(),
                data@.len() == start.len() + i,
                start.len() + slice@.len() <= CAP,
                forall|j: int| 0 <= j < start.len() ==> #[trigger] data@[j] == start[j],
                forall|j: int| 0 <= j < i ==> cloned(slice@[j], #[trigger] data@[start.len() + j]),
            decreases slice@.len() - i,
        {
            data.push(slice[i].clone());
            i += 1;
        }
        self.data = data;
    }

    /// A vector holding clones of the elements of `slice`, or `None` when they do not fit.
    pub fn from_slice(slice: &[T]) -> (r: Option<Self>)
        requires
            CAP <= 255,
        ensures
            r is Some <==> slice@.len() <= CAP,
            r matches Some(v) ==> v@.len() == slice@.len() && forall|i: int|
                0 <= i < slice@.len() ==> cloned(slice@[i], #[trigger] v@[i]),
    {
        if slice.len() <= CAP {
            let mut array = Self::new();
            array.extend_from_slice(slice);
            proof {
                assert forall|i: int| 0 <= i < slice@.len() implies cloned(
                    slice@[i],
                    #[trigger] array@[i],
                ) by {
                    assert(array@[0 + i] == array@[i]);
                }
            }
            Some(array)
        } else {
            None
        }
    }
}

impl<T: Copy, const CAP: usize> ArrayVec<T, CAP> {
    /// Inserts `value` at the front, shifting every element up; the vector must not be full.
    pub fn insert_first_const(&mut self, value: T)
        requires
            old(self)@.len() < CAP,
        ensures
            final(self)@ == old(self)@.insert(0, value),
    {
        self.insert(0, value);
    }
}

/// The by-value iterator of an [`ArrayVec`].
pub struct IntoIter<T, const CAP: usize> {
    v: Vec<T>,
}

impl<T, const CAP: usize> View for IntoIter<T, CAP> {
    type V = Seq<T>;

    /// The elements not yet handed out, front first.
    closed spec fn view(&self) -> Seq<T> {
        self.v@
    }
}

impl<T, const CAP: usize> IntoIter<T, CAP> {
    /// The next element from the front, or `None` when none is left.
    pub fn next(&mut self) -> (r: Option<T>)
        ensures
            old(self)@.len() == 0 ==> r is None && final(self)@ == old(self)@,
            old(self)@.len() > 0 ==> r == Some(old(self)@[0]) && final(self)@ == old(self)@.drop_first(),
    {
        if self.v.len() == 0 {
            None
        } else {
            Some(self.v.remove(0))
        }
    }

    /// The next element from the back, or `None` when none is left.
    pub fn next_back(&mut self) -> (r: Option<T>)
        ensures
            old(self)@.len() == 0 ==> r is None && final(self)@ == old(self)@,
            old(self)@.len() > 0 ==> r == Some(old(self)@.last()) && final(self)@ == old(self)@.drop_last(),
    {
        self.v.pop()
    }

    /// The exact number of elements left.
    pub fn size_hint(&self) -> (r: (usize, Option<usize>))
        ensures
            r == (self@.len() as usize, Some(self@.len() as usize)),
    {
        (self.v.len(), Some(self.v.len()))
    }
}


impl<T: Clone, const CAP: usize> Clone for ArrayVec<T, CAP> {
    /// An element-by-element clone.
    fn clone(&self) -> (r: Self)
        ensures
            r@.len() == self@.len(),
            forall|i: int| 0 <= i < self@.len() ==> cloned(self@[i], #[trigger] r@[i]),
    {
        proof {
            use_type_invariant(self);
        }
        let mut array: ArrayVec<T, CAP> = ArrayVec::new();
        array.extend_from_slice(self.as_slice());
        proof {
            assert forall|i: int| 0 <= i < self@.len() implies cloned(self@[i], #[trigger] array@[i]) by {
                assert(array@[0 + i] == array@[i]);
            }
        }
        array
    }
}

impl<T: Clone, const CAP: usize> Clone for IntoIter<T, CAP> {
    /// A clone of the elements not yet handed out.
    fn clone(&self) -> (r: Self)
        ensures
            r@.len() == self@.len(),
            forall|i: int| 0 <= i < self@.len() ==> cloned(self@[i], #[trigger] r@[i]),
    {
        let mut v: Vec<T> = Vec::new();
        let mut i: usize = 0;
        while i < self.v.len()
            invariant
                i <= self.v@.len(),
                v@.len() == i,
                forall|j: int| 0 <= j < i ==> cloned(self.v@[j], #[trigger] v@[j]),
            decreases self.v@.len() - i,
        {
            v.push(self.v[i].clone());
            i += 1;
        }
        IntoIter { v }
    }
}

} // verus!
