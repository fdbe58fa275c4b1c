use vstd::prelude::*;

verus! {

/// Holds a vector of something, or just its length.
pub enum MaybeVec<T> {
    Vector(Vec<T>),
    JustLength(usize),
}

impl<T> MaybeVec<T> {
    /// Number of held (or counted) elements.
    pub open spec fn spec_len(&self) -> nat {
        match self {
            MaybeVec::Vector(v) => v@.len(),
            MaybeVec::JustLength(l) => *l as nat,
        }
    }

    pub fn len(&self) -> (r: usize)
        ensures
            r == self.spec_len(),
    {
        match self {
            MaybeVec::Vector(x) => x.len(),
            MaybeVec::JustLength(x) => *x,
        }
    }

    /// Appends an element; a length-only holder just counts it.
    pub fn push(&mut self, x: T)
        requires
            *old(self) is JustLength ==> old(self).spec_len() < usize::MAX,
        ensures
            match *old(self) {
                MaybeVec::Vector(v) => *final(self) is Vector && final(self)->Vector_0@ == v@.push(x),
                MaybeVec::JustLength(l) => *final(self) == MaybeVec::<T>::JustLength((l + 1) as usize),
            },
    {
        match self {
            MaybeVec::Vector(v) => v.push(x),
            MaybeVec::JustLength(l) => *l += 1,
        }
    }

    /// An empty holder: a real vector when `with_elements`, a zero length
    /// otherwise.
    pub fn new(with_elements: bool) -> (r: Self)
        ensures
            with_elements ==> r is Vector && r->Vector_0@ == Seq::<T>::empty(),
            !with_elements ==> r == MaybeVec::<T>::JustLength(0),
    {
        if with_elements {
            MaybeVec::Vector(Vec::new())
        } else {
            MaybeVec::JustLength(0)
        }
    }

    pub fn from_just_length(len: usize) -> (r: Self)
        ensures
            r == MaybeVec::<T>::JustLength(len),
    {
        MaybeVec::JustLength(len)
    }

    /// True when real elements are held.
    pub fn is_some(&self) -> (r: bool)
        ensures
            r == (*self is Vector),
    {
        match self {
            MaybeVec::Vector(_) => true,
            MaybeVec::JustLength(_) => false,
        }
    }

    /// Iterator over the held elements; only a holder of real elements can be
    /// iterated.
    pub fn iter(&self) -> (r: std::slice::Iter<'_, T>)
        requires
            *self is Vector,
        ensures
            vstd::std_specs::slice::into_iter_elts(r) == self->Vector_0@,
    {
        match self {
            MaybeVec::Vector(x) => x.iter(),
            MaybeVec::JustLength(_) => {
                let none: &[T] = &[];
                none.iter()
            },
        }
    }

    /// Element at position `e`, if real elements are held and `e` is in range.
    pub fn get(&self, e: usize) -> (r: Option<&T>)
        ensures
            match self {
                MaybeVec::Vector(v) => if e < v@.len() {
                    r == Some(&v@[e as int])
                } else {
                    r is None
                },
                MaybeVec::JustLength(_) => r is None,
            },
    {
        match self {
            MaybeVec::Vector(x) => {
                if e < x.len() {
                    Some(&x[e])
                } else {
                    None
                }
            },
            MaybeVec::JustLength(_) => None,
        }
    }

    /// Appends the content of `other`; both must hold real elements, or both
    /// only lengths.
    pub fn merge(&mut self, other: Self)
        requires
            (*old(self) is Vector) == (other is Vector),
            *old(self) is JustLength ==> old(self).spec_len() + other.spec_len() <= usize::MAX,
        ensures
            match (*old(self), other) {
                (MaybeVec::Vector(a), MaybeVec::Vector(b)) => *final(self) is Vector
                    && final(self)->Vector_0@ == a@ + b@,
                (MaybeVec::JustLength(a), MaybeVec::JustLength(b)) => *final(self)
                    == MaybeVec::<T>::JustLength((a + b) as usize),
                _ => false,
            },
    {
        match (self, other) {
            (MaybeVec::Vector(a), MaybeVec::Vector(b)) => {
                let mut b = b;
                a.append(&mut b);
            },
            (MaybeVec::JustLength(a), MaybeVec::JustLength(b)) => *a += b,
            _ => {},
        }
    }
}

} // verus!
