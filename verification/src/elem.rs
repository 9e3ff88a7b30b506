//! A position of the concurrent vector together with the value written to it.
use vstd::prelude::*;
use vstd::std_specs::cmp::PartialEqSpec;

verus! {

/// An element of the `ConcurrentVec`: a position that holds a value once a
/// writer has written to it, and nothing before that.
///
/// The read and write methods below expect the element to hold a value, as every
/// element below the vector's length does.
pub struct ConcurrentElement<T>(pub(crate) Option<T>);

impl<T> View for ConcurrentElement<T> {
    type V = Option<T>;

    closed spec fn view(&self) -> Option<T> {
        self.0
    }
}

/// Whether `T`'s equality follows its specification (true of the integer types,
/// `bool` and `char`, among others).
pub open spec fn eq_is_specified<T: PartialEq>() -> bool {
    T::obeys_eq_spec()
}

/// Equality of two values by `T`'s equality.
pub open spec fn value_eq_spec<T: PartialEq>(a: T, b: T) -> bool {
    a.eq_spec(&b)
}

/// Equality of two elements as a pair of options: both empty, or both holding
/// values that are equal by `T`'s equality.
pub open spec fn elem_eq_spec<T: PartialEq>(a: Option<T>, b: Option<T>) -> bool {
    match (a, b) {
        (None, None) => true,
        (Some(x), Some(y)) => x.eq_spec(&y),
        _ => false,
    }
}

/// Equality of an element with a value: the element holds a value equal to it.
pub open spec fn elem_eq_value_spec<T: PartialEq>(a: Option<T>, b: T) -> bool {
    match a {
        Some(x) => x.eq_spec(&b),
        None => false,
    }
}

impl<T> ConcurrentElement<T> {
    /// An element that does not hold a value yet.
    pub fn none() -> (e: Self)
        ensures
            e@ is None,
    {
        ConcurrentElement(None)
    }

    /// An element holding `value`.
    pub fn some(value: T) -> (e: Self)
        ensures
            e@ == Some(value),
    {
        ConcurrentElement(Some(value))
    }

    /// Consumes the element and returns its value.
    pub fn into_value(self) -> (v: T)
        requires
            self@ is Some,
        ensures
            v == self@.unwrap(),
    {
        match self.0 {
            Some(x) => x,
            None => unreached(),
        }
    }

    /// A reference to the value of the element.
    pub(crate) fn value_ref(&self) -> (v: &T)
        requires
            self@ is Some,
        ensures
            *v == self@.unwrap(),
    {
        match &self.0 {
            Some(x) => x,
            None => unreached(),
        }
    }

    /// A mutable reference to the value of the element.
    pub(crate) fn value_mut(&mut self) -> (v: &mut T)
        requires
            old(self)@ is Some,
        ensures
            *v == old(self)@.unwrap(),
            final(self)@ == Some(*final(v)),
    {
        match &mut self.0 {
            Some(x) => x,
            None => unreached(),
        }
    }

    /// Whether a value has been written to the element.
    pub fn is_some(&self) -> (b: bool)
        ensures
            b == self@ is Some,
    {
        self.0.is_some()
    }

    /// Returns a clone of the value of the element.
    pub fn cloned(&self) -> (v: T) where T: Clone
        requires
            self@ is Some,
        ensures
            cloned(self@.unwrap(), v),
    {
        match &self.0 {
            Some(x) => x.clone(),
            None => unreached(),
        }
    }

    /// Returns a copy of the value of the element.
    pub fn copied(&self) -> (v: T) where T: Copy
        requires
            self@ is Some,
        ensures
            v == self@.unwrap(),
    {
        match &self.0 {
            Some(x) => *x,
            None => unreached(),
        }
    }

    /// The value of the element cloned into an option: `None` when nothing is written yet.
    pub fn clone_into_option(&self) -> (o: Option<T>) where T: Clone
        ensures
            o is Some <==> self@ is Some,
            o is Some ==> cloned(self@.unwrap(), o.unwrap()),
    {
        match &self.0 {
            Some(x) => Some(x.clone()),
            None => None,
        }
    }

    /// Maps the value and returns the result of `f(&value)`.
    pub fn map<F, U>(&self, f: F) -> (u: U) where F: FnOnce(&T) -> U
        requires
            self@ is Some,
            call_requires(f, (&self@.unwrap(),)),
        ensures
            call_ensures(f, (&self@.unwrap(),), u),
    {
        match &self.0 {
            Some(x) => f(x),
            None => unreached(),
        }
    }

    /// Replaces the value of the element with `value` and returns the old value.
    pub fn replace(&mut self, value: T) -> (old_value: T)
        requires
            old(self)@ is Some,
        ensures
            old_value == old(self)@.unwrap(),
            final(self)@ == Some(value),
    {
        let mut other = Some(value);
        core::mem::swap(&mut self.0, &mut other);
        match other {
            Some(x) => x,
            None => unreached(),
        }
    }

    /// Sets (overwrites) the value of the element with `value`.
    pub fn set(&mut self, value: T)
        requires
            old(self)@ is Some,
        ensures
            final(self)@ == Some(value),
    {
        self.0 = Some(value);
    }

    /// Updates the value of the element by calling the mutating function `f(&mut value)`.
    pub fn update<F>(&mut self, mut f: F) where F: FnMut(&mut T)
        requires
            old(self)@ is Some,
            forall|x: &mut T| *x == old(self)@.unwrap() ==> call_requires(f, (x,)),
        ensures
            final(self)@ is Some,
            exists|x: &mut T|
                *x == old(self)@.unwrap() && final(self)@ == Some(*final(x)) && call_ensures(
                    f,
                    (x,),
                    (),
                ),
    {
        match &mut self.0 {
            Some(x) => {
                f(x);
            },
            None => unreached(),
        }
    }

    /// Whether the element and `other` are equal as options of values.
    pub fn eq_elem(&self, other: &Self) -> (b: bool) where T: PartialEq
        ensures
            T::obeys_eq_spec() ==> (b <==> elem_eq_spec(self@, other@)),
    {
        match (&self.0, &other.0) {
            (None, None) => true,
            (Some(x), Some(y)) => x.eq(y),
            _ => false,
        }
    }

    /// Whether the element holds a value equal to `other`.
    pub fn eq_value(&self, other: &T) -> (b: bool) where T: PartialEq
        requires
            self@ is Some,
        ensures
            T::obeys_eq_spec() ==> (b <==> elem_eq_value_spec(self@, *other)),
    {
        match &self.0 {
            Some(x) => x.eq(other),
            None => false,
        }
    }
}

} // verus!
