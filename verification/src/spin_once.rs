//! Cells that are initialized once: [`Once`], which hands out its value once it is set, [`Lazy`],
//! which computes its value on first use, and [`TakeOnce`], whose value can be claimed by one
//! caller only.
//!
//! Exclusive access (`&mut self`) stands in for the atomic state transitions that arbitrate
//! between racing initializers: the first initializer wins and later ones see its value.
use vstd::prelude::*;

verus! {

/// A cell-like type for storing a value that can only be initialized once.
pub struct Once<T> {
    value: Option<T>,
}

impl<T> Once<T> {
    /// The stored value, or `None` while the cell is uninitialized.
    pub closed spec fn spec_value(&self) -> Option<T> {
        self.value
    }

    /// Creates an uninitialized `Once`.
    pub fn new() -> (r: Self)
        ensures
            r.spec_value() is None,
    {
        Once { value: None }
    }

    /// The contained value if this `Once` has already been initialized.
    pub fn get(&self) -> (r: Option<&T>)
        ensures
            r == match self.spec_value() {
                Some(v) => Some(&v),
                None => None::<&T>,
            },
    {
        match &self.value {
            Some(v) => Some(v),
            None => None,
        }
    }

    /// The contained value, initializing it first with the result of `f` if there is none yet.
    /// `f` is invoked only when the cell is uninitialized.
    pub fn get_or_init_with<F: FnOnce() -> T>(&mut self, f: F) -> (r: &T)
        requires
            old(self).spec_value() is None ==> f.requires(()),
        ensures
            old(self).spec_value() matches Some(v) ==> *r == v && final(self).spec_value() == old(self).spec_value(),
            old(self).spec_value() is None ==> f.ensures((), *r),
            final(self).spec_value() == Some(*r),
    {
        if self.value.is_none() {
            let v = f();
            self.value = Some(v);
        }
        self.value.as_ref().unwrap()
    }

    /// Initializes the contained value with `value`, which the cell must not have yet: a second
    /// initialization is a bug.
    pub fn init(&mut self, value: T) -> (r: &T)
        requires
            old(self).spec_value() is None,
        ensures
            *r == value,
            final(self).spec_value() == Some(value),
    {
        self.value = Some(value);
        self.value.as_ref().unwrap()
    }
}

/// A value computed by an initializer the first time it is retrieved.
pub struct Lazy<T, I> {
    inner: Once<T>,
    initializer: Option<I>,
}

impl<T, I: FnOnce() -> T> Lazy<T, I> {
    /// Until the value is computed, the initializer is there to compute it.
    pub open spec fn wf(&self) -> bool {
        self.spec_value() is None ==> self.spec_initializer() is Some
    }

    /// The computed value, or `None` before the first retrieval.
    pub closed spec fn spec_value(&self) -> Option<T> {
        self.inner.spec_value()
    }

    /// The initializer, while it has not run.
    pub closed spec fn spec_initializer(&self) -> Option<I> {
        self.initializer
    }

    /// Creates a `Lazy` that will invoke `initializer` the first time its value is retrieved.
    pub fn new(initializer: I) -> (r: Self)
        ensures
            r.wf(),
            r.spec_value() is None,
            r.spec_initializer() == Some(initializer),
    {
        Lazy { inner: Once::new(), initializer: Some(initializer) }
    }

    /// The value, computed by the stored initializer if this is the first retrieval.
    pub fn get(&mut self) -> (r: &T)
        requires
            old(self).wf(),
            old(self).spec_value() is None ==> old(self).spec_initializer().unwrap().requires(()),
        ensures
            final(self).wf(),
            old(self).spec_value() matches Some(v) ==> *r == v,
            old(self).spec_value() is None ==> old(self).spec_initializer().unwrap().ensures((), *r),
            final(self).spec_value() == Some(*r),
    {
        if self.inner.value.is_none() {
            let mut taken: Option<I> = None;
            core::mem::swap(&mut taken, &mut self.initializer);
            let initializer = taken.unwrap();
            let v = initializer();
            let mut inner = Once { value: Some(v) };
            core::mem::swap(&mut inner, &mut self.inner);
        }
        self.inner.value.as_ref().unwrap()
    }
}

/// A cell-like type for storing a value that can be claimed by one caller only.
pub struct TakeOnce<T> {
    value: Option<T>,
    taken: bool,
}

impl<T> TakeOnce<T> {
    /// Whether some caller has claimed the cell.
    pub closed spec fn is_taken(&self) -> bool {
        self.taken
    }

    /// The stored value, once claimed.
    pub closed spec fn spec_value(&self) -> Option<T> {
        self.value
    }

    /// Creates an unclaimed `TakeOnce`.
    pub fn new() -> (r: Self)
        ensures
            !r.is_taken(),
            r.spec_value() is None,
    {
        TakeOnce { value: None, taken: false }
    }

    /// Stores `value` and gives access to it, unless the cell was claimed before: then `None`,
    /// and the cell is unchanged.
    pub fn take_init(&mut self, value: T) -> (r: Option<&mut T>)
        ensures
            final(self).is_taken(),
            old(self).is_taken() ==> r is None && final(self).spec_value() == old(self).spec_value(),
            !old(self).is_taken() ==> (r matches Some(v) && *v == value && final(self).spec_value()
                == Some(*final(v))),
    {
        if self.taken {
            return None;
        }
        self.taken = true;
        self.value = Some(value);
        match &mut self.value {
            Some(v) => Some(v),
            None => None,
        }
    }
}

/// The first initializer wins: once a cell holds a value, later initializers are not run and the
/// cell keeps that value.
pub proof fn law_first_initializer_wins<T>(v0: Option<T>, r1: T, v1: Option<T>, r2: T, v2: Option<T>)
    requires
        v0 is None,
        v1 == Some(r1),
        v1 matches Some(v) ==> r2 == v && v2 == v1,
    ensures
        r2 == r1,
        v2 == Some(r1),
{
}

} // verus!
