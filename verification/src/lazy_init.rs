//! Lazily initialized containers.
//!
//! A container starts out holding only an initializer (a function that
//! constructs the value in question).  When the value is requested, the
//! initializer runs — at most once.

use vstd::prelude::*;

verus! {

/// A lazily initialized container.
pub struct LazyInit<F, T> {
    /// The initialization function, consumed on first use.
    pub init: Option<F>,
    /// The initialized value, if initialization has run.
    pub value: Option<T>,
}

impl<F: FnOnce() -> T, T> LazyInit<F, T> {
    /// Either the value is present, or a callable initializer is.
    pub open spec fn wf(self) -> bool {
        self.value is None ==> (self.init matches Some(f) && f.requires(()))
    }

    /// The initializer has not yet run.
    pub open spec fn is_uninitialized(self) -> bool {
        self.value is None
    }

    /// The value the container holds, once initialized.
    pub open spec fn spec_value(self) -> T
        recommends self.value is Some,
    {
        self.value->Some_0
    }

    /// Create a new to-be-initialized container.
    ///
    /// The closure will be executed when initialization is required, and is
    /// guaranteed to be executed at most once.
    pub fn new(init: F) -> (r: LazyInit<F, T>)
        requires
            init.requires(()),
        ensures
            r.wf(),
            r.is_uninitialized(),
            r.init == Some(init),
    {
        LazyInit { init: Some(init), value: None }
    }

    /// Get a mutable reference to the inner value.
    ///
    /// If it is uninitialized, it will be initialized first.
    pub fn get(&mut self) -> (r: &mut T)
        requires
            old(self).wf(),
        ensures
            final(self).wf(),
            old(self).value matches Some(v) ==> *r == v,
            old(self).value is None ==> (old(self).init matches Some(f) ==> f.ensures((), *r)),
            final(self).value == Some(*final(r)),
    {
        if self.value.is_none() {
            let f = self.init.take();
            match f {
                Some(f) => {
                    let v = f();
                    self.value = Some(v);
                }
                None => {
                    proof {
                        assert(false);
                    }
                }
            }
        }
        match self.value.as_mut() {
            Some(x) => x,
            None => unreached(),
        }
    }

    /// Get the inner value of the container, consuming it.
    ///
    /// The initializer will, if necessary, be called and the result
    /// returned; an already initialized value is moved out.
    pub fn into_inner(self) -> (r: T)
        requires
            self.wf(),
        ensures
            self.value matches Some(v) ==> r == v,
            self.value is None ==> (self.init matches Some(f) ==> f.ensures((), r)),
    {
        match self.value {
            Some(x) => x,
            None => match self.init {
                Some(f) => f(),
                None => unreached(),
            },
        }
    }
}

} // verus!
