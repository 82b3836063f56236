//! A pool of scratch values that the runs of one program share.

use vstd::prelude::*;
use vstd::rwlock::RwLock;

verus! {

/// What makes the values that a pool hands out when it holds none.
pub trait Factory<T> {
    /// Whether `v` is a value as this factory makes them.
    spec fn makes(&self, v: T) -> bool;

    /// Makes a value.
    fn create(&self) -> (v: T)
        ensures
            self.makes(v),
    ;
}

/// A stack of values kept for another use, behind a lock, so that many
/// callers can share it.
#[verifier::reject_recursive_types(T)]
#[verifier::reject_recursive_types(F)]
pub struct Pool<T, F: Factory<T>> {
    stack: RwLock<Vec<T>, spec_fn(Vec<T>) -> bool>,
    create: F,
}

impl<T, F: Factory<T>> Pool<T, F> {
    #[verifier::type_invariant]
    spec fn valid(self) -> bool {
        forall|v: Vec<T>|
            #[trigger] self.stack.inv(v) <==> (forall|i: int|
                0 <= i < v@.len() ==> self.create.makes(#[trigger] v@[i]))
    }

    /// The factory that the pool was made with.
    pub closed spec fn factory(&self) -> F {
        self.create
    }

    /// A pool without values, which makes its values with `create`.
    pub fn new(create: F) -> (r: Pool<T, F>)
        ensures
            r.factory() == create,
    {
        let ghost pred = |v: Vec<T>| forall|i: int| 0 <= i < v@.len() ==> create.makes(#[trigger] v@[i]);
        let stack = RwLock::new(Vec::new(), Ghost(pred));
        Pool { stack, create }
    }

    /// The factory that the pool was made with.
    pub fn maker(&self) -> (r: &F)
        ensures
            *r == self.factory(),
    {
        &self.create
    }

    /// A value that was put back, if one is left, else a new one.
    pub fn get(&self) -> (r: T)
        ensures
            self.factory().makes(r),
    {
        proof {
            use_type_invariant(self);
        }
        let (mut stack, handle) = self.stack.acquire_write();
        let top = stack.pop();
        handle.release_write(stack);
        match top {
            None => self.create.create(),
            Some(v) => v,
        }
    }

    /// Keeps `v` for a later `get`.
    pub fn put(&self, v: T)
        requires
            self.factory().makes(v),
    {
        proof {
            use_type_invariant(self);
        }
        let (mut stack, handle) = self.stack.acquire_write();
        stack.push(v);
        handle.release_write(stack);
    }
}

} // verus!
