//! The merge capability: what becomes of a value when its key leaves the
//! ring, and how the heir's value takes it in.

use vstd::prelude::*;
use vstd::string::*;

verus! {

/// A value that can leave the ring and be folded into another.
///
/// The three predicates say what `evict` and `merge` do; the two functions do
/// it. A type whose `merge` never fails lets `accepts` hold of every item.
pub trait Evict<RHS = Self>: Sized {
    /// `out` is what `self` hands on when its key is deleted.
    spec fn evicts_to(self, out: Self) -> bool;

    /// `self` can take `item` in.
    spec fn accepts(&self, item: RHS) -> bool;

    /// `out` is `self` with `item` folded into it.
    spec fn merges_to(&self, item: RHS, out: Self) -> bool;

    /// Turns the value of a deleted key into what its heir receives.
    fn evict(self) -> (out: Self)
        ensures
            self.evicts_to(out),
    ;

    /// Folds `item` into `self`. A value that cannot take `item` in stays as
    /// it was and says why.
    fn merge(&mut self, item: RHS) -> (res: Result<(), String>)
        ensures
            res is Ok <==> old(self).accepts(item),
            res is Ok ==> old(self).merges_to(item, *final(self)),
            res is Err ==> *final(self) == *old(self),
    ;
}

/// Integers merge by addition, as long as the sum fits.
impl Evict for i32 {
    open spec fn evicts_to(self, out: i32) -> bool {
        out == self
    }

    open spec fn accepts(&self, item: i32) -> bool {
        i32::MIN <= *self + item <= i32::MAX
    }

    open spec fn merges_to(&self, item: i32, out: i32) -> bool {
        out == *self + item
    }

    fn evict(self) -> (out: i32) {
        self
    }

    fn merge(&mut self, item: i32) -> (res: Result<(), String>) {
        match self.checked_add(item) {
            Some(sum) => {
                *self = sum;
                Ok(())
            },
            None => Err("sum does not fit in 32 bits".to_owned()),
        }
    }
}

/// Strings merge by concatenation.
impl Evict for String {
    open spec fn evicts_to(self, out: String) -> bool {
        out == self
    }

    open spec fn accepts(&self, item: String) -> bool {
        true
    }

    open spec fn merges_to(&self, item: String, out: String) -> bool {
        out@ == self@ + item@
    }

    fn evict(self) -> (out: String) {
        self
    }

    fn merge(&mut self, item: String) -> (res: Result<(), String>) {
        self.append(item.as_str());
        Ok(())
    }
}

} // verus!
