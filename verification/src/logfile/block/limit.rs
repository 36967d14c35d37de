use vstd::prelude::*;
use super::err::BlockErr;

verus! {

/// An upper bound on a size.
#[derive(Debug, Clone, Copy)]
pub struct Limit(pub u64);

impl Limit {
    /// The bound of sizes that fit in a `usize`.
    pub fn usize_limit() -> (r: Limit)
        ensures
            r.0 == usize::MAX,
    {
        Limit(usize::MAX as u64)
    }

    /// `Ok` where `value` is within the bound, else the error that names
    /// the operation.
    pub fn check(self, value: u64, operation: &str) -> (r: Result<(), BlockErr>)
        ensures
            r is Ok <==> value <= self.0,
            r matches Err(BlockErr::Limit { limit, target, message }) ==> limit == self.0 && target
                == value && message@ == super::err::spec_limit_message(operation@, self.0, value),
            r is Err ==> r matches Err(BlockErr::Limit { .. }),
    {
        if value > self.0 {
            Err(BlockErr::limit(operation, self, value))
        } else {
            Ok(())
        }
    }
}

} // verus!
