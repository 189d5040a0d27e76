//! The memory limit: every bitmap that is kept is charged against it, and every
//! table must fit in what is left of it.

use vstd::prelude::*;

use crate::bytes;
use crate::error::{ErrorView, ReadError, ReadResult};

verus! {

/// How many bytes may still be taken.
pub open spec fn available(budget: Option<usize>) -> int {
    match budget {
        Some(left) => left as int,
        None => usize::MAX as int,
    }
}

/// The error for `size` bytes that are not available.
pub open spec fn over_budget(budget: Option<usize>, size: int) -> ErrorView {
    ErrorView::ExceededMemoryLimit {
        requested: bytes::clamp_offset(size),
        available: available(budget),
    }
}

/// What is left once `size` bytes are taken.
pub open spec fn charged(budget: Option<usize>, size: int) -> Result<Option<usize>, ErrorView> {
    if size > available(budget) {
        Err(over_budget(budget, size))
    } else {
        Ok(
            match budget {
                Some(left) => Some((left - size) as usize),
                None => None,
            },
        )
    }
}

/// Takes `size` bytes, which is more than a machine word can say where it is
/// nothing, and gives what is left.
pub fn charge(budget: Option<usize>, size: Option<usize>) -> (left: ReadResult<Option<usize>>)
    ensures
        size matches Some(n) ==> match charged(budget, n as int) {
            Ok(rest) => left is Ok && left->Ok_0 == rest,
            Err(e) => left matches Err(err) && err@ == e,
        },
        size is None ==> (left matches Err(err) && forall|n: int|
            n > usize::MAX ==> err@ == #[trigger] over_budget(budget, n)),
{
    let available: usize = match budget {
        Some(available) => available,
        None => usize::MAX,
    };
    match size {
        None => Err(ReadError::ExceededMemoryLimit { requested: usize::MAX, available }),
        Some(requested) => {
            if requested > available {
                return Err(ReadError::ExceededMemoryLimit { requested, available });
            }
            match budget {
                Some(left) => Ok(Some(left - requested)),
                None => Ok(None),
            }
        },
    }
}

} // verus!
