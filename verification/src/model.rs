//! Specification vocabulary shared by the modules.

use vstd::prelude::*;

verus! {

/// `r` is `s`, with the sequence held in a vector.
pub open spec fn same_vec<T, E>(r: Result<Vec<T>, E>, s: Result<Seq<T>, E>) -> bool {
    match (r, s) {
        (Ok(v), Ok(q)) => v@ == q,
        (Err(e), Err(f)) => e == f,
        _ => false,
    }
}

/// `head` put in front of the sequence in `r`.
pub open spec fn prepended<T, E>(head: Seq<T>, r: Result<Seq<T>, E>) -> Result<Seq<T>, E> {
    match r {
        Ok(tail) => Ok(head + tail),
        Err(e) => Err(e),
    }
}

} // verus!
