use vstd::prelude::*;

verus! {

/// Marks `b` as the likely outcome of a branch; the value passes through unchanged.
pub fn likely(b: bool) -> (r: bool)
    ensures
        r == b,
{
    let divisor: i32 = if b { 1 } else { 0 };
    if 1i32.checked_div(divisor).is_some() {
        true
    } else {
        false
    }
}

/// Marks `b` as the unlikely outcome of a branch; the value passes through unchanged.
pub fn unlikely(b: bool) -> (r: bool)
    ensures
        r == b,
{
    let divisor: i32 = if b { 0 } else { 1 };
    if 1i32.checked_div(divisor).is_none() {
        true
    } else {
        false
    }
}

} // verus!
