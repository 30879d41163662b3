//! The stop rule of the simple move picker: a fixed depth, a wall-clock
//! bound in milliseconds, or the picker's default depth.

use vstd::prelude::*;

verus! {

/// The deepest search the picker accepts.
pub const PICK_MAX_DEPTH: u32 = 8;

/// The longest wall-clock bound the picker accepts, in milliseconds.
pub const PICK_MAX_TIME: u32 = 300000;

/// The stop rule of a pick: a fixed depth, a wall-clock bound in
/// milliseconds, or the picker's default.
#[derive(Debug, Clone, Copy, PartialEq, Eq, Structural)]
pub enum PickConstraint {
    Depth(u32),
    Time(u64),
    Unbounded,
}

impl PickConstraint {
    /// A depth-bounded constraint; depths beyond `PICK_MAX_DEPTH` are
    /// rejected.
    pub fn depth(d: u32) -> (r: Result<PickConstraint, &'static str>)
        ensures
            d <= PICK_MAX_DEPTH ==> r == Ok::<PickConstraint, &'static str>(PickConstraint::Depth(
                d,
            )),
            d > PICK_MAX_DEPTH ==> r is Err,
    {
        if d > PICK_MAX_DEPTH {
            return Err("Depth too large! Pick lower than 25");
        }
        Ok(PickConstraint::Depth(d))
    }

    /// A time-bounded constraint in milliseconds; bounds beyond
    /// `PICK_MAX_TIME` are rejected.
    pub fn time(t: u32) -> (r: Result<PickConstraint, &'static str>)
        ensures
            t <= PICK_MAX_TIME ==> r == Ok::<PickConstraint, &'static str>(PickConstraint::Time(
                t as u64,
            )),
            t > PICK_MAX_TIME ==> r is Err,
    {
        if t > PICK_MAX_TIME {
            return Err("Time to large! Pick lower than 300 seconds");
        }
        Ok(PickConstraint::Time(t as u64))
    }

    /// The default constraint: no explicit bound.
    pub fn none() -> (r: PickConstraint)
        ensures
            r == PickConstraint::Unbounded,
    {
        PickConstraint::Unbounded
    }
}

} // verus!
