//! The two numbers that a sort run is configured with, and their validation.
use vstd::prelude::*;
use crate::pow2::is_pow2;
use crate::plan::{is_power_of_two, group_lanes, lanes_for};

verus! {

/// How many elements to sort, and how many lanes an execution group may hold.
#[derive(Clone, Copy, Debug, PartialEq, Eq, Structural)]
pub struct Arguments {
    pub number: usize,
    pub max_workgroup_size: usize,
}

/// Why a configuration was refused.
#[derive(Clone, Copy, Debug, PartialEq, Eq, Structural)]
pub enum ArgumentsError {
    /// The number of elements is 2 or less.
    NumberTooSmall,
    /// The number of elements is not a power of two.
    NumberNotPowerOfTwo,
    /// An execution group may hold no lane.
    ZeroWorkgroupSize,
}

/// A configuration that the sort accepts.
pub open spec fn arguments_valid(a: Arguments) -> bool {
    &&& a.number > 2
    &&& is_pow2(a.number as int)
    &&& a.max_workgroup_size > 0
}

impl Arguments {
    /// Checks the numbers read for a run: more than two elements, a power of
    /// two of them, and room for at least one lane in a group, in that order
    /// of precedence.
    pub fn parse_and_validate(number: usize, max_workgroup_size: usize) -> (r: Result<
        Arguments,
        ArgumentsError,
    >)
        ensures
            r == Err::<Arguments, ArgumentsError>(ArgumentsError::NumberTooSmall) <==> number <= 2,
            r == Err::<Arguments, ArgumentsError>(ArgumentsError::NumberNotPowerOfTwo) <==> number
                > 2 && !is_pow2(number as int),
            r == Err::<Arguments, ArgumentsError>(ArgumentsError::ZeroWorkgroupSize) <==> number > 2
                && is_pow2(number as int) && max_workgroup_size == 0,
            r matches Ok(a) ==> a == (Arguments { number, max_workgroup_size }) && arguments_valid(
                a,
            ),
    {
        if number <= 2 {
            return Err(ArgumentsError::NumberTooSmall);
        }
        if !is_power_of_two(number) {
            return Err(ArgumentsError::NumberNotPowerOfTwo);
        }
        if max_workgroup_size == 0 {
            return Err(ArgumentsError::ZeroWorkgroupSize);
        }
        Ok(Arguments { number, max_workgroup_size })
    }

    /// The lanes of each execution group: the largest power of two that is at
    /// most half the number of elements and at most `max_workgroup_size`.
    pub fn workgroup_size_x(&self) -> (l: usize)
        requires
            arguments_valid(*self),
        ensures
            l == lanes_for(self.number as int, self.max_workgroup_size as int),
            is_pow2(l as int),
            2 * l <= self.number,
    {
        group_lanes(self.number, self.max_workgroup_size)
    }
}

} // verus!
