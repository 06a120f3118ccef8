//! What the arguments of the program have to be.

use vstd::prelude::*;
use vstd::string::*;

#[allow(unused_imports)]
use crate::axis::{can_be_fixed, law_fixed_axis_can_clamp, y_bounds};
use crate::double::Double;
#[allow(unused_imports)]
use crate::rounding::{lemma_whole_exact, one};
use crate::signed::Signed;
#[allow(unused_imports)]
use crate::signed::lemma_signed_of_units;

verus! {

/// A number given for an end of the Y axis.
#[derive(Debug)]
pub struct Flag {
    /// The number in microseconds, or nothing if it is not finite.
    pub level: Option<Signed>,
    /// The number as it is shown.
    pub shown: String,
}

/// Why the arguments cannot be used.
#[derive(Debug)]
pub enum ArgsError {
    /// There is nothing to graph.
    NoTarget,
    /// The bottom of the Y axis is below zero or not finite. Holds the number that was given.
    YMin(String),
    /// The top of the Y axis is not above zero or not finite. Holds the number that was given.
    YMax(String),
    /// The bottom of the Y axis is not below its top.
    Order,
}

impl ArgsError {
    /// The message that goes with the error.
    pub open spec fn text(&self) -> Seq<char> {
        match self {
            ArgsError::NoTarget =>
                "At least one host or command must be given (i.e gping google.com). Use --help for a full list of arguments."@,
            ArgsError::YMin(shown) => "--ymin must be a positive number, got "@ + shown@,
            ArgsError::YMax(shown) => "--ymax must be a positive number, got "@ + shown@,
            ArgsError::Order => "--ymin must be lower than --ymax"@,
        }
    }

    /// The message that goes with the error.
    pub fn message(&self) -> (message: String)
        ensures
            message@ == self.text(),
    {
        match self {
            ArgsError::NoTarget =>
                "At least one host or command must be given (i.e gping google.com). Use --help for a full list of arguments.".to_owned(),
            ArgsError::YMin(shown) => {
                let mut message: String = "--ymin must be a positive number, got ".to_owned();
                message.append(shown.as_str());
                message
            },
            ArgsError::YMax(shown) => {
                let mut message: String = "--ymax must be a positive number, got ".to_owned();
                message.append(shown.as_str());
                message
            },
            ArgsError::Order => "--ymin must be lower than --ymax".to_owned(),
        }
    }
}

/// The level that a flag stands for, if it is given.
pub open spec fn flag_level(flag: Option<Flag>) -> Option<Signed> {
    match flag {
        Some(f) => f.level,
        None => None,
    }
}

/// A flag that is finite stands for a number in double precision.
pub open spec fn flag_in_range(flag: Option<Flag>) -> bool {
    can_be_fixed(flag_level(flag))
}

/// The number can be the bottom of the Y axis: it is finite and not negative.
pub open spec fn good_bottom(flag: Option<Flag>) -> bool {
    flag matches Some(f) ==> f.level matches Some(level) && level.units() >= 0
}

/// The number can be the top of the Y axis: it is finite and positive.
pub open spec fn good_top(flag: Option<Flag>) -> bool {
    flag matches Some(f) ==> f.level matches Some(level) && level.units() > 0
}

/// The bottom is below the top, where both are given.
pub open spec fn good_order(y_min: Option<Flag>, y_max: Option<Flag>) -> bool {
    flag_level(y_min) matches Some(min) ==> flag_level(y_max) matches Some(max) ==> min.units()
        < max.units()
}

/// The ends of the Y axis that are fixed, if the arguments can be used: there has to be at least one
/// host or command, a bottom that is not negative, a top that is positive, and the bottom has to be
/// below the top. The first of these that does not hold is the error.
pub fn check_args(targets: usize, y_min: &Option<Flag>, y_max: &Option<Flag>) -> (ends: Result<
    (Option<Signed>, Option<Signed>),
    ArgsError,
>)
    requires
        flag_in_range(*y_min),
        flag_in_range(*y_max),
    ensures
        match ends {
            Ok((min, max)) => {
                &&& targets > 0 && good_bottom(*y_min) && good_top(*y_max) && good_order(
                    *y_min,
                    *y_max,
                )
                &&& min == flag_level(*y_min)
                &&& max == flag_level(*y_max)
            },
            Err(ArgsError::NoTarget) => targets == 0,
            Err(ArgsError::YMin(shown)) => {
                &&& targets > 0 && !good_bottom(*y_min)
                &&& y_min matches Some(f) && f.shown@ == shown@
            },
            Err(ArgsError::YMax(shown)) => {
                &&& targets > 0 && good_bottom(*y_min) && !good_top(*y_max)
                &&& y_max matches Some(f) && f.shown@ == shown@
            },
            Err(ArgsError::Order) => targets > 0 && good_bottom(*y_min) && good_top(*y_max)
                && !good_order(*y_min, *y_max),
        },
{
    if targets == 0 {
        return Err(ArgsError::NoTarget);
    }
    let min: Option<Signed> = match y_min {
        None => None,
        Some(f) => {
            let good: bool = match f.level {
                Some(level) => {
                    proof {
                        lemma_signed_of_units(level);
                    }
                    !level.negative
                },
                None => false,
            };
            if !good {
                return Err(ArgsError::YMin(f.shown.clone()));
            }
            f.level
        },
    };
    let max: Option<Signed> = match y_max {
        None => None,
        Some(f) => {
            let good: bool = match f.level {
                Some(level) => {
                    let zero: Signed = Signed::of(Double::of_whole(0));
                    proof {
                        lemma_whole_exact(0);
                        assert(0 * one() == 0);
                    }
                    zero.less_than(level)
                },
                None => false,
            };
            if !good {
                return Err(ArgsError::YMax(f.shown.clone()));
            }
            f.level
        },
    };
    if let Some(bottom) = min {
        if let Some(top) = max {
            if !bottom.less_than(top) {
                return Err(ArgsError::Order);
            }
        }
    }
    Ok((min, max))
}

/// Ends of the Y axis that come out of the arguments, one or both, are in order for whatever is
/// sampled, so that points can be clamped to the axis.
pub proof fn law_checked_ends_are_in_order(
    y_min: Option<Flag>,
    y_max: Option<Flag>,
    values: Seq<u128>,
)
    requires
        good_bottom(y_min),
        good_top(y_max),
        good_order(y_min, y_max),
        flag_in_range(y_min),
        flag_in_range(y_max),
        y_min is Some || y_max is Some,
    ensures
        y_bounds(values, flag_level(y_min), flag_level(y_max)).ordered(),
{
    law_fixed_axis_can_clamp(values, flag_level(y_min), flag_level(y_max));
}

}
