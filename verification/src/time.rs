//! Crafting durations: conversion between a plain count of seconds and a
//! decomposed weeks/days/hours/minutes/seconds structure.
//!
//! Decomposition extracts a unit only when the value is *strictly greater*
//! than one whole unit, so a value exactly equal to a unit boundary (say
//! 3600 seconds) is expressed in the next smaller unit (60 minutes). This
//! boundary behaviour is deliberate and preserved; composition is exact
//! either way.

use vstd::prelude::*;
use vstd::arithmetic::div_mod::lemma_remainder_lower;

verus! {

pub const SECS_PER_MINUTE: u64 = 60;
pub const SECS_PER_HOUR: u64 = SECS_PER_MINUTE * 60;
pub const SECS_PER_DAY: u64 = SECS_PER_HOUR * 24;
pub const SECS_PER_WEEK: u64 = SECS_PER_DAY * 7;

/// A duration decomposed into optional unit fields; a field is present only
/// when its value is non-zero.
#[derive(Clone, Copy, Debug)]
pub struct CraftingTime {
    pub weeks: Option<u64>,
    pub days: Option<u64>,
    pub hours: Option<u64>,
    pub minutes: Option<u64>,
    pub seconds: Option<u64>,
}

/// The value of an optional field; absent contributes zero.
pub open spec fn opt_val(o: Option<u64>) -> int {
    match o {
        Some(v) => v as int,
        None => 0,
    }
}

/// Decomposition of a second count, extracting each unit only when the
/// remainder is strictly greater than one whole unit.
pub open spec fn spec_from_secs(secs: u64) -> CraftingTime {
    let s0 = secs as int;
    let weeks = if s0 > SECS_PER_WEEK {
        Some((s0 / (SECS_PER_WEEK as int)) as u64)
    } else {
        None
    };
    let s1 = if s0 > SECS_PER_WEEK {
        s0 - (s0 / (SECS_PER_WEEK as int)) * SECS_PER_WEEK
    } else {
        s0
    };
    let days = if s1 > SECS_PER_DAY {
        Some((s1 / (SECS_PER_DAY as int)) as u64)
    } else {
        None
    };
    let s2 = if s1 > SECS_PER_DAY {
        s1 - (s1 / (SECS_PER_DAY as int)) * SECS_PER_DAY
    } else {
        s1
    };
    let hours = if s2 > SECS_PER_HOUR {
        Some((s2 / (SECS_PER_HOUR as int)) as u64)
    } else {
        None
    };
    let s3 = if s2 > SECS_PER_HOUR {
        s2 - (s2 / (SECS_PER_HOUR as int)) * SECS_PER_HOUR
    } else {
        s2
    };
    let minutes = if s3 > SECS_PER_MINUTE {
        Some((s3 / (SECS_PER_MINUTE as int)) as u64)
    } else {
        None
    };
    let s4 = if s3 > SECS_PER_MINUTE {
        s3 - (s3 / (SECS_PER_MINUTE as int)) * SECS_PER_MINUTE
    } else {
        s3
    };
    let seconds = if s4 > 0 {
        Some(s4 as u64)
    } else {
        None
    };
    CraftingTime { weeks, days, hours, minutes, seconds }
}

/// Composition: each present field times its unit size, summed.
pub open spec fn spec_to_secs(t: CraftingTime) -> int {
    opt_val(t.weeks) * SECS_PER_WEEK + opt_val(t.days) * SECS_PER_DAY + opt_val(t.hours)
        * SECS_PER_HOUR + opt_val(t.minutes) * SECS_PER_MINUTE + opt_val(t.seconds)
}

impl CraftingTime {
    /// Decompose a second count into units, largest first, each extracted
    /// only when the running remainder strictly exceeds one whole unit.
    pub fn from_secs(secs: u64) -> (t: CraftingTime)
        ensures
            t == spec_from_secs(secs),
    {
        let mut secs = secs;
        let weeks = if secs > SECS_PER_WEEK {
            let result = secs / SECS_PER_WEEK;
            proof {
                lemma_remainder_lower(secs as int, SECS_PER_WEEK as int);
            }
            secs = secs - result * SECS_PER_WEEK;
            Some(result)
        } else {
            None
        };

        let days = if secs > SECS_PER_DAY {
            let result = secs / SECS_PER_DAY;
            proof {
                lemma_remainder_lower(secs as int, SECS_PER_DAY as int);
            }
            secs = secs - result * SECS_PER_DAY;
            Some(result)
        } else {
            None
        };

        let hours = if secs > SECS_PER_HOUR {
            let result = secs / SECS_PER_HOUR;
            proof {
                lemma_remainder_lower(secs as int, SECS_PER_HOUR as int);
            }
            secs = secs - result * SECS_PER_HOUR;
            Some(result)
        } else {
            None
        };

        let minutes = if secs > SECS_PER_MINUTE {
            let result = secs / SECS_PER_MINUTE;
            proof {
                lemma_remainder_lower(secs as int, SECS_PER_MINUTE as int);
            }
            secs = secs - result * SECS_PER_MINUTE;
            Some(result)
        } else {
            None
        };

        let seconds = if secs > 0 {
            Some(secs)
        } else {
            None
        };

        CraftingTime { weeks, days, hours, minutes, seconds }
    }

    /// Compose into seconds, reporting when the total would not fit in a
    /// `u64` second count.
    pub fn checked_to_secs(&self) -> (r: Option<u64>)
        ensures
            match r {
                Some(v) => v == spec_to_secs(*self) && spec_to_secs(*self) <= u64::MAX,
                None => spec_to_secs(*self) > u64::MAX,
            },
    {
        let w = match self.weeks { Some(v) => v, None => 0 };
        let d = match self.days { Some(v) => v, None => 0 };
        let h = match self.hours { Some(v) => v, None => 0 };
        let m = match self.minutes { Some(v) => v, None => 0 };
        let s = match self.seconds { Some(v) => v, None => 0 };
        proof {
            assert((w as int) * (SECS_PER_WEEK as int) <= (u64::MAX as int) * (SECS_PER_WEEK
                as int)) by (nonlinear_arith)
                requires w <= u64::MAX;
            assert((d as int) * (SECS_PER_DAY as int) <= (u64::MAX as int) * (SECS_PER_DAY as int))
                by (nonlinear_arith)
                requires d <= u64::MAX;
            assert((h as int) * (SECS_PER_HOUR as int) <= (u64::MAX as int) * (SECS_PER_HOUR
                as int)) by (nonlinear_arith)
                requires h <= u64::MAX;
            assert((m as int) * (SECS_PER_MINUTE as int) <= (u64::MAX as int) * (SECS_PER_MINUTE
                as int)) by (nonlinear_arith)
                requires m <= u64::MAX;
        }
        let total: u128 = (w as u128) * (SECS_PER_WEEK as u128) + (d as u128) * (SECS_PER_DAY
            as u128) + (h as u128) * (SECS_PER_HOUR as u128) + (m as u128) * (SECS_PER_MINUTE
            as u128) + (s as u128);
        if total <= u64::MAX as u128 {
            Some(total as u64)
        } else {
            None
        }
    }

    /// Compose the duration back into seconds.
    pub fn to_secs(&self) -> (r: u64)
        requires
            spec_to_secs(*self) <= u64::MAX,
        ensures
            r == spec_to_secs(*self),
    {
        let mut time: u64 = self.weeks.unwrap_or(0) * SECS_PER_WEEK;
        time = time + self.days.unwrap_or(0) * SECS_PER_DAY;
        time = time + self.hours.unwrap_or(0) * SECS_PER_HOUR;
        time = time + self.minutes.unwrap_or(0) * SECS_PER_MINUTE;
        time = time + self.seconds.unwrap_or(0);
        time
    }
}

/// Round-trip law: composing a decomposed second count reproduces the
/// original value exactly, for every `u64` count, including values exactly
/// on a unit boundary and zero.
pub proof fn lemma_duration_round_trip(s: u64)
    ensures
        spec_to_secs(spec_from_secs(s)) == s,
{
}

} // verus!
