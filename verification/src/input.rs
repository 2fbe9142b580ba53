//! The part of the status line payload that the segments read, held as
//! plain values: percentages arrive already rounded into what the line
//! shows of them.

use vstd::prelude::*;

verus! {

/// The model in use.
#[derive(Debug)]
pub struct Model {
    pub display_name: Option<String>,
}

/// The workspace the session runs in.
#[derive(Debug)]
pub struct Workspace {
    pub current_dir: Option<String>,
}

/// What the session has changed so far.
#[derive(Debug)]
pub struct Cost {
    pub total_lines_added: i64,
    pub total_lines_removed: i64,
}

/// The tokens of the last request.
#[derive(Debug)]
pub struct CurrentUsage {
    pub input_tokens: i64,
    pub cache_creation_input_tokens: i64,
    pub cache_read_input_tokens: i64,
}

/// A percentage as the line shows it: its text rounded to a whole number,
/// and how many cells it fills of the context bar and of a usage bar.
#[derive(Debug)]
pub struct Percent {
    pub shown: String,
    pub context_cells: usize,
    pub usage_cells: usize,
}

/// The context window: how much of it is used, where that is known.
#[derive(Debug)]
pub struct ContextWindow {
    pub used: Option<Percent>,
}

/// One rate-limit window: how much of it is used, and when it resets (in
/// seconds since the epoch).
#[derive(Debug)]
pub struct RateLimitWindow {
    pub used_percentage: Option<Percent>,
    pub resets_at: Option<i64>,
}

/// The five-hour and seven-day rate limits.
#[derive(Debug)]
pub struct RateLimits {
    pub five_hour: Option<RateLimitWindow>,
    pub seven_day: Option<RateLimitWindow>,
}

/// The status line payload.
#[derive(Debug)]
pub struct Payload {
    pub cwd: Option<String>,
    pub model: Option<Model>,
    pub workspace: Option<Workspace>,
    pub cost: Option<Cost>,
    pub context_window: Option<ContextWindow>,
    pub rate_limits: Option<RateLimits>,
}

/// The sum of the input tokens of a request: fresh, written to the cache,
/// read from the cache.
pub open spec fn input_sum(u: CurrentUsage) -> int {
    u.input_tokens + u.cache_creation_input_tokens + u.cache_read_input_tokens
}

impl CurrentUsage {
    /// All input tokens of the request.
    pub fn input_total(&self) -> (t: i64)
        requires
            i64::MIN <= self.input_tokens + self.cache_creation_input_tokens <= i64::MAX,
            i64::MIN <= input_sum(*self) <= i64::MAX,
        ensures
            t == input_sum(*self),
    {
        self.input_tokens + self.cache_creation_input_tokens + self.cache_read_input_tokens
    }
}

/// What the context share is computed from when the payload does not give
/// it: the input tokens over a window size above zero.
pub open spec fn usage_basis(usage: Option<CurrentUsage>, size: Option<i64>) -> Option<(i64, i64)> {
    match (usage, size) {
        (Some(u), Some(s)) => if s > 0 {
            Some((input_sum(u) as i64, s))
        } else {
            None
        },
        _ => None,
    }
}

/// The usage behind an optional reference.
pub open spec fn usage_of(usage: Option<&CurrentUsage>) -> Option<CurrentUsage> {
    match usage {
        Some(u) => Some(*u),
        None => None,
    }
}

/// The sum of the input tokens does not overflow.
pub open spec fn usage_sums_fit(usage: Option<CurrentUsage>) -> bool {
    usage matches Some(u) ==> {
        &&& i64::MIN <= u.input_tokens + u.cache_creation_input_tokens <= i64::MAX
        &&& i64::MIN <= input_sum(u) <= i64::MAX
    }
}

/// The input tokens and the window size that the context share is
/// computed from: `None` without usage, without a size, or with a size
/// of zero or less.
pub fn usage_ratio(usage: Option<&CurrentUsage>, size: Option<i64>) -> (r: Option<(i64, i64)>)
    requires
        size matches Some(s) && s > 0 ==> usage_sums_fit(usage_of(usage)),
    ensures
        r == usage_basis(usage_of(usage), size),
{
    match (usage, size) {
        (Some(u), Some(s)) => if s > 0 {
            Some((u.input_total(), s))
        } else {
            None
        },
        _ => None,
    }
}

} // verus!
