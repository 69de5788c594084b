//! Integer core of a Monte-Carlo path tracer: the integrator's termination
//! policy, the per-pixel work schedule with its result buffer, and a seedable
//! random stream for hemisphere sampling.

pub mod integrator;
pub mod sampler;
pub mod schedule;
