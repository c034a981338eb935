//! # Soft Policies
//!
//! Soft policies are expressed as cost functions, the smaller the result fo the cost functions, the
//! better is the solution which is found. This module holds what the policies count; the costs
//! themselves are fractions of these counts.
pub mod minimize_traffic_shift;

pub use minimize_traffic_shift::MinimizeTrafficShift;
