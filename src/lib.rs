//! Divisor enumeration by trial division, with a choice of output order.
pub mod math_utils;
