//! A fixed-width unsigned big integer stored as 256 base-256 digits,
//! with decimal-string arithmetic used to render and parse it, and a
//! small primality test over machine integers.

pub mod digits;
pub mod decimal;
pub mod large_number;
pub mod prime;
