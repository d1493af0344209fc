//! Post-processing of benchmark-result documents: timing fields are rescaled
//! by 10^8 and truncated toward zero to five decimal places, exactly, on
//! decimal values read from the JSON number literals.
pub mod digits;
pub mod decimal;
pub mod literal;
pub mod bench;
pub mod cli;
