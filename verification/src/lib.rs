//! Search for valid bit-timing register configurations of the bxcan CAN
//! controller: given a peripheral clock, a target baud rate and a requested
//! sample-point position, enumerate the prescaler values whose derived
//! timing segments fit the hardware fields and meet the accuracy thresholds.

pub mod bxcan;
pub mod laws;
