//! Monte Carlo estimation of the birthday paradox: sampling birthday sets,
//! detecting repeated birthdays and counting matching trials.

pub mod calendar;
pub mod detect;
pub mod sample;
pub mod simulate;
