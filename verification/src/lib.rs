//! Calendar arithmetic and the date logic of a compound-growth calculator.

pub mod calendar;
pub mod datetime;
pub mod compounder;
pub mod mainview;
