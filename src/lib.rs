//! Hourly median filtering and daily minimum reduction of cloud-ceiling
//! measurements, with nested threshold counts over the resulting days.

pub mod stamp;
pub mod aggregate;
pub mod median;
pub mod record;
pub mod summary;
