//! What the routes of the service decide before and after they reach the
//! scheduler.

pub mod tasks;
pub mod params;
