//! A traveler's country visits: geographic shape data with a bounding-box
//! invariant, visit records over naive date-times, date display strings,
//! and a stable grouping of visits by country name or by year of arrival.

pub mod country;
pub mod date;
pub mod geometry;
pub mod grouping;
pub mod laws;
pub mod lex;
pub mod model;
