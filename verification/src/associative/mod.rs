//! The associative data model: a network of doublets and its projections.

pub mod faithful;
pub mod lino;
pub mod native;
pub mod reading;
pub mod reversible;
pub mod schema;
pub mod shape;
pub mod sharing;
pub mod store;
