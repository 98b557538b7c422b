//! Fractional cascading: answering one key against many sorted catalogs at the cost of a
//! single binary search plus constant work per further catalog.

pub mod bounded;
pub mod catalog;
pub mod fractional_cascading;
pub mod level;
pub mod node;
pub mod order;
pub mod searcher;

pub use crate::fractional_cascading::FractionalCascading;
pub use crate::searcher::FCSearcher;
