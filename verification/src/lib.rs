//! Extraction of code cells from literate documents and resolution of
//! their execution order.

pub mod cell;
pub mod error;
pub mod extract;
pub mod graph;
pub mod litpro;
pub mod render;
pub mod resolve;
pub mod text;

pub use cell::Cell;
pub use error::LitProError;
pub use graph::DependencyGraph;
pub use litpro::LitPro;
