//! A sparse, unbounded two-dimensional plane of colored tiles.
//!
//! Each tile is either off or carries a color label and a positive
//! intensity. A rule language describes automatic recoloring of a tile
//! from the colors of its eight neighbors; rules can be applied to a
//! single tile or, snapshot-consistently, to a whole connected region.
//! Intensities also drive region totals, directional path sums and a
//! weighted shortest-path search.

pub mod laws;
pub mod model;
pub mod order;
pub mod paths;
pub mod plane;
pub mod propagate;
pub mod region;
pub mod rules;
pub mod text;

pub use plane::Colorazione;
pub use plane::Piano;
pub use plane::Piastrella;
