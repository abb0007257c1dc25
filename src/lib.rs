//! Exact-arithmetic kernel for cubic and generic-degree Bézier curves: vector
//! and matrix algebra over integers, curve evaluation at rational parameters,
//! derivatives, control-polygon ordering and offset feasibility checks.
pub mod bernstein;
pub mod bezier;
pub mod bezier3;
pub mod cubic;
pub mod error;
pub mod hull;
pub mod matrix;
pub mod matrix2x2;
pub mod solvers;
pub mod sums;
pub mod vec2;
pub mod vector;
