//! A toroidal stable-fluid grid: diffusion by Gauss-Seidel relaxation and
//! semi-Lagrangian advection of density, on Q16.16 fixed-point values.
pub mod fixed;
pub mod grid;
pub mod diffusion;
pub mod advection;
pub mod simulation;
