//! Counting the matras and aksharas of a program.
pub mod aks;
pub mod mat;
