//! Matra and akshara counts over the current syntax tree, with calls resolved by the
//! index of their definition among the root's children.
pub mod aks;
pub mod mat;
