//! A small feed-forward neural network engine: dense layers in sequence,
//! trained by backpropagation with plain gradient descent.
//!
//! The engine is generic in its number type. Every arithmetic step goes
//! through the primitive operations of [`scalar::Scalar`], and each contract
//! states which operations produced a result, from which operands and in
//! which order.
pub mod error;
pub mod init;
pub mod layer;
pub mod loss;
pub mod network;
pub mod scalar;
pub mod vector;
