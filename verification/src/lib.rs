//! Dense matrix multiplication `C += A x B` by divide and conquer.
//!
//! A multiplication is described by three [`view::Window`]s into flat
//! buffers. [`matrix_adaptive::Matrix`] cuts such a problem in two across
//! the longer side of its output, or takes a chunk off its inner dimension;
//! [`driver::multiply`] cuts a problem as a [`driver::Policy`] says and runs a
//! sequential kernel on every part. [`naive_sequential::cut_in_blocks`] and
//! [`naive_sequential::mult_blocks`] partition the three matrices into grids
//! of blocks instead, and [`matrix::Matrix`] cuts a problem in four.
//!
//! Every way of cutting is proved to add exactly the product to the output
//! window and to leave the rest of the output buffer alone
//! ([`algebra::accumulated`]).

pub mod algebra;
pub mod blocks;
pub mod driver;
pub mod faster_vec;
pub mod linalg;
pub mod matrix;
pub mod matrix_adaptive;
pub mod my_ndarray;
pub mod naive_sequential;
pub mod pow2;
pub mod scalar;
pub mod split;
pub mod vectorisation;
pub mod vectorisation_packed_simd;
pub mod view;
