//! Verified numerical core for a polynomial-commitment proof backend:
//! prime-field arithmetic, multi-scalar multiplication (MSM), the radix-2
//! number-theoretic transform (NTT/FFT), and supporting polynomial routines
//! (evaluation, Lagrange interpolation, synthetic division, vanishing
//! polynomials), together with the dispatch model for an optional external
//! accelerator.

pub mod algebra;
pub mod device;
pub mod field;
pub mod fft;
pub mod group;
pub mod interpolate;
pub mod msm;
pub mod number;
pub mod parallel;
pub mod poly;
pub mod scalar;
