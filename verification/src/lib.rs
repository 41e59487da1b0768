//! The verified core of an auto-tuner for a batched half-precision matrix
//! product on OpenCL devices: test matrices, a reference product, the Q4_K
//! block format of the quantised operand, the choice of a device, the space of
//! kernel configurations and the course of one measured run.
pub mod device;
pub mod layout;
pub mod matrix;
pub mod matrix_accuracy;
pub mod matrix_laws;
pub mod number;
pub mod problem;
pub mod problem_laws;
pub mod q4k;
pub mod quantize;
pub mod quantize_accuracy;
pub mod quantize_laws;
pub mod reading;
pub mod rounding;
pub mod session;
pub mod session_laws;
pub mod text;
pub mod tuning;
