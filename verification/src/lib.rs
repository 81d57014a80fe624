//! Multiplication of dense matrices over the field with two elements:
//! `C += A * B` for bit-packed matrices, by the Method of Four Russians and,
//! for large operands, by a cascade of Strassen decompositions above it.
pub mod algebra;
pub mod checked;
pub mod decomp;
pub mod entropy;
pub mod equality;
pub mod gf2mat;
pub mod gray;
pub mod laws;
pub mod layout;
pub mod m4rm;
pub mod mul;
pub mod storage;

pub use gf2mat::{
    xor_aligned_slices, xor_aligned_slices_to, AlignedGF2Mat, GF2Mat, GF2MatLike, GF2MatLikeMut,
    GF2MatWindow, GF2MatWindowMut, MatAccessError, MatAddError, MatMulError,
};
pub use gray::{gray_decode, gray_encode, inc_index};
pub use m4rm::{addmul_m4rm, tabulate_m4rm};
pub use mul::{addmul, addmul_recurse, AddMulAlgo};
