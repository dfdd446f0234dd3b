//! Forward and backward passes of the operators of a GPT-2 transformer, over
//! dense tensors in flat row-major buffers.
//!
//! The crate is a flat collection of stateless kernels. Each takes the buffers
//! it reads and the buffers it writes as slices, together with the extents
//! that give the slices their shape, and keeps nothing between calls. A
//! forward kernel overwrites its outputs; a backward kernel adds to its
//! gradient buffers, which the caller clears at the start of a backward pass.
//!
//! # Numbers
//!
//! The kernels are generic over the number type, a [`scalar::Scalar`]. They fix
//! which operation is applied to which operands and in which order, and leave
//! to the number type what an operation yields: a rounded arithmetic gives
//! rounded results, bit for bit the ones that the same operations give when
//! they are written out by hand.
//!
//! # Contracts
//!
//! The contract of a kernel says of every entry it writes how the entry comes
//! about from the inputs, as a relation between operands and results: an
//! output `out[i]` of the residual connection is *a result of* the addition of
//! `inp1[i]` and `inp2[i]`. Sums over rows and columns are chains of such
//! additions, in the order of the index; [`fold`] holds them. Every kernel
//! also says which entries it leaves as they are.
//!
//! # Laws
//!
//! Where the operations of the number type are functions of their operands,
//! the contract of a kernel leaves one outcome: the `lemma_*_determined`
//! proofs say so for each kernel, and for a forward kernel they say it
//! whatever the output buffers held before. Where the additions are exact,
//! running a backward kernel twice adds twice what one run adds: the
//! `lemma_*_twice` proofs.
pub mod attention;
pub mod encoder;
pub mod fold;
pub mod gelu;
pub mod layernorm;
pub mod layout;
pub mod matmul;
pub mod residual;
pub mod scalar;
pub mod softmax;
