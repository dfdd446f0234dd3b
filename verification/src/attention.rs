//! Causal multi-head attention over a fused query/key/value input, and its
//! gradient.
//!
//! The input is `[batch, time, 3 * chan]`: in a row the first `chan` entries
//! are the query, the next the key, the last the value, each split into
//! `heads` heads of `hs = chan / heads` entries. Scores and probabilities are
//! `[batch, heads, time, time]`; the output is `[batch, time, chan]`.
pub mod backward;
pub mod forward;
pub mod index;

pub use backward::{
    attention_backward, attention_head_backward_input, attention_head_backward_scores,
};
pub use forward::{attention_forward, attention_head};
