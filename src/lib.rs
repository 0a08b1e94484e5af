//! Verified bookkeeping of a continuous complex wavelet transform: the sizes of
//! a session's buffers, the zero-padded input, the order in which a query folds
//! a filtered spectrum onto a shorter one, and the unpadded, interleaved output.

pub mod buffers;
pub mod fold;
pub mod layout;

pub use buffers::{emit_interleaved, pad_input};
pub use fold::{fold_schedule, FoldStep};
pub use layout::{CcwtError, SessionLayout};
