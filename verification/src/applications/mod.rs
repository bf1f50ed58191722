//! What the protocols are put to use for.

pub mod commitments;
