//! Products of several sequences.

pub mod multi_product;
pub mod multi_product_ref;
