//! Actions that update one field of an asset.

pub mod symbol;
