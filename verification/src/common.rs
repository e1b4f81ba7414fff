//! Types shared by every layer: keys and values, error kinds, the order on
//! byte strings that indexes are sorted by, and decimal text.

pub mod decimal;
pub mod errors;
pub mod key_order;
pub mod keyvalue;
pub mod paths;
pub mod secret;
