//! Search for a salted nonce whose SHA-1 digest shares its short prefix with
//! an identifier that already exists in a revision history.

pub mod hex;
pub mod decimal;
pub mod digest;
pub mod prefix_index;
pub mod preimage;
pub mod search;
