//! Fixed-width identifiers for a peer-to-peer overlay, and the nodes that
//! carry them.
//!
//! Every node and every stored item of the overlay is addressed by a point of
//! one ordered identifier space. [`GUID`] is such a point: an unsigned integer
//! of 160 bits with saturating arithmetic, construction from bytes in either
//! byte order, from unsigned integers and from hexadecimal text, and canonical
//! hexadecimal and binary text forms. A [`Node`] derives its identifier from
//! its name by a salted hash.
//!
//! What each function returns is stated over the number that an identifier
//! stands for, `guid@`. The modules:
//!
//! - [`numeric`]: positional notation in any base, with its lemmas;
//! - [`carry`]: addition and subtraction of single words with a carry;
//! - [`guid`]: the identifier type, its least and greatest values;
//! - [`bytes`]: identifiers from bytes and from unsigned integers;
//! - [`arith`]: saturating sums and differences, and the operators;
//! - [`order`]: equality and order;
//! - [`radix`]: hexadecimal and binary text;
//! - [`hex`]: identifiers from hexadecimal text;
//! - [`error`]: the errors of reading text;
//! - [`hash`]: the derivation of an identifier from a salt and a name;
//! - [`table`]: the tables of a node;
//! - [`node`]: the nodes;
//! - [`laws`]: what holds of all identifiers.

pub mod arith;
pub mod bytes;
pub mod carry;
pub mod error;
pub mod guid;
pub mod hash;
pub mod hex;
pub mod laws;
pub mod node;
pub mod numeric;
pub mod order;
pub mod radix;
pub mod table;

pub use carry::{add_carry, sub_carry};
pub use error::GuidError;
pub use guid::GUID;
pub use hash::derive_guid;
pub use node::{ConnectionStep, KBucket, Node};
