//! The rules by which the `eth_` transaction methods find, describe and
//! submit transactions. The node around them reads the pool and the
//! database, signs and sends; what is decided in between is decided here.

pub mod lookup;
pub mod search;
pub mod submit;
pub mod types;
