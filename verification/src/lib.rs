//! A Luby Transform fountain code: an encoder that turns a byte message into
//! an unbounded stream of droplets, and a peeling belief-propagation decoder
//! that reconstructs the message from any sufficiently large subset of them.

pub mod block;
pub mod decoder;
pub mod droplet;
pub mod encoder;
pub mod model;
pub mod prng;
pub mod soliton;
pub mod xor;
