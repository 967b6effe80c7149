//! Wire-format core of a voxel-game server protocol: primitive codecs,
//! variable-length integers, bit-packed palette arrays and chunk packets.

pub mod chunk;
pub mod error;
pub mod light;
pub mod packet;
pub mod packing;
pub mod primitive;
pub mod text;
pub mod varint;
