//! Reversible transformation between a binary payload and a fixed 512 x 512
//! dual-plane canvas with a sparse per-cell step marker set, serialized to a
//! self-describing binary container.

pub mod bytes;
pub mod canvas;
pub mod codec;
pub mod errors;
pub mod index;
pub mod marks;
pub mod markers;
pub mod params;
pub mod sums;
pub mod transform;
pub mod wire;

pub use canvas::RGCanvas;
pub use codec::{raw_pack, raw_unpack};
pub use errors::CodecError;
pub use index::build_step_index_from_a;
pub use transform::{decode_fill, encode_erase};
pub use markers::ABitset;
pub use params::{lane_k, pidx_of, MAX_PAYLOAD, PIXELS, RG_LIMIT_EXACT, H, W};
