//! MinVideo: a minimal, uncompressed video container.
//!
//! A video is one byte buffer: an eight-byte header whose bytes sum to the
//! width, an eight-byte header whose bytes sum to the height, then the frames,
//! each `width * height * 3` bytes of row-major RGB pixels.

pub mod codec;
pub mod error;
pub mod video;

pub use codec::{
    dimension_join, dimension_split, get_coords_at_idx, get_idx_at_coords, BYTES_BEFORE_FRAMES,
    VIDEO_MAX_DIMENSION, VIDEO_SIZE_BYTE_LENGTH,
};
pub use error::VideoError;
pub use video::{Frame, Video};
