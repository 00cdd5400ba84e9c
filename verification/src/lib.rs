//! Median-cut color quantization for RGBA images.
//!
//! The library reduces an image, given as tightly packed 4-byte RGBA pixels,
//! to a palette of at most a requested number of colors, then remaps every
//! pixel to its palette color while copying the alpha byte unchanged.

pub mod bucket;
pub mod color;
pub mod palette;
pub mod partition;
pub mod quantize;

pub use bucket::Bucket;
pub use bucket::Channel;
pub use bucket::get_total_and_greatest_range_channel;
pub use color::Colors;
pub use color::calculate_count;
pub use palette::average_color;
pub use palette::build_palette;
pub use palette::remap_image;
pub use partition::fact;
pub use quantize::QuantizeError;
pub use quantize::reduce;
