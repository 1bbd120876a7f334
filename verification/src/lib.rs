//! Glyphix: pixel grids as symbols of a huge algorithmic alphabet, with a framed
//! byte codec, bit-string painting, raster/SVG/PNG rendering and layout geometry.

pub mod error;
pub mod digits;
pub mod text;
pub mod profile;
pub mod grid;
pub mod pack;
pub mod strings;
pub mod check;
pub mod ecc;
pub mod codec;
pub mod color;
pub mod layout;
pub mod render;
pub mod readback;
pub mod stream;
pub mod capacity;
pub mod args;

pub use capacity::{format_report_line, report as capacity_report, table_all_presets, CapacityReport};
pub use check::Integrity;
pub use codec::{
    capacity_bits, capacity_payload_bytes, capacity_payload_bytes_with, decode, encode, encode_with,
    glyph_count_for, glyph_count_for_with, glyphs_needed, EncodeOptions, V1_HEADER_BITS, V2_HEADER_BITS,
};
pub use color::{index_to_rgb, rgb_to_index, Rgb};
pub use ecc::Ecc;
pub use error::{GlyphixError, Result};
pub use grid::Grid;
pub use layout::{GlyphLayout, LayoutOptions, Separator};
pub use pack::{
    grid_to_bit_string, normalize_bit_string, paint_bit_string, paint_bit_string_sequence,
    paint_bit_string_sequence_with, paint_digits, paint_normalized_bits, paint_value_u128,
    parse_and_normalize_bit_string, parse_bit_string, value_u128, BitSequenceMode,
};
pub use profile::{
    bin10, bin16, bin8, c256_8, c8_8, preset, preset_ids, rgb24_8, GlyphProfile, CODEC_VERSION,
    CODEC_VERSION_V1, DEFAULT_MAX_GLYPHS,
};
pub use render::{
    decode_png, encode_png, encode_svg, glyph_pixel_size, image_dimensions, parse_rgba, png_to_rgba,
    render_rgba, render_svg, rgba_to_png, RenderOptions, RgbaImage,
};
pub use stream::{
    chunk_payload_capacity, chunks_needed, decode_chunked, encode_chunked, glyph_batches, ChunkEncoder,
};
