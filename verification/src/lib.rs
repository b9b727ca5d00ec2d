//! Verified conversion capsules: audio container rewrites, text transcoding
//! and raster codecs, each a pure function from input bytes to output bytes.
pub mod adapter_options;
pub mod aiff_pcm_to_wav_pcm;
pub mod arith;
pub mod bmp_to_png;
pub mod bytes;
pub mod caf_pcm_to_wave64_pcm;
pub mod capsule_template;
pub mod checksum;
pub mod extended;
pub mod gif_render;
pub mod ieee;
pub mod inflate;
pub mod kernel;
pub mod legacy_native;
pub mod option_text;
pub mod pcm;
pub mod png_codec;
pub mod png_filter;
pub mod png_to_qoi;
pub mod protocol;
pub mod raster_glue;
pub mod raw_pcm_to_wav_pcm;
pub mod raw_pcm_trim;
pub mod text;
pub mod utf16_to_utf8;
pub mod validate_ico;
pub mod validate_png;
pub mod wav_pcm_to_aiff;
pub mod wav_pcm_to_raw_pcm;
