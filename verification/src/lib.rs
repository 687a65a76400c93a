//! A codec for lossy still pictures: VP8 key frames in a RIFF container.
//!
//! Everything is stated as mathematics over sequences of symbols, blocks and tiles, and
//! the executable code is proved to compute just that.
//!
//! - The boolean entropy coder: [`coder`] (its model), [`bool_enc`], [`bool_dec`].
//! - What a frame says: [`frame_header`], [`header`], [`enc_header`], [`mb`] (modes),
//!   [`tokens`] and [`token`] (residuals), with the laws that reading inverts writing
//!   ([`token_laws`], [`table_laws`]).
//! - Reconstruction: [`predict`], [`idct`], [`recon_block`], [`reconstruct`],
//!   [`loop_filter`], [`yuv`]; a frame as a grid of [`tiles`] with its [`scratch`] columns;
//!   decoding in [`decode`] and [`frame_read`].
//! - Encoding: [`rgb_to_yuv`] and [`sharp_yuv`], [`fdct`], [`quant`], [`trellis`],
//!   [`residual`], [`perceptual`], the mode searches ([`mode_search`], [`i4_search`]),
//!   planning ([`plan`], [`planning`], [`wavefront`]), [`segment`], [`prob_opt`],
//!   [`filter_choice`], [`emit`], and the whole frame in [`frame`].
//! - Files and rate control: [`container`], [`encoder`], [`rate`], with the knobs in
//!   [`effort`] and [`tuning`].
//!
//! The main laws: decoding yields the encoder's own reconstruction ([`roundtrip`], from
//! [`coeff_laws`] and [`margin`]); encoding and decoding are functions ([`unique`]); the
//! rate-distortion search is optimal ([`trellis_laws`]); the fastest effort ignores the
//! knobs of the searches ([`knobs`]); segments follow the order of activities
//! ([`segment_laws`]); counting leaves the large-value nodes alone ([`count_laws`]); PSNR is
//! symmetric, and a rate search encodes few qualities, none twice ([`rate_laws`]).
//!
//! What each stage does to its samples, bytes and symbols is said by laws of its own: pixels
//! and planes ([`colour_laws`]), transforms ([`transform_laws`]), predictors
//! ([`predict_laws`]), reconstruction ([`recon_laws`]), the loop filter ([`filter_laws`],
//! [`deblock_laws`], [`inner_edge_laws`]), quantization and settings ([`quant_laws`]), the
//! committed scales and probabilities ([`scale_laws`], [`proba_laws`]), headers and files
//! ([`header_laws`], [`header_read_laws`]), the entropy coder ([`coder_laws`]), modes and
//! levels ([`syntax_laws`], [`context_laws`]), the encoder's choices ([`choice_laws`],
//! [`search_laws`]), small operations ([`plane_laws`]), and PSNR ([`log_laws`]).

pub mod arith;
pub mod block;
pub mod bool_dec;
pub mod bool_enc;
pub mod choice_laws;
pub mod coder;
pub mod coder_laws;
pub mod coeff_laws;
pub mod constants;
pub mod colour_laws;
pub mod container;
pub mod context_laws;
pub mod count_laws;
pub mod deblock_laws;
pub mod decode;
pub mod effort;
pub mod emit;
pub mod enc_header;
pub mod encoder;
pub mod error;
pub mod fdct;
pub mod filter_choice;
pub mod filter_laws;
pub mod frame;
pub mod frame_header;
pub mod frame_read;
pub mod header;
pub mod header_laws;
pub mod header_read_laws;
pub mod i4_search;
pub mod idct;
pub mod image;
pub mod inner_edge_laws;
pub mod knobs;
pub mod log_laws;
pub mod loop_filter;
pub mod margin;
pub mod mb;
pub mod mode_search;
pub mod perceptual;
pub mod plan;
pub mod plane_laws;
pub mod planning;
pub mod predict;
pub mod predict_laws;
pub mod proba_laws;
pub mod proba_tables;
pub mod prob_opt;
pub mod quant;
pub mod quant_laws;
pub mod rate;
pub mod rate_laws;
pub mod recon_block;
pub mod recon_laws;
pub mod reconstruct;
pub mod residual;
pub mod rgb_to_yuv;
pub mod roundtrip;
pub mod scale_laws;
pub mod scratch;
pub mod search_laws;
pub mod segment;
pub mod segment_laws;
pub mod sharp_yuv;
pub mod syntax_laws;
pub mod table_laws;
pub mod tiles;
pub mod token;
pub mod token_laws;
pub mod tokens;
pub mod transform_laws;
pub mod trellis;
pub mod trellis_laws;
pub mod tuning;
pub mod unique;
pub mod wavefront;
pub mod yuv;
