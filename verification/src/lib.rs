//! Turns photos and videos into abstract moods of drifting orbs.
//!
//! A picture is taken apart into a few colours ([`cluster`]). The heaviest becomes the
//! background, the others become orbs ([`scene`]), which are written as SVG or CSS
//! ([`style`]) or packed into the words that a shader draws ([`animate`], [`gpu`],
//! [`shader`]), with colours and places that can follow a video ([`video_input`],
//! [`color_track`], [`keyframe_track`]). Orbs are discs, glyphs or silhouettes, the last two
//! as distance fields ([`glyph`], [`distance`]).
//!
//! Numbers are IEEE numbers by their patterns, and their arithmetic is proved
//! ([`binary32`], [`binary64`]).
//!
//! What each part promises of all its inputs, and how the parts fit together, is stated and
//! proved in the modules whose names end in `_laws`.

pub mod animate;
pub mod batch;
pub mod binary32;
pub mod binary32_laws;
pub mod binary64;
pub mod blur_laws;
pub mod choice_laws;
pub mod cli;
pub mod cluster;
pub mod cluster_laws;
pub mod color_track;
pub mod distance;
pub mod document_laws;
pub mod draws;
pub mod drift_laws;
pub mod falloff_laws;
pub mod field_laws;
pub mod fitting_laws;
pub mod fixed;
pub mod frame_laws;
pub mod glyph;
pub mod glyph_laws;
pub mod gpu;
pub mod integers;
pub mod keyframe_track;
pub mod lab;
pub mod luma_laws;
pub mod matching;
pub mod nearness;
pub mod orb;
pub mod order_laws;
pub mod output_mode;
pub mod picture;
pub mod placing_laws;
pub mod reach_laws;
pub mod rounding;
pub mod row_laws;
pub mod scaling;
pub mod scene;
pub mod settings_laws;
pub mod shader;
pub mod shares;
pub mod size_laws;
pub mod style;
pub mod style_laws;
pub mod text;
pub mod time_laws;
pub mod variation_run;
pub mod variations;
pub mod video;
pub mod video_input;
pub mod wandering_laws;
pub mod wgsl;
