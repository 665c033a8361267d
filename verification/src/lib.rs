//! Pixel-morphing core: a stochastic local-search solver that rearranges the
//! pixels of a source image so that their layout resembles a target image,
//! and a frame synthesizer that renders the intermediate frames of the morph
//! over exact fixed-point arithmetic.

pub mod cost;
pub mod rng;
pub mod solver;
pub mod render;
pub mod anim;

pub use cost::calculate_heuristic;
pub use cost::Pixel;
pub use solver::calculate_assignments;
pub use render::generate_interpolated_frame;
pub use anim::render_animation;
