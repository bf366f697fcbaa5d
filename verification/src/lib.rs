//! A pull-driven engine for generative ambient soundscapes.
//!
//! Short audio clips are chosen by a two-stage uniform random walk over a
//! directed multigraph of clip-group labels.  Each clip plays as a stream of
//! decoded sample packets; a clip may carry a splice point that truncates it
//! for the listener while its unplayed remainder keeps playing as an
//! independent background layer.  A player sequences the walk's clips into one
//! continuous stream, and a mixer advances a growable pool of such streams in
//! lock step, accumulating their samples into a shared buffer.

pub mod builders;
pub mod digraph;
pub mod error;
pub mod mixer;
pub mod player;
mod rng;
pub mod stream;
pub mod track;
