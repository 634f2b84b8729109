//! A small board of pickable pieces: slot bookkeeping, placement arithmetic in
//! fixed-point world units, and the walk that marks mesh nodes of a freshly
//! spawned scene as pickable.

pub mod board;
pub mod scene;
pub mod placement;
