//! A streamed, chunked 2-D world with a navigation-grid overlay.
//!
//! The world is cut into square chunks that are loaded around a moving
//! viewpoint and evicted when they fall out of range; a separate grid keeps
//! the passability of each cell for path-finding agents.

pub mod coords;
pub mod interest;
pub mod terrain;
pub mod cache;
pub mod nav;
pub mod agents;
