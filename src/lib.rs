//! Playback timing and object reconciliation for a viewer of particle trajectories.
//!
//! A trajectory is a sequence of frames, each a list of labelled objects. The
//! [`Timer`] turns calls from a render loop into the index of the frame on show, the
//! [`ObjectTracker`] works out which rendered objects to create, update or remove
//! when the frame changes, the [`Palette`] gives each label a stable color, and
//! [`Playback`] ties them together for a viewer window.
pub mod objects;
pub mod palette;
pub mod timer;
pub mod viewer;

pub use objects::{Change, ObjectID, ObjectTracker};
pub use palette::{Color, Palette, PartialIDer};
pub use timer::Timer;
pub use viewer::{Command, Playback};
