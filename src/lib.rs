//! Per-window stacks of cursor locations ("jump points") for BBEdit.
//!
//! Each editor window, identified by its process id, owns a LIFO stack of
//! points. Stacks are pruned of points older than a cutoff, and a window's
//! entry disappears as soon as its stack is empty.

pub mod lsappinfo;
pub mod point;
pub mod points_map;
pub mod timestamp;

pub use lsappinfo::{front_asn_from, pid_from_info};
pub use point::{JumpPoint, PointView};
pub use points_map::PointsMap;
pub use timestamp::Timestamp;
