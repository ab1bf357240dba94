//! A shared pixel canvas whose cells age out after a fixed retention window.
//!
//! The canvas store keeps at most one pixel per coordinate, last write wins;
//! the reaper removes every pixel older than the retention window when the
//! scheduler wakes it, and its schedule is created at most once.

pub mod canvas;
pub mod clock;
pub mod reaper;
pub mod schedule;

pub use canvas::{set_pixel, Canvas, Pixel};
pub use schedule::{CleanupSchedule, ScheduleTable};
pub use reaper::{cleanup_old_pixels, SweepError};
