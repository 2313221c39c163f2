//! Tuning knobs of the application: tick cadences, the sub-cell
//! geometry of the sand engine, and the idle-face animation bounds.
//! The engine itself reads its geometry from the constants in
//! `engine`; these records carry the same information for the
//! surrounding application.

use vstd::prelude::*;

verus! {

/// Cadences of the main loop, in milliseconds and frames per second.
pub struct TimeSettings {
    pub tick_ms: u64,
    pub physics_ms: u64,
    pub target_fps: u64,
}

/// Geometry of the sand engine's braille packing.
pub struct SandEngineSettings {
    pub braille_base: u32,
    pub dot_height: usize,
    pub dot_width: usize,
}

/// Frame bounds of the idle-face blink animation.
pub struct BlinkSettings {
    pub interval_min_frames: i32,
    pub interval_max_frames: i32,
    pub duration_min_frames: i32,
    pub duration_max_frames: i32,
}

/// Idle-time thresholds (seconds) and the face shown for each.
pub struct FaceSettings {
    pub thresholds: Vec<usize>,
    pub faces: Vec<String>,
}

} // verus!
