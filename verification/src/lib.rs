//! A creep-score tracker for League of Legends, verified with Verus: where the
//! CS counter sits on the screen, how its crop is prepared and read, how the
//! game's configuration and live data are read, and what the tracking loops
//! decide at each step.
use vstd::prelude::*;

pub mod api;
pub mod binary64;
pub mod capture;
pub mod config;
pub mod detect;
pub mod ocr;
pub mod raster;
pub mod text;
pub mod tracker;
pub mod types;
