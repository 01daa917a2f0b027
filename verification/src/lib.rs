//! Disk-usage analysis core: scan trees, NTFS record parsing, insights and
//! formatting helpers.

use vstd::prelude::*;

pub mod bench;
pub mod display_tree;
pub mod hue;
pub mod insights;
pub mod order;
pub mod outcome;
pub mod scanner;
pub mod text;
pub mod ui_state;
pub mod util;
