//! LUNA: screen analysis through hand-written computer vision and guarded
//! input automation, with each piece of logic stated and proved.

pub mod about;
pub mod ai;
pub mod capture;
pub mod codec;
pub mod config;
pub mod engine;
pub mod errctx;
pub mod error;
pub mod events;
pub mod image;
pub mod input;
pub mod kv;
pub mod logging;
pub mod memory;
pub mod metrics;
pub mod models;
pub mod ocr;
pub mod pipeline;
pub mod preview;
pub mod program;
pub mod render;
pub mod safety;
pub mod text;
pub mod util;
pub mod vision;
pub mod winapi;

pub use about::{check_compatibility, info, version_info, LibraryInfo, PlatformInfo, NAME, VERSION};

use vstd::prelude::*;

verus! {

} // verus!
