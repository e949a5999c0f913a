//! Tpaint: the verified core of a layered raster editor.
pub mod doc;
pub mod document;
pub mod history;
pub mod packbits;
pub mod psd;
pub mod psd_read;
pub mod psd_write;
pub mod psd_laws;
pub mod psd_layer_laws;
pub mod tools;
pub mod raster;
pub mod region;
pub mod morph;
pub mod text;
pub mod layout;
pub mod project;
pub mod project_laws;
pub mod app;
pub mod editor;
pub mod editor_layers;
pub mod editor_masks;
pub mod editor_groups;
pub mod editor_select;
pub mod editor_paint;
pub mod editor_laws;
pub mod editor_files;
pub mod image_files;
pub mod commands;
pub mod pixel_laws;
pub mod file_list;
pub mod canvas;
pub mod palette;
pub mod cli;

use vstd::prelude::*;

verus! {

/// The editor's name in every title and message.
pub const APP_NAME: &'static str = "Tpaint";

} // verus!
