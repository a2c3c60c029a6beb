//! Splitting of PDF documents by size or by page count, and extraction of the
//! images that they embed.

pub mod chunks;
pub mod cli;
pub mod codecs;
pub mod collect;
pub mod control;
pub mod document_laws;
pub mod extract;
pub mod files;
pub mod gui;
pub mod gui_laws;
pub mod image_file_laws;
pub mod image_laws;
pub mod image_scan;
pub mod images;
pub mod locale;
pub mod page_laws;
pub mod page_split;
pub mod page_tree;
pub mod page_tree_laws;
pub mod pdf;
pub mod size_laws;
pub mod size_split;
pub mod size_text;
pub mod tasks;
pub mod text;
pub mod text_stats;
pub mod tiff;
