//! Conversion of Figma `.fig` files into JSON documents, with every step of the
//! binary format and of the document clean-up stated and proved.

pub mod error;
pub mod types;
pub mod header;
pub mod chunks;
pub mod compression;
pub mod json;
pub mod text;
pub mod childmap;
pub mod reach;
pub mod report;
pub mod doctor;
pub mod float_bits;
pub mod decoder;
pub mod nodes;
pub mod blob_parser;
pub mod blobs;
pub mod parent_map;
pub mod summaries;
pub mod structure;
pub mod diagnose;
pub mod cli;
pub mod tree;
pub mod transform;
pub mod zipfile;
pub mod canvas;
pub mod image_hash;
pub mod canvas_query;
pub mod pages;
pub mod serve;
pub mod css_walk;
