//! Columnar data file reader core.
//!
//! The on-disk format is a self-describing binary file: data pages, a
//! manifest (schema plus file-level metadata) near the tail, a page table
//! indexing pages by (field id, batch id), and a fixed magic suffix.  This
//! crate holds the verified core of the reader: footer discovery, manifest
//! and metadata deserialization, page-table navigation, typed array
//! materialization and the read-parameter algebra.  Byte transport (object
//! stores, async I/O) and float kernels live outside the verified library.

pub mod error;
pub mod params;
pub mod datatypes;
pub mod text;
pub mod codec;
pub mod array;
pub mod schema;
pub mod wire;
pub mod format;
pub mod manifest;
pub mod batch;
pub mod reader;


