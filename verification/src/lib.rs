//! Verified core of a 3D scene and dataset visualizer: mesh topology,
//! binary and text format parsing, dataset indexing and streaming buffers,
//! model-file decoding, and scene undo/redo.

pub mod brep;
pub mod bytes;
pub mod dataset;
pub mod editor;
pub mod geometry;
pub mod i18n;
pub mod llm;
pub mod logger;
pub mod measure;
pub mod mesh;
pub mod primitives;
pub mod sampling;
pub mod scene;
pub mod settings;
pub mod text;
