//! Geometry ingestion for a terrain walkability viewer: text mesh parsing,
//! fan triangulation, the incidence structure behind normal averaging,
//! spatial tiling and the bookkeeping of slope colouring.
//!
//! Everything here works on indices, integer grid coordinates and bytes.
//! Coordinates themselves are carried through as opaque payload; the
//! arithmetic on them belongs to the caller.

pub mod text;
pub mod mesh;
pub mod triangulate;
pub mod normals;
pub mod tiles;
pub mod shading;
pub mod net;
