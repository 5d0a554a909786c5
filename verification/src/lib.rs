//! Verified core of a Mermaid diagram layout library: the diagram
//! intermediate representation, token and name tables, xmind label text
//! handling, and the integer side of the layered-layout snapshot and its
//! candidate guard.

pub mod ir;
pub mod text;
pub mod layered;
pub mod xmind;
pub mod edge_geometry;
