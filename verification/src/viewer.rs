//! The view of the materials.
pub mod color_laws;
pub mod colors;
pub mod legend;
pub mod mesh;
pub mod mesh_laws;
pub mod orbit;
pub mod orbit_laws;
pub mod shader;
pub mod shader_laws;
pub mod surface;
pub mod surface_laws;
