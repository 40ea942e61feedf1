//! What a simulation needs before it can run.
pub mod algorithm;
pub mod algorithm_laws;
pub mod id_laws;
pub mod ids;
pub mod material_error_laws;
pub mod material_laws;
pub mod material_order;
pub mod material_xml;
pub mod materials;
pub mod zone_laws;
pub mod zones;
