//! The logic of a desktop front end for a spectral solver of mechanics on voxel grids.
pub mod arithmetic;
pub mod arithmetic_laws;
pub mod clock;
pub mod double;
pub mod encoding;
pub mod formula;
pub mod gui;
pub mod parts;
pub mod pipeline;
pub mod postproc;
pub mod preproc;
pub mod rounding;
pub mod single;
pub mod sorting;
pub mod text;
pub mod text_laws;
pub mod viewer;
pub mod writing;
