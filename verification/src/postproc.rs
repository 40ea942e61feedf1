//! What is made of the solver's results.
pub mod companion;
pub mod compliance;
pub mod conditioned;
pub mod conditioned_step;
pub mod constants;
pub mod distinct;
pub mod inverse;
pub mod isotropic;
pub mod isotropic_inverse;
pub mod moduli;
pub mod moduli_laws;
pub mod nearness;
pub mod pivots;
pub mod reduction;
pub mod residuals;
pub mod round_trip;
pub mod save;
pub mod save_laws;
pub mod scalar;
pub mod scalar_laws;
pub mod step_bounds;
pub mod step_errors;
pub mod step_rounding;
pub mod step_sums;
pub mod vonmises;
pub mod vonmises_laws;
pub mod vtk_laws;
pub mod vtkio;
pub mod well_conditioned;
