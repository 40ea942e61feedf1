//! Running a simulation.
use crate::preproc::algorithm::AlgorithmType;
use vstd::prelude::*;

pub mod cases;
pub mod course;
pub mod environment;
pub mod environment_laws;
pub mod loads;
pub mod paths;
pub mod permission_laws;
pub mod permissions;
pub mod run_laws;
pub mod runner;
pub mod stress;
pub mod stress_laws;

verus! {

/// What a simulation is called and how it is run.
pub struct SimulationConfig {
    pub name: String,
    pub mode: SimulationModes,
    pub algorithm: AlgorithmType,
}

/// What a simulation computes.
#[derive(Clone, Copy, PartialEq, Eq, Structural, Debug)]
pub enum SimulationModes {
    ElasticHomogenization,
}

impl Default for SimulationModes {
    fn default() -> (r: SimulationModes)
        ensures
            r == SimulationModes::ElasticHomogenization,
    {
        SimulationModes::ElasticHomogenization
    }
}

impl SimulationModes {
    pub open spec fn title(self) -> Seq<char> {
        match self {
            SimulationModes::ElasticHomogenization => "Elastic homogenization"@,
        }
    }

    /// The name shown for the mode.
    pub fn label(&self) -> (r: &'static str)
        ensures
            r@ == self.title(),
    {
        match self {
            SimulationModes::ElasticHomogenization => "Elastic homogenization",
        }
    }
}

} // verus!
