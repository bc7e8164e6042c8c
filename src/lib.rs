pub mod coeff_matrix;
pub mod compat;
pub mod coord;
pub mod errors;
pub mod learner;
pub mod model;
