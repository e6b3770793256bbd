pub mod generational_vector;
pub mod values;
