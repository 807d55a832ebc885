pub mod laws;
pub mod multiply;
pub mod tensor;
