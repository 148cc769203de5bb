//! Blueprints of small applications, one for each way of registering.

pub mod granular_limits;
pub mod head;
pub mod static_methods;
