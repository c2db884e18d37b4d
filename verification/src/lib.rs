pub mod autograd;
pub mod nn;
pub mod topo;
pub mod types;
