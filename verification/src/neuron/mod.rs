pub mod activation;
pub mod learning;
pub mod neuron;
