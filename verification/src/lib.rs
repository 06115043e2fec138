pub mod chance;
pub mod connections;
pub mod evolution;
pub mod input;
pub mod nodes;
pub mod parameters;
pub mod plotting;
pub mod population;
