mod random;
pub mod dimacs;
pub mod evolution;
pub mod population;
pub mod sat;
