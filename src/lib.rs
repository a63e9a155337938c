pub mod graph;
pub mod hakari;
pub mod summary;
pub mod triple;
pub mod unify;
