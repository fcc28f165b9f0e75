//! Circuits on shared values, and the input shares that a set of probes depends on.
pub mod es_graph;
pub mod import_sl_sc;
pub mod isw;
pub mod ni;
pub mod poly;
pub mod sl_sc;
pub mod utils;
pub mod var_set;

pub use self::import_sl_sc::new_sl_sc;
pub use self::isw::build_isw;
pub use self::ni::sim_set;
pub use self::sl_sc::{SlSharedCircuit, Var, VarSrc};
