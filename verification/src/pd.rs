//! Counts of the input shares that sets of probes need, and transforms of such counts.
pub mod combinatorics;
pub mod cum_transform;
pub mod gadget;
pub mod pdt;
pub mod rpm_sim;
pub mod utils;

pub use self::gadget::SimGadget;
pub use self::rpm_sim::{CntSim, CntSimSt, SampleRes};
