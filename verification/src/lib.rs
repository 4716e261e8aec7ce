//! Verified core of the OpenHP1 world runtime: rotator kinematics, script
//! argument decoding, event bookkeeping and the save-game snapshot format.

pub mod error;
pub mod kinematics;
pub mod native;
pub mod order;
pub mod text;
pub mod value;
pub mod world;
pub mod save;
pub mod state;
pub mod scalar;
pub mod navigation;
