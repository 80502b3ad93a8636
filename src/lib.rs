//! Device-side client of a signal-visualization monitor: a fixed-capacity map
//! of named signals sampled on a shared tick, and the binary package that
//! carries one window of samples to the host over a serial link.

pub mod decode;
pub mod laws;
pub mod map;
pub mod name;
pub mod package;
pub mod value;

pub use map::{AddError, NextValue, SVMap, SVStruct, SignalTable, ValueRec};
pub use name::{equal, Name, NAME_MAX};
pub use package::{package, package_head, package_record, package_tail, SendPackage, WriteIter};
pub use value::{FloatBits, OnlyFront, Value, ValueType};
