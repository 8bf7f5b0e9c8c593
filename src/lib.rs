//! Groups semi-structured log records by a key and folds configured fields
//! of each group into streaming reducers, then lists the groups in order.
use vstd::prelude::*;

pub mod text;
pub mod value;
pub mod log_record;
pub mod operation;
pub mod aggregate;
pub mod config;

pub use crate::aggregate::{Field, Index, Table, TableDef, TableRow};
pub use crate::config::{build_table_def, Config, ConfigError};
pub use crate::log_record::{Accessor, Entry, Leaf, LogRecord};
pub use crate::operation::{OpType, Operation};
pub use crate::value::{LogValue, LogValueType};

verus! {

} // verus!
