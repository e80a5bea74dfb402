//! Reconciliation core for a registry of virtual monitors: display-mode
//! parsing, mode algebra, identifier allocation and command planning.

pub mod algebra;
pub mod command;
pub mod decimal;
pub mod iddcx;
pub mod mode;
pub mod monitor;
pub mod rates;
pub mod registry;
pub mod text;
