//! Decision logic of a daemon that watches a GPU's memory clock, notices when
//! it has dropped below its expected target, and asks for the overclock
//! profile to be reapplied and for an operator to be alerted.
pub mod alert;
pub mod control;
pub mod reading;
