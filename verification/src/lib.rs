//! Readers for NASTRAN bulk data files and OP2 result files.
pub mod bdf;
pub mod datfile;
pub mod op2;
pub mod scan;
