//! A Git-compatible content-addressed store: objects, index, refs, status
//! and a line diff, with every rule stated as a contract.

pub mod bytes;
pub mod canon;
pub mod cmd;
pub mod diff;
pub mod errors;
pub mod files;
pub mod grefs;
pub mod index;
pub mod lockfile;
pub mod object;
pub mod pathmap;
pub mod repo;
pub mod rev_parse;
pub mod sha;
pub mod status;
pub mod steady;
pub mod stored;
pub mod workspace;
pub mod written;
pub mod wrapping_vec;
