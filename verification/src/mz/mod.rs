//! The decisions and the work of the `mz` command-line tool, apart from its input and
//! output.
pub mod arg_laws;
pub mod args;
pub mod bench;
pub mod choices;
pub mod compress;
pub mod decompress;
pub mod error;
pub mod io_util;
pub mod laws;
pub mod path;
pub mod size;
pub mod text;
pub mod verify;
