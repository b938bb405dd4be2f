//! Batch-rename planning and execution.
//!
//! The library lexically cleans path strings, turns a source-to-destination
//! mapping into an ordered list of primitive rename edges (breaking rename
//! cycles with a temporary sibling path), and drives execution with rollback
//! on partial failure.

pub mod filepath;
pub mod ioutils;
pub mod mmv;

pub use filepath::clean;
pub use filepath::from_slash;
pub use filepath::is_path_separator;
pub use filepath::os_separator;
pub use filepath::volume_name_len;
pub use ioutils::next_random;
pub use ioutils::RandomPathGenerator;
