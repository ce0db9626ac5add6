//! A verified inverted-index library: tokenize file contents into
//! word -> byte-offset maps, walk a depth-limited filesystem tree, and
//! aggregate per-file indexes into one global index together with the
//! I/O failures met along the way.

pub mod assoc;
pub mod directory;
pub mod errors;
pub mod fs_model;
pub mod index;
pub mod laws;
pub mod tokenize;
pub mod traverse;
pub mod util;

pub use errors::IoErrKind;
pub use errors::IoErrWithPath;
pub use errors::IoErrorCollector;
