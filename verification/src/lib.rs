//! Binary delta patches in the ddelta/bsdiff tradition: a diff generator
//! that segments the new file into (approximate-match, literal-extra, seek)
//! records against the old file, and a patch applier that reconstructs the
//! new file from such a record stream.

use vstd::prelude::*;

pub mod codec;
pub mod diff;
pub mod patch;

pub use diff::generate;
pub use diff::generate_chunked;
pub use diff::match_len;
pub use diff::min_memcmp;
pub use diff::search;
pub use diff::write_ending;
pub use diff::write_header;
pub use diff::DiffError;
pub use patch::apply;
pub use patch::apply_chunked;
pub use patch::apply_diff;
pub use patch::apply_with_header;
pub use patch::copy_bytes;
pub use patch::PatchError;

verus! {

} // verus!
