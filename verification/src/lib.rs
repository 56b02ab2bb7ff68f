//! A file-backed knowledge store of "mem" documents: markdown bodies with a
//! line-oriented metadata header, addressed by slash-separated logical paths.
//!
//! This crate holds the storage core: the on-disk document format and its
//! codec, the path-to-file mapping, the store state with its
//! directory-cleanliness invariant, archival, enumeration, hierarchy
//! reconstruction, and the link-integrity check.

#![verifier::loop_isolation(false)]

use vstd::prelude::*;

pub mod hier;
pub mod lint;
pub mod mem;
pub mod query;
pub mod render;
pub mod store;
pub mod text;
pub mod time;

verus! {

/// A logical path is well formed when it is made of nonempty,
/// slash-separated segments: no leading, trailing or doubled slash.
pub open spec fn valid_path(p: Seq<char>) -> bool {
    &&& p.len() > 0
    &&& p[0] != '/'
    &&& p[p.len() - 1] != '/'
    &&& forall|i: int|
        0 < i < p.len() ==> !(#[trigger] p[i] == '/' && p[i - 1] == '/')
}

} // verus!
