//! The group-membership core of a group key-agreement protocol: the binary
//! wire codec, the node model and array-addressed ratchet tree (resolutions,
//! adding and removing members, update path checks), the bookkeeping of the
//! application secret tree, and the group configuration it consumes.

use vstd::prelude::*;

pub mod astree;
pub mod codec;
pub mod config;
pub mod node;
pub mod tree;

verus! {

} // verus!
