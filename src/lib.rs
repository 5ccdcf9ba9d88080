//! A photo culler's library: pairs JPEG and RAF files, decodes images off the
//! interactive thread into bounded RGBA8 buffers, keeps a small
//! least-recently-used store of renderable handles with deduplicated load
//! requests and neighbour preloading, and works out what a deletion removes.
use vstd::prelude::*;

pub mod decode;
pub mod deletion;
pub mod keyed;
pub mod photo_pair;
pub mod scanner;
pub mod viewer;

verus! {

} // verus!
