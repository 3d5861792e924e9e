use vstd::prelude::*;

pub mod mirror;
pub mod mirror_laws;
pub mod ordered_map;
pub mod sourceslist;
pub mod sourceslist_laws;
pub mod text;

verus! {
} // verus!
