use vstd::prelude::*;

pub mod agent_assist;
pub mod components;
pub mod conservation;
pub mod gf2;
pub mod parse;
pub mod plugin;
pub mod report;
pub mod simplicial;
pub mod suggest;
pub mod ternary;
pub mod text;

verus! {

} // verus!
