use vstd::prelude::*;

pub mod text;
pub mod excludes;
pub mod pairs;
pub mod errors;
pub mod rsync;
pub mod sync;
pub mod dry_run;
pub mod remote;
pub mod tailscale;
pub mod env_check;
pub mod commands;

verus! {

} // verus!
