//! Rewrites a sequential `for` loop into a call of `for_each` on a parallel
//! iterator, keeping what `continue` means and refusing the control flow that
//! cannot survive the change.

pub mod syntax;
pub mod transform;
pub mod expand;
pub mod laws;

pub use syntax::{Expr, LoopKind};
pub use transform::{TransformBody, Unsupported};
pub use expand::{ForEach, ForLoop, parallel, wrap_single_pass};
