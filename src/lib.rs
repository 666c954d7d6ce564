//! Dataflow execution core of a serverless query engine: stage descriptors,
//! the wire codec, task identifiers, the reassembly arena, batch reshaping
//! and the decisions of the invocation layer and stage runtime.
use vstd::prelude::*;

pub mod arena;
pub mod batch;
pub mod codec;
pub mod descriptor;
pub mod invoke;
pub mod launcher;
pub mod rle;
pub mod runtime;
pub mod task_id;
pub mod wire;

verus! {


} // verus!
