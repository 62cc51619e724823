//! State of a sequence, as far as a plan depends on it.

use crate::engine::bailing::BailingRt;
use crate::engine::k3::K3Rt;
use crate::engine::qwen38::Qwen38Rt;
use vstd::prelude::*;

verus! {

/// The state of the one active sequence.
pub struct State {
    /// positions there is room for
    pub ctx: u32,
    pub k3: Option<K3Rt>,
    pub bailing: Option<BailingRt>,
    pub qwen38: Option<Qwen38Rt>,
}

} // verus!
