//! Qwen3.8-Flash-Next (qwen4exp) forward path.
//!
//! The residual is a set of streams for each token.  A mixer collapses the
//! streams into the input of a block, and scatter weights bring the block's
//! output back to them; the head is a last such mixer, and there is no output
//! norm.  A layer is a gated DeltaNet or gated attention, and then experts.
//!
//! Tokens run in chunks.  The attention is dense: it answers only for positions
//! where the sparse selection of the model would pick every cell.

use crate::engine::ple::PleTable;
use crate::engine::ops::Plan;
use vstd::prelude::*;

pub mod batch;
pub mod blocks;
pub mod drafting;
pub mod drafts;
pub mod embed;
pub mod hazards;
pub mod heads;
pub mod inputs;
pub mod laws;
pub mod mtp;
pub mod order;
pub mod pass;
pub mod passes;
pub mod results;
pub mod rows;
pub mod runtime;
pub mod values;

verus! {

/// Tokens of a chunk.
pub const T_MAX: usize = 16;

/// Recurrent state of a gated DeltaNet layer.
#[derive(Debug, Clone, Copy, PartialEq, Eq, Structural)]
pub struct GdnState {
    /// the card it stands on
    pub dev: i32,
    pub s_bytes: u64,
    pub conv_bytes: u64,
    /// bytes of the history of the n-gram embedding, on the layer that has it
    pub ple_hist: Option<u64>,
}

/// Runtime of the qwen38 path.
pub struct Qwen38Rt {
    pub states: Vec<Option<GdnState>>,
    pub ple_table: Option<PleTable>,
    /// predecessors of the next token, for the hash of the n-gram embedding
    pub ple_tokens: Vec<u32>,
    /// the position that they precede
    pub ple_next_pos: u32,
}

/// What the hash of the n-gram embedding remembers of a sequence.
pub struct PleMem {
    pub tokens: Seq<u32>,
    pub next_pos: u32,
}

impl PleMem {
    /// The predecessors of a position: what is remembered, where it goes on from
    /// there, and nothing where it does not.
    pub open spec fn at(self, pos0: u32) -> PleMem {
        if pos0 != self.next_pos {
            PleMem { tokens: Seq::empty(), ..self }
        } else {
            self
        }
    }
}

/// A plan, and what the hash remembers after it.
pub struct Run {
    pub plan: Plan,
    pub mem: PleMem,
}

impl Run {
    pub open spec fn of(plan: Plan, mem: PleMem) -> Run {
        Run { plan, mem }
    }
}

impl Qwen38Rt {
    pub open spec fn mem(self) -> PleMem {
        PleMem { tokens: self.ple_tokens@, next_pos: self.ple_next_pos }
    }

    /// Only what the hash remembers may differ.
    pub open spec fn same_but_mem(self, other: Qwen38Rt) -> bool {
        self.states == other.states && self.ple_table == other.ple_table
    }
}

} // verus!
