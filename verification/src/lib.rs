//! Recovery of x86-64 functions from PE32+ images and relocation-aware
//! comparison of the recovered functions.

pub mod align;
pub mod bytes;
pub mod diff;
pub mod disasm;
pub mod error;
pub mod index;
pub mod input;
pub mod mapping;
pub mod matcher;
pub mod pe;
pub mod sorted;
pub mod text;
pub mod x86;

pub use align::align;
pub use bytes::{read_u16, read_u32, read_u64};
pub use diff::{diff_functions, DiffKind, DiffOperation, FunctionDiff};
pub use disasm::{Instruction, NormalizedInstruction};
pub use error::Error;
pub use index::{frame_index, unframe_index, AnalysisIndex};
pub use mapping::{anchors, exact_candidates, fingerprints, relationship_counts, MapState};
pub use matcher::{
    candidate_filter, changed_instructions, cheap_map_filter, fingerprint, lcs_length,
    positional_match_count,
};
pub use pe::{BasicBlock, Function, FunctionSource, PeImage, Section};
