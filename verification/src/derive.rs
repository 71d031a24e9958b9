//! The two generation triggers: from a declared structure straight to its
//! encode program or its decode program.

use crate::decoder::{synthesize_decode, DecodeProgram};
use crate::encoder::{synthesize_encode, EncodeProgram};
use crate::layout::{resolution_error, LayoutPlan};
use crate::resolver::{realizes, resolve};
use crate::schema::{ConfigError, StructureDescriptor};
use vstd::prelude::*;

verus! {

/// Whether `program` is the encode program of the plan of `desc`.
pub open spec fn encoder_of(desc: StructureDescriptor, program: EncodeProgram) -> bool {
    exists|plan: LayoutPlan| #[trigger] realizes(desc, plan) && program.lowers(plan)
}

/// Whether `program` is the decode program of the plan of `desc`.
pub open spec fn decoder_of(desc: StructureDescriptor, program: DecodeProgram) -> bool {
    exists|plan: LayoutPlan| #[trigger] realizes(desc, plan) && program.lowers(plan)
}

/// Generates the encode program of a declared structure, or reports the first
/// fault of the declaration.
pub fn derive_bin_encode(desc: &StructureDescriptor) -> (r: Result<EncodeProgram, ConfigError>)
    ensures
        match r {
            Ok(program) => resolution_error(*desc).is_none() && encoder_of(*desc, program)
                && program.wf(),
            Err(e) => resolution_error(*desc) == Some(e),
        },
{
    match resolve(desc) {
        Ok(plan) => {
            let program = synthesize_encode(&plan);
            assert(realizes(*desc, plan) && program.lowers(plan));
            Ok(program)
        },
        Err(e) => Err(e),
    }
}

/// Generates the decode program of a declared structure, or reports the first
/// fault of the declaration.
pub fn derive_bin_decode(desc: &StructureDescriptor) -> (r: Result<DecodeProgram, ConfigError>)
    ensures
        match r {
            Ok(program) => resolution_error(*desc).is_none() && decoder_of(*desc, program)
                && program.wf(),
            Err(e) => resolution_error(*desc) == Some(e),
        },
{
    match resolve(desc) {
        Ok(plan) => {
            let program = synthesize_decode(&plan);
            assert(realizes(*desc, plan) && program.lowers(plan));
            Ok(program)
        },
        Err(e) => Err(e),
    }
}

} // verus!
