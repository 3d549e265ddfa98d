//! The decisions of the execution host that precede any native work: the
//! pipeline that produces a code image, and the admission of a mapping
//! request.  The native steps themselves — mapping memory, flipping it to
//! executable, calling into it — live outside this library, scoped so that
//! release is guaranteed once allocation succeeds.

use vstd::prelude::*;

use crate::JitError;
use crate::codegen::{generate_machine_code, spec_generate};
use crate::tokens::Tok;
use crate::translate::{spec_translate, translate};

verus! {

/// Largest code image the host will request a mapping for.  An expression
/// would need millions of tokens to reach it; a request beyond it is
/// reported as an allocation failure rather than attempted.
pub const MAX_CODE_LEN: usize = 0x100_0000;

/// The outcome of compilation: the code image of the expression, or the
/// first rejection on the way there.
pub open spec fn spec_compile(s: Seq<char>) -> Result<Seq<u8>, JitError> {
    match spec_translate(s) {
        Ok(pf) => spec_generate(pf),
        Err(e) => Err(e),
    }
}

/// Translate an infix expression and generate its machine-code image.
/// Rejected input produces its typed error and no code at all, so nothing
/// malformed ever reaches executable memory.
pub fn compile(expr: &str) -> (r: Result<Vec<u8>, JitError>)
    ensures
        (match r {
            Ok(code) => spec_compile(expr@) == Ok::<Seq<u8>, JitError>(code@),
            Err(e) => spec_compile(expr@) == Err::<Seq<u8>, JitError>(e),
        }),
{
    let postfix = match translate(expr) {
        Ok(p) => p,
        Err(e) => {
            return Err(e);
        },
    };
    generate_machine_code(&postfix)
}

/// Whether a mapping request of this size is accepted.
pub open spec fn spec_plan_mapping(len: int) -> Result<int, JitError> {
    if len == 0 || len > MAX_CODE_LEN as int {
        Err(JitError::MemoryAllocationFailure)
    } else {
        Ok(len)
    }
}

/// Admit or refuse the size of the executable mapping the host is about
/// to request: an empty image cannot be mapped, and an impossibly large
/// request surfaces as allocation failure instead of being attempted.
pub fn plan_mapping(len: usize) -> (r: Result<usize, JitError>)
    ensures
        (match r {
            Ok(l) => spec_plan_mapping(len as int) == Ok::<int, JitError>(l as int) && l == len,
            Err(e) => spec_plan_mapping(len as int) == Err::<int, JitError>(e),
        }),
{
    if len == 0 || len > MAX_CODE_LEN {
        Err(JitError::MemoryAllocationFailure)
    } else {
        Ok(len)
    }
}

} // verus!
