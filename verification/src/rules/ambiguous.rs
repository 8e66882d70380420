//! Rules on ambiguous statements.

use vstd::prelude::*;
use crate::rules::ambiguous::am02::RuleAM02;
use crate::rules::ErasedRule;

pub mod am02;

verus! {

/// The rules of this group, in the order in which they run.
pub fn rules() -> (out: Vec<ErasedRule>)
    ensures
        out@ == seq![ErasedRule::AM02(RuleAM02 {  })],
{
    let mut out: Vec<ErasedRule> = Vec::new();
    out.push(RuleAM02::default().erased());
    out
}

} // verus!
