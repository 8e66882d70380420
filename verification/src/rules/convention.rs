//! Rules on conventions of style.

use vstd::prelude::*;
use crate::rules::convention::cv05::RuleCV05;
use crate::rules::ErasedRule;

pub mod cv05;

verus! {

/// The rules of this group, in the order in which they run.
pub fn rules() -> (out: Vec<ErasedRule>)
    ensures
        out@ == seq![ErasedRule::CV05(RuleCV05 {  })],
{
    let mut out: Vec<ErasedRule> = Vec::new();
    out.push(RuleCV05::default().erased());
    out
}

} // verus!
