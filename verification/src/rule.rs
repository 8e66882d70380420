//! The contract that every diagnostic rule implements.

use vstd::prelude::*;
use ahash::AHashMap;
use crate::config::{config_entries, ConfigError, Value, ValueData};
use crate::context::{ContextData, RuleContext};
use crate::crawler::{Crawler, CrawlerData};
use crate::fix::{results_view, LintResult, LintResultData};
use crate::rules::ErasedRule;
use crate::segment::SegmentData;

verus! {

/// A rule met a shape of tree that it cannot evaluate.
#[derive(Debug, Clone, Copy, PartialEq, Eq, Structural)]
pub struct RuleEvalFault {
    /// The segment on which the rule had been invoked.
    pub segment: usize,
}

/// A diagnostic rule: a named check that is invoked on the segments its
/// crawler selects and answers with the violations it finds there.
pub trait Rule {
    /// The identifier of the rule.
    spec fn name_spec(&self) -> Seq<char>;

    /// What the rule looks for, in words.
    spec fn description_spec(&self) -> Seq<char>;

    /// The traversal that the rule asks for.
    spec fn crawl_targets(&self) -> CrawlerData;

    /// The rule as the options `entries` configure it, or the name of the
    /// option that it cannot accept.
    spec fn load_spec(&self, entries: Map<Seq<char>, ValueData>) -> Result<ErasedRule, Seq<char>>;

    /// The violations that the rule finds in context `cx` of arena `a`
    /// under `dialect` and the options `entries`, as a function of these
    /// alone.
    spec fn eval_spec(
        &self,
        a: Seq<SegmentData>,
        cx: ContextData,
        dialect: Seq<char>,
        entries: Map<Seq<char>, ValueData>,
    ) -> Result<Seq<LintResultData>, RuleEvalFault>;

    fn name(&self) -> (out: &'static str)
        ensures
            out@ == self.name_spec(),
    ;

    fn description(&self) -> (out: &'static str)
        ensures
            out@ == self.description_spec(),
    ;

    /// The segments that the rule wants to be invoked on.
    fn crawl_behaviour(&self) -> (out: Crawler)
        ensures
            out@ == self.crawl_targets(),
    ;

    /// The rule as `config` configures it.
    fn load_from_config(&self, config: &AHashMap<String, Value>) -> (out: Result<
        ErasedRule,
        ConfigError,
    >)
        ensures
            match out {
                Ok(rule) => self.load_spec(config_entries(*config)) == Ok::<ErasedRule, Seq<char>>(
                    rule,
                ),
                Err(e) => self.load_spec(config_entries(*config)) == Err::<ErasedRule, Seq<char>>(
                    e.option@,
                ),
            },
    ;

    /// Evaluates the rule on one context.
    fn eval(&self, cx: &RuleContext) -> (out: Result<Vec<LintResult>, RuleEvalFault>)
        requires
            cx.wf(),
        ensures
            match out {
                Ok(found) => self.eval_spec(
                    cx.arena@,
                    cx@,
                    cx.dialect@,
                    config_entries(*cx.config),
                ) == Ok::<Seq<LintResultData>, RuleEvalFault>(results_view(found@)),
                Err(fault) => self.eval_spec(
                    cx.arena@,
                    cx@,
                    cx.dialect@,
                    config_entries(*cx.config),
                ) == Err::<Seq<LintResultData>, RuleEvalFault>(fault),
            },
    ;
}

} // verus!
